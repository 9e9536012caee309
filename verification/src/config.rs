//! The configuration of a tokenizer: target size, special tokens, normaliser.
use crate::error::TokenizerError;
use crate::preproc::Normalizer;
use crate::rules::registry_wf;
use crate::util::{ids_of, Token, VocabMap};
use vstd::prelude::*;

verus! {

/// What a tokenizer is built from and trained towards.
#[derive(Clone, Debug)]
pub struct TokenizerConfig {
    /// The number of ids that training aims at: ids in all, the 256 bytes
    /// included.
    pub vocab_size: usize,
    /// The special tokens registered so far, in the order of registration.
    pub special_tokens_map: Option<VocabMap>,
    /// The normaliser applied to every text before it is encoded.
    pub preproc: Normalizer,
}

impl TokenizerConfig {
    /// The registered special tokens; none where the map is absent.
    pub open spec fn registry(&self) -> Seq<(String, Token)> {
        match self.special_tokens_map {
            Some(map) => map@,
            None => Seq::empty(),
        }
    }

    /// The ids of the registered special tokens.
    pub open spec fn special_ids(&self) -> Seq<Token> {
        ids_of(self.registry())
    }

    /// The registry is one that a tokenizer without any rule can start from.
    pub open spec fn wf(&self) -> bool {
        registry_wf(Map::empty(), self.special_ids())
    }

    /// The ids of the registered special tokens, in the order of registration.
    pub fn special_id_list(&self) -> (ids: Vec<Token>)
        ensures
            ids@ == self.special_ids(),
    {
        let mut ids: Vec<Token> = Vec::new();
        if let Some(map) = self.special_tokens_map.as_ref() {
            let mut i: usize = 0;
            while i < map.len()
                invariant
                    i <= map@.len(),
                    ids@.len() == i,
                    forall|j: int| 0 <= j < i ==> ids@[j] == (#[trigger] map@[j]).1,
                decreases map@.len() - i,
            {
                ids.push(map[i].1);
                i += 1;
            }
        }
        assert(ids@ =~= self.special_ids());
        ids
    }

    /// A configuration without special tokens. A vocabulary size of zero is
    /// refused; without a normaliser given, blanks are collapsed.
    pub fn new(vocab_size: usize, preproc: Option<Normalizer>) -> (r: Result<
        Self,
        TokenizerError,
    >)
        ensures
            vocab_size == 0 ==> r == Err::<Self, TokenizerError>(
                TokenizerError::InvalidConfiguration,
            ),
            vocab_size > 0 ==> r == Ok::<Self, TokenizerError>(
                (TokenizerConfig {
                    vocab_size,
                    special_tokens_map: None,
                    preproc: match preproc {
                        Some(p) => p,
                        None => Normalizer::WhitespaceOnly,
                    },
                }),
            ),
            r matches Ok(c) ==> c.wf(),
    {
        if vocab_size == 0 {
            return Err(TokenizerError::InvalidConfiguration);
        }
        let preproc = match preproc {
            Some(p) => p,
            None => Normalizer::default(),
        };
        proof {
            assert(Map::<(Token, Token), Token>::empty().dom().len() == 0);
        }
        Ok(TokenizerConfig { vocab_size, special_tokens_map: None, preproc })
    }
}

} // verus!
