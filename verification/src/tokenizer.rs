//! The tokenizer: merge rules, their cached inverse and the configuration,
//! with encoding, decoding, registration of special tokens and training.
use crate::config::TokenizerConfig;
use crate::error::TokenizerError;
use crate::expand::{expand_all, expand_seq};
use crate::merge::{apply_merges, lemma_merge_all_bound, merge_all, settled, Rules};
use crate::preproc::{lemma_collapse_shortens, Normalize, Normalizer};
use crate::laws::{law_merge_settled, law_train_growth, lemma_train_step};
use crate::rules::{
    build_decoder, inverse, is_special, keeps_rules, lemma_inverse, next_id, registry_wf,
    rules_wf, FIRST_ID,
};
use crate::table::{pair_insert, pair_len, BkwdMap, FwdMap};
use crate::train::{best_pair, most_frequent_pair, train_steps};
use crate::util::{
    below, ids_of, inject_special_tokens, inject_specials, lemma_replace_specials_bound,
    lemma_replace_specials_len, ngram_replace, replace_special_tokens, replace_specials, widen,
    Token, VocabMap,
};
use rustc_hash::FxHashMap;
use vstd::prelude::*;
use vstd::slice::slice_to_vec;
use vstd::utf8::{decode_utf8, encode_utf8, valid_utf8};

verus! {

/// `String::from_utf8`: the text that `bytes` spell where they are valid
/// UTF-8, and nothing where they are not.
#[verifier::external_body]
fn utf8_to_string(bytes: Vec<u8>) -> (text: Option<String>)
    ensures
        text matches Some(s) ==> valid_utf8(bytes@) && s@ == decode_utf8(bytes@),
        text is None ==> !valid_utf8(bytes@),
{
    String::from_utf8(bytes).ok()
}

/// The tokens of a text under the rules `m`, the registry `reg` and the
/// normaliser `norm`: the text is normalised and taken as its UTF-8 bytes,
/// registered literals become their ids, and the rules are applied until no
/// pass shortens the sequence. The whole input is one sequence: no window
/// boundary keeps a rule from applying.
pub open spec fn encode_tokens(
    m: Rules,
    reg: Seq<(String, Token)>,
    norm: Normalizer,
    text: Seq<char>,
) -> Seq<Token> {
    merge_all(m, replace_specials(widen(encode_utf8(norm.normalized(text))), reg))
}

/// The tokens behind `ids`: every learned id expanded to the end, then every
/// special id replaced by the bytes of its literal.
pub open spec fn decode_tokens(m: Rules, reg: Seq<(String, Token)>, ids: Seq<Token>) -> Seq<
    Token,
> {
    inject_specials(expand_seq(inverse(m), ids), reg)
}

/// Whether every token is a raw byte.
pub open spec fn all_bytes(s: Seq<Token>) -> bool {
    forall|i: int| 0 <= i < s.len() ==> #[trigger] s[i] < FIRST_ID
}

/// Each token as the byte of the same value.
pub open spec fn narrow(s: Seq<Token>) -> Seq<u8> {
    Seq::new(s.len(), |i: int| s[i] as u8)
}

/// The text behind `ids`, where there is one: the decoded tokens must all be
/// bytes, and the bytes valid UTF-8.
pub open spec fn decode_text(m: Rules, reg: Seq<(String, Token)>, ids: Seq<Token>) -> Option<
    Seq<char>,
> {
    let tokens = decode_tokens(m, reg, ids);
    if all_bytes(tokens) && valid_utf8(narrow(tokens)) {
        Some(decode_utf8(narrow(tokens)))
    } else {
        None
    }
}

/// The id under which the literal `word` is registered in `reg`, if it is:
/// that of the first entry with this literal.
pub open spec fn lookup(reg: Seq<(String, Token)>, word: Seq<char>) -> Option<Token>
    decreases reg.len(),
{
    if reg.len() == 0 {
        None
    } else {
        match lookup(reg.drop_last(), word) {
            Some(id) => Some(id),
            None => if reg.last().0@ == word {
                Some(reg.last().1)
            } else {
                None
            },
        }
    }
}

/// The registry after `word` has been registered beside `rules` merge rules:
/// a literal that is registered already keeps its id and nothing is added;
/// a new one is appended with the next free id.
pub open spec fn register(reg: Seq<(String, Token)>, rules: nat, word: String) -> Seq<
    (String, Token),
> {
    if lookup(reg, word@) is Some {
        reg
    } else {
        reg.push((word, (FIRST_ID + rules + reg.len()) as Token))
    }
}

/// The registry after each of `words` has been registered, first word first.
pub open spec fn register_all(reg: Seq<(String, Token)>, rules: nat, words: Seq<String>) -> Seq<
    (String, Token),
>
    decreases words.len(),
{
    if words.len() == 0 {
        reg
    } else {
        register(register_all(reg, rules, words.drop_last()), rules, words.last())
    }
}

/// Something that maps text to token ids and back.
pub trait Tokenizer {
    /// Whether the tokenizer is in a state in which it can be used.
    spec fn ready(&self) -> bool;

    /// The ids that `encode` gives for `text`.
    spec fn encoding(&self, text: Seq<char>) -> Seq<Token>;

    /// The text that `decode` gives for `ids`, where it gives one.
    spec fn decoding(&self, ids: Seq<Token>) -> Option<Seq<char>>;

    /// The token ids of `text`.
    fn encode(&self, text: &str) -> (tokens: Vec<Token>)
        requires
            self.ready(),
        ensures
            tokens@ == self.encoding(text@),
    ;

    /// The text of `input_ids`, or `InvalidEncoding` where they spell none.
    fn decode(&self, input_ids: &[Token]) -> (text: Result<String, TokenizerError>)
        requires
            self.ready(),
        ensures
            match self.decoding(input_ids@) {
                Some(s) => text matches Ok(t) && t@ == s,
                None => text == Err::<String, TokenizerError>(TokenizerError::InvalidEncoding),
            },
    ;
}

/// The id under which `word` is registered in `map`, if it is.
fn find_registered(map: &VocabMap, word: &String) -> (r: Option<Token>)
    ensures
        r == lookup(map@, word@),
{
    let mut i: usize = 0;
    assert(map@.subrange(0, 0) =~= Seq::<(String, Token)>::empty());
    while i < map.len()
        invariant
            i <= map@.len(),
            lookup(map@.subrange(0, i as int), word@) is None,
        ensures
            i == map@.len(),
        decreases map@.len() - i,
    {
        let ghost head = map@.subrange(0, i as int);
        let ghost next = map@.subrange(0, i + 1);
        assert(next.drop_last() =~= head);
        assert(next.last() == map@[i as int]);
        if map[i].0 == *word {
            proof {
                lemma_lookup_prefix(map@, i + 1, word@);
            }
            return Some(map[i].1);
        }
        i += 1;
    }
    assert(map@.subrange(0, map@.len() as int) =~= map@);
    None
}

/// What is found among the first entries of a registry is found in all of it.
proof fn lemma_lookup_prefix(reg: Seq<(String, Token)>, n: int, word: Seq<char>)
    requires
        0 <= n <= reg.len(),
        lookup(reg.subrange(0, n), word) is Some,
    ensures
        lookup(reg, word) == lookup(reg.subrange(0, n), word),
    decreases reg.len() - n,
{
    if n < reg.len() {
        let head = reg.subrange(0, n);
        let next = reg.subrange(0, n + 1);
        assert(next.drop_last() =~= head);
        lemma_lookup_prefix(reg, n + 1, word);
    } else {
        assert(reg.subrange(0, n) =~= reg);
    }
}

/// A byte-pair-encoding tokenizer.
///
/// The fields are open, so that a vocabulary can be inspected and stored.
/// Whoever changes one by hand owes `wf` again before the next call. Changing
/// calls take `&mut self` and reading calls `&self`: while a tokenizer is
/// shared for encoding and decoding, nothing can train it.
pub struct BPETokenizer {
    /// The merge rules learned so far.
    pub encoder: FwdMap,
    /// The inverse of the rules, where it has been built since they last changed.
    pub decoder: Option<BkwdMap>,
    /// Target size, special tokens and normaliser.
    pub config: TokenizerConfig,
}

impl BPETokenizer {
    /// The rules and the registry are well formed, and a cached inverse table
    /// is the inverse of the rules as they are now.
    pub open spec fn wf(&self) -> bool {
        &&& rules_wf(self.encoder@)
        &&& registry_wf(self.encoder@, self.config.special_ids())
        &&& self.decoder matches Some(d) ==> d@ == inverse(self.encoder@)
    }

    /// The size of the vocabulary: the number of ids in use, which are the
    /// 256 bytes, the learned ids and the special ids.
    pub open spec fn size(&self) -> nat {
        (FIRST_ID + self.encoder@.dom().len() + self.config.registry().len()) as nat
    }

    /// A tokenizer without any rule.
    pub fn new(config: TokenizerConfig) -> (tok: Self)
        requires
            config.wf(),
        ensures
            tok.wf(),
            tok.encoder@ == Map::<(Token, Token), Token>::empty(),
            tok.decoder is None,
            tok.config == config,
    {
        BPETokenizer { encoder: FxHashMap::default(), decoder: None, config }
    }

    /// The size of the vocabulary: bytes, learned ids and special ids.
    pub fn len(&self) -> (n: usize)
        requires
            self.wf(),
        ensures
            n == self.size(),
            n == next_id(self.encoder@, self.config.special_ids()),
    {
        let bytes = FIRST_ID as usize;
        match self.config.special_tokens_map.as_ref() {
            Some(map) => bytes + map.len() + pair_len(&self.encoder),
            None => bytes + pair_len(&self.encoder),
        }
    }

    /// Rebuilds the inverse table from the rules and caches it, whatever was
    /// cached before.
    pub fn _sync_decoder(&mut self)
        requires
            rules_wf(old(self).encoder@),
            registry_wf(old(self).encoder@, old(self).config.special_ids()),
        ensures
            final(self).wf(),
            final(self).encoder == old(self).encoder,
            final(self).config == old(self).config,
            final(self).decoder matches Some(d) && d@ == inverse(old(self).encoder@),
    {
        self.decoder = Some(build_decoder(&self.encoder));
    }

    /// Normalises `text` in place, as encoding does before anything else.
    pub fn preprocess(&self, text: &mut String)
        ensures
            final(text)@ == self.config.preproc.normalized(old(text)@),
    {
        self.config.preproc.normalize(text);
    }

    /// The number of steps that training may still take: what the target
    /// size exceeds the present size by.
    pub open spec fn budget(&self) -> nat {
        if self.config.vocab_size > self.size() {
            (self.config.vocab_size - self.size()) as nat
        } else {
            0
        }
    }

    /// Registers special tokens and returns their ids, one for each of
    /// `tokens`. Each new literal receives the next free id, in the order
    /// given; a literal registered before keeps its id.
    pub fn add_special_tokens(&mut self, tokens: Vec<String>) -> (ids: Vec<Token>)
        requires
            old(self).wf(),
            old(self).size() + tokens@.len() <= u32::MAX,
        ensures
            final(self).wf(),
            final(self).encoder == old(self).encoder,
            final(self).decoder == old(self).decoder,
            final(self).config.vocab_size == old(self).config.vocab_size,
            final(self).config.preproc == old(self).config.preproc,
            final(self).config.special_tokens_map is Some,
            final(self).config.registry() == register_all(
                old(self).config.registry(),
                old(self).encoder@.dom().len(),
                tokens@,
            ),
            ids@.len() == tokens@.len(),
            forall|i: int|
                0 <= i < tokens@.len() ==> lookup(final(self).config.registry(), tokens@[i]@)
                    == Some(#[trigger] ids@[i]),
    {
        let rules = pair_len(&self.encoder);
        let mut ids: Vec<Token> = Vec::new();
        let mut map: VocabMap = match self.config.special_tokens_map.take() {
            Some(map) => map,
            None => Vec::new(),
        };
        let ghost m = self.encoder@;
        let ghost start = old(self).config.registry();
        assert(map@ == start);
        assert(tokens@.subrange(0, 0) =~= Seq::<String>::empty());
        let mut i: usize = 0;
        while i < tokens.len()
            invariant
                i <= tokens@.len(),
                m == self.encoder@,
                rules == m.dom().len(),
                rules_wf(m),
                registry_wf(m, ids_of(map@)),
                map@ == register_all(start, rules as nat, tokens@.subrange(0, i as int)),
                FIRST_ID + rules + start.len() + tokens@.len() <= u32::MAX,
                map@.len() <= start.len() + i,
                ids@.len() == i,
                forall|j: int|
                    0 <= j < i ==> lookup(map@, tokens@[j]@) == Some(#[trigger] ids@[j]),
                self.encoder == old(self).encoder,
                self.decoder == old(self).decoder,
                self.config.vocab_size == old(self).config.vocab_size,
                self.config.preproc == old(self).config.preproc,
            decreases tokens@.len() - i,
        {
            let ghost done = tokens@.subrange(0, i as int);
            let ghost next = tokens@.subrange(0, i + 1);
            assert(next.drop_last() =~= done);
            assert(next.last() == tokens@[i as int]);
            let ghost before = map@;
            match find_registered(&map, &tokens[i]) {
                Some(id) => {
                    ids.push(id);
                },
                None => {
                    let id: Token = FIRST_ID + (rules + map.len()) as Token;
                    map.push((tokens[i].clone(), id));
                    ids.push(id);
                    proof {
                        let old_ids = ids_of(before);
                        let new_ids = old_ids.push(id);
                        assert(map@.drop_last() =~= before);
                        assert(ids_of(map@) =~= new_ids);
                        assert(id == next_id(m, old_ids));
                        assert forall|a: int, b: int|
                            0 <= a < new_ids.len() && 0 <= b < new_ids.len() && a
                                != b implies new_ids[a] != new_ids[b] by {
                            if a < old_ids.len() {
                                assert(old_ids[a] < next_id(m, old_ids));
                            }
                            if b < old_ids.len() {
                                assert(old_ids[b] < next_id(m, old_ids));
                            }
                        }
                        assert forall|k: (Token, Token)| #[trigger]
                            m.contains_key(k) implies !is_special(new_ids, m[k]) && !is_special(
                            new_ids,
                            k.0,
                        ) && !is_special(new_ids, k.1) by {
                            assert(m[k] < next_id(m, old_ids));
                            assert(!is_special(old_ids, m[k]) && !is_special(old_ids, k.0)
                                && !is_special(old_ids, k.1));
                        }
                        assert forall|j: int| 0 <= j < i implies lookup(map@, tokens@[j]@) == Some(
                            #[trigger] ids@[j],
                        ) by {
                            assert(lookup(before, tokens@[j]@) == Some(ids@[j]));
                        }
                    }
                },
            }
            i += 1;
        }
        assert(tokens@.subrange(0, tokens@.len() as int) =~= tokens@);
        self.config.special_tokens_map = Some(map);
        ids
    }

    /// Trains towards the configured vocabulary size on `text` and returns
    /// the training sequence as the learned rules leave it.
    ///
    /// The text is first encoded with the rules at hand, so training goes on
    /// from where an earlier call stopped. Each step learns the most frequent
    /// eligible pair and replaces it in the sequence. A target that is met
    /// already changes no rule. A vocabulary size of zero is refused before
    /// anything is changed. At the end the inverse table is rebuilt.
    pub fn train(&mut self, text: &str) -> (r: Result<Vec<Token>, TokenizerError>)
        requires
            old(self).wf(),
        ensures
            final(self).wf(),
            final(self).config == old(self).config,
            old(self).config.vocab_size == 0 ==> {
                &&& r == Err::<Vec<Token>, TokenizerError>(TokenizerError::InvalidConfiguration)
                &&& final(self).encoder == old(self).encoder
                &&& final(self).decoder == old(self).decoder
            },
            old(self).config.vocab_size > 0 ==> {
                &&& r matches Ok(pieces)
                &&& (final(self).encoder@, pieces@) == train_steps(
                    old(self).encoder@,
                    old(self).config.special_ids(),
                    old(self).encoding(text@),
                    old(self).budget(),
                )
                &&& final(self).decoder is Some
                &&& keeps_rules(old(self).encoder@, final(self).encoder@)
                &&& old(self).size() <= final(self).size() <= old(self).size() + old(self).budget()
                &&& final(self).size() < old(self).size() + old(self).budget() ==> (best_pair(
                    old(self).config.special_ids(),
                    pieces@,
                ) is None || final(self).size() >= u32::MAX)
            },
    {
        if self.config.vocab_size == 0 {
            return Err(TokenizerError::InvalidConfiguration);
        }
        let special = self.config.special_id_list();
        let mut pieces = self.encode(text);
        let size = self.len();
        let steps = if self.config.vocab_size > size {
            self.config.vocab_size - size
        } else {
            0
        };
        let ghost m0 = self.encoder@;
        let ghost s0 = pieces@;
        proof {
            let reg = self.config.registry();
            let bound = next_id(m0, special@);
            let bytes = encode_utf8(self.config.preproc.normalized(text@));
            assert(below(widen(bytes), bound));
            assert(below(ids_of(reg), bound));
            lemma_replace_specials_bound(widen(bytes), reg, bound);
            lemma_merge_all_bound(m0, replace_specials(widen(bytes), reg), bound);
            law_merge_settled(m0, replace_specials(widen(bytes), reg));
            law_train_growth(m0, special@, s0, steps as nat);
        }
        self.decoder = None;
        let mut done: usize = 0;
        while done < steps
            invariant_except_break
                done <= steps,
                train_steps(self.encoder@, special@, pieces@, (steps - done) as nat) == train_steps(
                    m0,
                    special@,
                    s0,
                    steps as nat,
                ),
            invariant
                self.wf(),
                self.decoder is None,
                self.config == old(self).config,
                special@ == self.config.special_ids(),
                below(pieces@, next_id(self.encoder@, special@)),
                settled(self.encoder@, pieces@),
            ensures
                (self.encoder@, pieces@) == train_steps(m0, special@, s0, steps as nat),
            decreases steps - done,
        {
            let total = self.len();
            if total >= u32::MAX as usize {
                break;
            }
            match most_frequent_pair(&special, &pieces) {
                None => {
                    break;
                },
                Some(pair) => {
                    let id: Token = total as Token;
                    proof {
                        lemma_train_step(self.encoder@, special@, pieces@);
                    }
                    pair_insert(&mut self.encoder, pair.0, pair.1, id);
                    let mut pattern: Vec<Token> = Vec::new();
                    pattern.push(pair.0);
                    pattern.push(pair.1);
                    let mut replacement: Vec<Token> = Vec::new();
                    replacement.push(id);
                    assert(pattern@ =~= seq![pair.0, pair.1]);
                    assert(replacement@ =~= seq![id]);
                    ngram_replace(&mut pieces, pattern.as_slice(), replacement.as_slice());
                    done += 1;
                },
            }
        }
        self._sync_decoder();
        Ok(pieces)
    }

    /// The tokens of already normalised bytes: special literals become their
    /// ids, then the rules are applied.
    pub fn _encode_chunk(&self, chunk: &[u8]) -> (tokens: Vec<Token>)
        ensures
            tokens@ == merge_all(
                self.encoder@,
                replace_specials(widen(chunk@), self.config.registry()),
            ),
            tokens@.len() <= chunk@.len(),
    {
        let mut tokens: Vec<Token> = Vec::new();
        let mut i: usize = 0;
        while i < chunk.len()
            invariant
                i <= chunk@.len(),
                tokens@.len() == i,
                forall|j: int| 0 <= j < i ==> tokens@[j] == chunk@[j] as Token,
            decreases chunk@.len() - i,
        {
            tokens.push(chunk[i] as Token);
            i += 1;
        }
        assert(tokens@ =~= widen(chunk@));
        if let Some(map) = self.config.special_tokens_map.as_ref() {
            replace_special_tokens(&mut tokens, map);
        }
        proof {
            lemma_replace_specials_len(widen(chunk@), self.config.registry());
        }
        apply_merges(&self.encoder, tokens)
    }

    /// The bytes behind `tokens`, or nothing where a token is left that is
    /// neither a byte nor known to the rules or the registry. Where no
    /// inverse table is cached, one is built for this call alone.
    pub fn _decode_chunk(&self, tokens: &[Token]) -> (bytes: Option<Vec<u8>>)
        requires
            self.wf(),
        ensures
            ({
                let decoded = decode_tokens(self.encoder@, self.config.registry(), tokens@);
                match bytes {
                    Some(b) => all_bytes(decoded) && b@ == narrow(decoded),
                    None => !all_bytes(decoded),
                }
            }),
    {
        proof {
            lemma_inverse(self.encoder@);
        }
        let owned = slice_to_vec(tokens);
        let mut expanded = match self.decoder.as_ref() {
            Some(decoder) => expand_all(decoder, owned),
            None => {
                let decoder = build_decoder(&self.encoder);
                expand_all(&decoder, owned)
            },
        };
        if let Some(map) = self.config.special_tokens_map.as_ref() {
            inject_special_tokens(&mut expanded, map);
        }
        let ghost decoded = decode_tokens(self.encoder@, self.config.registry(), tokens@);
        assert(expanded@ == decoded);
        let mut bytes: Vec<u8> = Vec::new();
        let mut i: usize = 0;
        while i < expanded.len()
            invariant
                decoded == decode_tokens(self.encoder@, self.config.registry(), tokens@),
                expanded@ == decoded,
                i <= expanded@.len(),
                bytes@.len() == i,
                forall|j: int| 0 <= j < i ==> #[trigger] expanded@[j] < FIRST_ID,
                forall|j: int| 0 <= j < i ==> bytes@[j] == expanded@[j] as u8,
            decreases expanded@.len() - i,
        {
            let t = expanded[i];
            if t >= FIRST_ID {
                assert(!(decoded[i as int] < FIRST_ID));
                return None;
            }
            bytes.push(t as u8);
            i += 1;
        }
        assert(bytes@ =~= narrow(expanded@));
        Some(bytes)
    }
}

impl Tokenizer for BPETokenizer {
    open spec fn ready(&self) -> bool {
        self.wf()
    }

    open spec fn encoding(&self, text: Seq<char>) -> Seq<Token> {
        encode_tokens(self.encoder@, self.config.registry(), self.config.preproc, text)
    }

    open spec fn decoding(&self, ids: Seq<Token>) -> Option<Seq<char>> {
        decode_text(self.encoder@, self.config.registry(), ids)
    }

    fn encode(&self, text: &str) -> (tokens: Vec<Token>)
        ensures
            tokens@.len() <= encode_utf8(text@).len(),
    {
        let mut normal = text.to_owned();
        self.preprocess(&mut normal);
        proof {
            lemma_collapse_shortens(text@, true);
        }
        self._encode_chunk(normal.as_str().as_bytes())
    }

    fn decode(&self, input_ids: &[Token]) -> (text: Result<String, TokenizerError>) {
        match self._decode_chunk(input_ids) {
            None => Err(TokenizerError::InvalidEncoding),
            Some(bytes) => match utf8_to_string(bytes) {
                Some(text) => Ok(text),
                None => Err(TokenizerError::InvalidEncoding),
            },
        }
    }
}

} // verus!
