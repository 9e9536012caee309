//! What a well-formed vocabulary is: the merge rules, the special-token
//! registry beside them, and the inverse table derived from the rules.
use crate::merge::Rules;
use crate::table::{id_insert, pair_entries, BkwdMap, FwdMap};
use crate::util::Token;
use rustc_hash::FxHashMap;
use vstd::prelude::*;

verus! {

/// The first id above the raw bytes. Learned and special ids start here.
pub const FIRST_ID: Token = 256;

/// The inverse table as a mathematical map from a learned id to its pair.
pub type Pairs = Map<Token, (Token, Token)>;

/// Whether `id` is one of the special ids `special`.
pub open spec fn is_special(special: Seq<Token>, id: Token) -> bool {
    special.contains(id)
}

/// Whether `id` is among `special`.
pub fn holds_id(special: &Vec<Token>, id: Token) -> (r: bool)
    ensures
        r == is_special(special@, id),
{
    let mut i: usize = 0;
    while i < special.len()
        invariant
            i <= special@.len(),
            forall|j: int| 0 <= j < i ==> special@[j] != id,
        decreases special@.len() - i,
    {
        if special[i] == id {
            return true;
        }
        i += 1;
    }
    false
}

/// Whether `id` is the replacement of some rule.
pub open spec fn is_merge_id(m: Rules, id: Token) -> bool {
    exists|k: (Token, Token)| m.contains_key(k) && #[trigger] m[k] == id
}

/// The id that the next rule or special token receives: ids are handed out
/// in sequence, from one counter for both kinds. It is also the size of the
/// vocabulary: the 256 bytes, the rules and the special tokens.
pub open spec fn next_id(m: Rules, special: Seq<Token>) -> int {
    FIRST_ID + m.dom().len() + special.len()
}

/// The rules are well formed: finitely many, each replacing its pair by an
/// id above the bytes and above both halves of the pair, no id used twice.
pub open spec fn rules_wf(m: Rules) -> bool {
    &&& m.dom().finite()
    &&& forall|k: (Token, Token)| #[trigger]
        m.contains_key(k) ==> m[k] >= FIRST_ID && k.0 < m[k] && k.1 < m[k]
    &&& forall|j: (Token, Token), k: (Token, Token)|
        m.contains_key(j) && m.contains_key(k) && #[trigger] m[j] == #[trigger] m[k] ==> j == k
}

/// The special ids are well formed beside the rules `m`: every id lies above
/// the bytes and below the next free id, no id is used twice, none is the
/// replacement of a rule, and no rule merges a special token.
pub open spec fn registry_wf(m: Rules, special: Seq<Token>) -> bool {
    &&& next_id(m, special) <= u32::MAX
    &&& forall|i: int|
        0 <= i < special.len() ==> FIRST_ID <= #[trigger] special[i] < next_id(m, special)
    &&& special.no_duplicates()
    &&& forall|k: (Token, Token)| #[trigger]
        m.contains_key(k) ==> {
            &&& m[k] < next_id(m, special)
            &&& !is_special(special, m[k])
            &&& !is_special(special, k.0)
            &&& !is_special(special, k.1)
        }
}

/// Learning a new pair under the next free id keeps rules and special ids
/// well formed, and moves the next free id up by one.
pub proof fn lemma_learn(m: Rules, special: Seq<Token>, p: (Token, Token))
    requires
        rules_wf(m),
        registry_wf(m, special),
        next_id(m, special) < u32::MAX,
        !m.contains_key(p),
        p.0 < next_id(m, special),
        p.1 < next_id(m, special),
        !is_special(special, p.0),
        !is_special(special, p.1),
    ensures
        rules_wf(m.insert(p, next_id(m, special) as Token)),
        registry_wf(m.insert(p, next_id(m, special) as Token), special),
        next_id(m.insert(p, next_id(m, special) as Token), special) == next_id(m, special) + 1,
{
    let id = next_id(m, special) as Token;
    let m2 = m.insert(p, id);
    assert(m2.dom() =~= m.dom().insert(p));
    assert forall|k: (Token, Token)| #[trigger] m2.contains_key(k) implies m2[k] >= FIRST_ID
        && k.0 < m2[k] && k.1 < m2[k] by {
        if k != p {
            assert(m.contains_key(k));
        }
    }
    assert forall|j: (Token, Token), k: (Token, Token)|
        m2.contains_key(j) && m2.contains_key(k) && #[trigger] m2[j] == #[trigger] m2[k] implies j
        == k by {
        if j != p {
            assert(m.contains_key(j));
        }
        if k != p {
            assert(m.contains_key(k));
        }
    }
    assert forall|k: (Token, Token)| #[trigger] m2.contains_key(k) implies m2[k] < next_id(
        m2,
        special,
    ) && !is_special(special, m2[k]) && !is_special(special, k.0) && !is_special(special, k.1) by {
        if k != p {
            assert(m.contains_key(k));
        } else {
            if is_special(special, id) {
                let i = choose|i: int| 0 <= i < special.len() && special[i] == id;
                assert(special[i] < next_id(m, special));
            }
        }
    }
}

/// Whether `later` holds every rule of `earlier`, under the same id.
pub open spec fn keeps_rules(earlier: Rules, later: Rules) -> bool {
    forall|k: (Token, Token)| #[trigger]
        earlier.contains_key(k) ==> later.contains_key(k) && later[k] == earlier[k]
}

/// The inverse of the rules: each replacement id to the pair it replaces.
pub open spec fn inverse(m: Rules) -> Pairs {
    Map::new(
        |id: Token| is_merge_id(m, id),
        |id: Token| choose|k: (Token, Token)| m.contains_key(k) && #[trigger] m[k] == id,
    )
}

/// Every entry of an inverse table points below its own id.
pub open spec fn pairs_wf(inv: Pairs) -> bool {
    forall|id: Token| #[trigger] inv.contains_key(id) ==> inv[id].0 < id && inv[id].1 < id
}

/// The inverse of well-formed rules sends each replacement back to its pair.
pub proof fn lemma_inverse(m: Rules)
    requires
        rules_wf(m),
    ensures
        pairs_wf(inverse(m)),
        forall|k: (Token, Token)| #[trigger]
            m.contains_key(k) ==> inverse(m).contains_key(m[k]) && inverse(m)[m[k]] == k,
        forall|id: Token| #[trigger]
            inverse(m).contains_key(id) ==> id >= FIRST_ID && m.contains_key(inverse(m)[id])
                && m[inverse(m)[id]] == id,
{
    let inv = inverse(m);
    assert forall|k: (Token, Token)| #[trigger] m.contains_key(k) implies inv.contains_key(m[k])
        && inv[m[k]] == k by {
        assert(is_merge_id(m, m[k]));
    }
    assert forall|id: Token| #[trigger] inv.contains_key(id) implies id >= FIRST_ID
        && m.contains_key(inv[id]) && m[inv[id]] == id && inv[id].0 < id && inv[id].1 < id by {
        assert(is_merge_id(m, id));
    }
}

/// Builds the inverse table from the merge rules, in full.
pub fn build_decoder(encoder: &FwdMap) -> (decoder: BkwdMap)
    requires
        rules_wf(encoder@),
    ensures
        decoder@ == inverse(encoder@),
{
    let entries = pair_entries(encoder);
    let mut decoder: BkwdMap = FxHashMap::default();
    let mut i: usize = 0;
    while i < entries.len()
        invariant
            i <= entries@.len(),
            rules_wf(encoder@),
            forall|e: (Token, Token, Token)|
                entries@.contains(e) <==> (encoder@.contains_key((e.0, e.1)) && encoder@[(
                    e.0,
                    e.1,
                )] == e.2),
            forall|id: Token| #[trigger]
                decoder@.contains_key(id) <==> exists|j: int|
                    0 <= j < i && #[trigger] entries@[j].2 == id,
            forall|j: int|
                0 <= j < i ==> decoder@[#[trigger] entries@[j].2] == (entries@[j].0, entries@[j].1),
        decreases entries@.len() - i,
    {
        let e = entries[i];
        let ghost before = decoder@;
        id_insert(&mut decoder, e.2, (e.0, e.1));
        proof {
            assert(entries@.contains(e));
            assert forall|j: int| 0 <= j < i + 1 implies decoder@[#[trigger] entries@[j].2] == (
                entries@[j].0,
                entries@[j].1,
            ) by {
                if j < i {
                    assert(entries@.contains(entries@[j]));
                    if entries@[j].2 == e.2 {
                        assert(encoder@[(entries@[j].0, entries@[j].1)] == encoder@[(e.0, e.1)]);
                    }
                }
            }
            assert forall|id: Token| #[trigger]
                decoder@.contains_key(id) <==> exists|j: int|
                    0 <= j < i + 1 && #[trigger] entries@[j].2 == id by {
                if decoder@.contains_key(id) {
                    if id == e.2 {
                        assert(entries@[i as int].2 == id);
                    } else {
                        assert(before.contains_key(id));
                        let j = choose|j: int| 0 <= j < i && #[trigger] entries@[j].2 == id;
                        assert(0 <= j < i + 1 && entries@[j].2 == id);
                    }
                }
                if exists|j: int| 0 <= j < i + 1 && #[trigger] entries@[j].2 == id {
                    let j = choose|j: int| 0 <= j < i + 1 && #[trigger] entries@[j].2 == id;
                    if j < i {
                        assert(before.contains_key(id));
                    }
                }
            }
        }
        i += 1;
    }
    proof {
        lemma_inverse(encoder@);
        let inv = inverse(encoder@);
        assert forall|id: Token| decoder@.contains_key(id) <==> inv.contains_key(id) by {
            if decoder@.contains_key(id) {
                let j = choose|j: int| 0 <= j < i && #[trigger] entries@[j].2 == id;
                assert(entries@.contains(entries@[j]));
                assert(encoder@.contains_key((entries@[j].0, entries@[j].1)));
                assert(is_merge_id(encoder@, id));
            }
            if inv.contains_key(id) {
                let k = inv[id];
                let e = (k.0, k.1, id);
                assert(encoder@.contains_key((e.0, e.1)) && encoder@[(e.0, e.1)] == e.2);
                assert(entries@.contains(e));
                let j = choose|j: int| 0 <= j < entries@.len() && entries@[j] == e;
                assert(entries@[j].2 == id);
            }
        }
        assert forall|id: Token| decoder@.contains_key(id) implies decoder@[id] == inv[id] by {
            let j = choose|j: int| 0 <= j < i && #[trigger] entries@[j].2 == id;
            assert(entries@.contains(entries@[j]));
            assert(encoder@[(entries@[j].0, entries@[j].1)] == id);
        }
        assert(decoder@ =~= inv);
    }
    decoder
}

} // verus!
