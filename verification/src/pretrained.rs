//! Taking over a stored vocabulary, and listing one for storing: the part of
//! persistence that is logic. Reading and writing files is left to the caller.
use crate::config::TokenizerConfig;
use crate::error::TokenizerError;
use crate::merge::Rules;
use crate::rules::{
    build_decoder, holds_id, inverse, is_merge_id, is_special, lemma_inverse, next_id,
    registry_wf, rules_wf, Pairs, FIRST_ID,
};
use crate::table::{
    id_entries, id_get, id_insert, pair_entries, pair_get, pair_insert, BkwdMap, FwdMap,
};
use crate::tokenizer::BPETokenizer;
use crate::util::{Token, VocabMap};
use rustc_hash::FxHashMap;
use vstd::prelude::*;
use vstd::seq_lib::{to_multiset_build, group_to_multiset_ensures};

verus! {

/// One stored rule: the learned id, and the pair that it replaces.
pub type Entry = (Token, (Token, Token));

/// The rules that a stored vocabulary stands for: each pair to its id.
pub open spec fn rules_of(v: Seq<Entry>) -> Rules
    decreases v.len(),
{
    if v.len() == 0 {
        Map::empty()
    } else {
        rules_of(v.drop_last()).insert(v.last().1, v.last().0)
    }
}

/// The entries of an inverse table with ids below `upto`, by rising id.
pub open spec fn listing(inv: Pairs, upto: int) -> Seq<Entry>
    decreases upto,
{
    if upto <= FIRST_ID {
        Seq::empty()
    } else if inv.contains_key((upto - 1) as Token) {
        listing(inv, upto - 1).push(((upto - 1) as Token, inv[(upto - 1) as Token]))
    } else {
        listing(inv, upto - 1)
    }
}

/// Whether one stored rule is acceptable beside `total` ids in use and the
/// special ids `special`: its id lies above the bytes, above both halves of
/// its pair and below the next free id, and neither the id nor a half of the
/// pair is a special id.
pub open spec fn entry_ok(special: Seq<Token>, total: nat, e: Entry) -> bool {
    &&& FIRST_ID <= e.0 < FIRST_ID + total
    &&& e.1.0 < e.0
    &&& e.1.1 < e.0
    &&& !is_special(special, e.0)
    &&& !is_special(special, e.1.0)
    &&& !is_special(special, e.1.1)
}

/// Whether a stored vocabulary can be taken over beside the special ids
/// `special`: the ids in use fit, every rule is acceptable, no id and no pair
/// occurs twice, and the special ids lie above the bytes, below the next
/// free id and are distinct.
pub open spec fn vocabulary_ok(special: Seq<Token>, v: Seq<Entry>) -> bool {
    let total = v.len() + special.len();
    &&& FIRST_ID + total <= u32::MAX
    &&& forall|i: int| 0 <= i < v.len() ==> entry_ok(special, total, #[trigger] v[i])
    &&& forall|i: int, j: int|
        0 <= i < j < v.len() ==> (#[trigger] v[i]).0 != (#[trigger] v[j]).0 && v[i].1 != v[j].1
    &&& forall|i: int| 0 <= i < special.len() ==> FIRST_ID <= #[trigger] special[i] < FIRST_ID + total
    &&& special.no_duplicates()
}

/// The rules of the first entries of a vocabulary without repeated pairs:
/// exactly the pairs of those entries, each under its id.
proof fn lemma_rules_of(v: Seq<Entry>)
    requires
        forall|i: int, j: int| 0 <= i < j < v.len() ==> (#[trigger] v[i]).1 != (#[trigger] v[j]).1,
    ensures
        rules_of(v).dom().finite(),
        rules_of(v).dom().len() == v.len(),
        forall|i: int|
            0 <= i < v.len() ==> rules_of(v).contains_key((#[trigger] v[i]).1) && rules_of(v)[v[i].1]
                == v[i].0,
        forall|k: (Token, Token)| #[trigger]
            rules_of(v).contains_key(k) ==> exists|i: int| 0 <= i < v.len() && (#[trigger] v[i]).1 == k,
    decreases v.len(),
{
    if v.len() > 0 {
        let head = v.drop_last();
        let last = v.last();
        assert forall|i: int, j: int| 0 <= i < j < head.len() implies (#[trigger] head[i]).1 != (
        #[trigger] head[j]).1 by {
            assert(head[i] == v[i] && head[j] == v[j]);
        }
        lemma_rules_of(head);
        let m = rules_of(head);
        assert(!m.contains_key(last.1)) by {
            if m.contains_key(last.1) {
                let i = choose|i: int| 0 <= i < head.len() && (#[trigger] head[i]).1 == last.1;
                assert(v[i] == head[i]);
                assert(v[i].1 != v[v.len() - 1].1);
            }
        }
        assert(rules_of(v).dom() =~= m.dom().insert(last.1));
        assert forall|i: int| 0 <= i < v.len() implies rules_of(v).contains_key(
            (#[trigger] v[i]).1,
        ) && rules_of(v)[v[i].1] == v[i].0 by {
            if i < head.len() {
                assert(head[i] == v[i]);
                assert(m.contains_key(head[i].1));
            }
        }
        assert forall|k: (Token, Token)| #[trigger] rules_of(v).contains_key(k) implies exists|
            i: int,
        | 0 <= i < v.len() && (#[trigger] v[i]).1 == k by {
            if k == last.1 {
                assert(v[v.len() - 1].1 == k);
            } else {
                assert(m.contains_key(k));
                let i = choose|i: int| 0 <= i < head.len() && (#[trigger] head[i]).1 == k;
                assert(v[i] == head[i]);
            }
        }
    }
}

/// An acceptable vocabulary stands for well-formed rules beside its special ids.
pub proof fn lemma_vocabulary_ok(special: Seq<Token>, v: Seq<Entry>)
    requires
        vocabulary_ok(special, v),
    ensures
        rules_wf(rules_of(v)),
        registry_wf(rules_of(v), special),
        rules_of(v).dom().len() == v.len(),
{
    lemma_rules_of(v);
    let m = rules_of(v);
    let total = v.len() + special.len();
    assert forall|k: (Token, Token)| #[trigger] m.contains_key(k) implies m[k] >= FIRST_ID && k.0
        < m[k] && k.1 < m[k] && m[k] < next_id(m, special) && !is_special(special, m[k])
        && !is_special(special, k.0) && !is_special(special, k.1) by {
        let i = choose|i: int| 0 <= i < v.len() && (#[trigger] v[i]).1 == k;
        assert(entry_ok(special, total, v[i]));
    }
    assert forall|j: (Token, Token), k: (Token, Token)|
        m.contains_key(j) && m.contains_key(k) && #[trigger] m[j] == #[trigger] m[k] implies j
        == k by {
        let a = choose|i: int| 0 <= i < v.len() && (#[trigger] v[i]).1 == j;
        let b = choose|i: int| 0 <= i < v.len() && (#[trigger] v[i]).1 == k;
        if a < b {
            assert(v[a].0 != v[b].0);
        } else if b < a {
            assert(v[b].0 != v[a].0);
        }
    }
}

/// A listing holds the entries of the table below the bound, each once, by
/// rising id.
proof fn lemma_listing(inv: Pairs, upto: int)
    requires
        upto <= u32::MAX + 1,
    ensures
        listing(inv, upto).len() <= if upto > FIRST_ID {
            upto - FIRST_ID
        } else {
            0
        },
        forall|i: int|
            0 <= i < listing(inv, upto).len() ==> {
                let e = #[trigger] listing(inv, upto)[i];
                FIRST_ID <= e.0 < upto && inv.contains_key(e.0) && e.1 == inv[e.0]
            },
        forall|i: int, j: int|
            0 <= i < j < listing(inv, upto).len() ==> (#[trigger] listing(inv, upto)[i]).0 < (
            #[trigger] listing(inv, upto)[j]).0,
        forall|id: Token|
            FIRST_ID <= id < upto && #[trigger] inv.contains_key(id) ==> listing(
                inv,
                upto,
            ).contains((id, inv[id])),
    decreases upto,
{
    if upto > FIRST_ID {
        lemma_listing(inv, upto - 1);
        let head = listing(inv, upto - 1);
        let last = (upto - 1) as Token;
        let v = listing(inv, upto);
        if inv.contains_key(last) {
            assert(v == head.push((last, inv[last])));
            assert forall|id: Token|
                FIRST_ID <= id < upto && #[trigger] inv.contains_key(id) implies v.contains(
                (id, inv[id]),
            ) by {
                if id == last {
                    assert(v[v.len() - 1] == (id, inv[id]));
                } else {
                    assert(head.contains((id, inv[id])));
                    let i = choose|i: int| 0 <= i < head.len() && head[i] == (id, inv[id]);
                    assert(v[i] == (id, inv[id]));
                }
            }
            assert forall|i: int, j: int| 0 <= i < j < v.len() implies (#[trigger] v[i]).0 < (
            #[trigger] v[j]).0 by {
                assert(v[i] == head[i]);
                if j < head.len() {
                    assert(v[j] == head[j]);
                }
            }
        }
    }
}

/// What is listed of a well-formed vocabulary can be taken over again, and
/// gives the same rules: storing and loading lose nothing.
pub proof fn law_listing_restores(m: Rules, special: Seq<Token>)
    requires
        rules_wf(m),
        registry_wf(m, special),
    ensures
        vocabulary_ok(special, listing(inverse(m), next_id(m, special))),
        rules_of(listing(inverse(m), next_id(m, special))) == m,
{
    let inv = inverse(m);
    let upto = next_id(m, special);
    let v = listing(inv, upto);
    lemma_inverse(m);
    lemma_listing(inv, upto);
    assert forall|i: int, j: int| 0 <= i < j < v.len() implies (#[trigger] v[i]).0 != (
    #[trigger] v[j]).0 && v[i].1 != v[j].1 by {
        assert(v[i].0 < v[j].0);
        assert(m[v[i].1] == v[i].0 && m[v[j].1] == v[j].0);
    }
    lemma_rules_of(v);
    let back = rules_of(v);
    assert forall|k: (Token, Token)| back.contains_key(k) <==> m.contains_key(k) by {
        if back.contains_key(k) {
            let i = choose|i: int| 0 <= i < v.len() && (#[trigger] v[i]).1 == k;
            assert(inv.contains_key(v[i].0));
        }
        if m.contains_key(k) {
            assert(inv.contains_key(m[k]) && inv[m[k]] == k);
            assert(v.contains((m[k], inv[m[k]])));
            let i = choose|i: int| 0 <= i < v.len() && v[i] == (m[k], inv[m[k]]);
            assert(back.contains_key(v[i].1));
        }
    }
    assert forall|k: (Token, Token)| back.contains_key(k) implies back[k] == m[k] by {
        let i = choose|i: int| 0 <= i < v.len() && (#[trigger] v[i]).1 == k;
        assert(back[v[i].1] == v[i].0);
        assert(inv.contains_key(v[i].0));
    }
    assert(back =~= m);
    assert(v.len() == m.dom().len());
    let total = v.len() + special.len();
    assert forall|i: int| 0 <= i < v.len() implies entry_ok(special, total, #[trigger] v[i]) by {
        let e = v[i];
        assert(inv.contains_key(e.0));
        assert(m.contains_key(e.1) && m[e.1] == e.0);
    }
}

/// `s` with the entry `e` put in behind the last entry whose id is not
/// above its own.
pub open spec fn insert_by_id(s: Seq<(String, Token)>, e: (String, Token)) -> Seq<(String, Token)>
    decreases s.len(),
{
    if s.len() == 0 {
        seq![e]
    } else if s.last().1 <= e.1 {
        s.push(e)
    } else {
        insert_by_id(s.drop_last(), e).push(s.last())
    }
}

/// The entries of `s` by rising id; entries of one id stay in their order.
pub open spec fn by_id(s: Seq<(String, Token)>) -> Seq<(String, Token)>
    decreases s.len(),
{
    if s.len() == 0 {
        Seq::empty()
    } else {
        insert_by_id(by_id(s.drop_last()), s.last())
    }
}

/// Whether the ids of `s` never fall from one entry to the next.
pub open spec fn rising(s: Seq<(String, Token)>) -> bool {
    forall|i: int, j: int| 0 <= i < j < s.len() ==> (#[trigger] s[i]).1 <= (#[trigger] s[j]).1
}

/// Putting an entry in at the place that its id asks for is what
/// `insert_by_id` does.
proof fn lemma_insert_at(s: Seq<(String, Token)>, e: (String, Token), at: int)
    requires
        0 <= at <= s.len(),
        forall|j: int| at <= j < s.len() ==> (#[trigger] s[j]).1 > e.1,
        at > 0 ==> s[at - 1].1 <= e.1,
    ensures
        insert_by_id(s, e) == s.insert(at, e),
    decreases s.len() - at,
{
    if s.len() == 0 {
        assert(s.insert(at, e) =~= seq![e]);
    } else if at == s.len() {
        assert(s.insert(at, e) =~= s.push(e));
    } else {
        assert(s[s.len() - 1].1 > e.1);
        let head = s.drop_last();
        assert forall|j: int| at <= j < head.len() implies (#[trigger] head[j]).1 > e.1 by {
            assert(head[j] == s[j]);
        }
        if at > 0 {
            assert(head[at - 1] == s[at - 1]);
        }
        lemma_insert_at(head, e, at);
        assert(head.insert(at, e).push(s.last()) =~= s.insert(at, e));
    }
}

/// Putting an entry in keeps a rising sequence rising, and adds the entry to
/// what the sequence holds and nothing else.
proof fn lemma_insert_by_id(s: Seq<(String, Token)>, e: (String, Token))
    requires
        rising(s),
    ensures
        rising(insert_by_id(s, e)),
        insert_by_id(s, e).to_multiset() == s.to_multiset().insert(e),
    decreases s.len(),
{
    broadcast use group_to_multiset_ensures;

    if s.len() == 0 {
        assert(seq![e] =~= s.push(e));
        to_multiset_build(s, e);
    } else if s.last().1 <= e.1 {
        to_multiset_build(s, e);
        assert forall|i: int, j: int| 0 <= i < j < s.push(e).len() implies (#[trigger] s.push(
            e,
        )[i]).1 <= (#[trigger] s.push(e)[j]).1 by {
            if j == s.len() {
                if i < s.len() - 1 {
                    assert(s[i].1 <= s[s.len() - 1].1);
                }
            } else {
                assert(s[i].1 <= s[j].1);
            }
        }
    } else {
        let head = s.drop_last();
        let last = s.last();
        assert forall|i: int, j: int| 0 <= i < j < head.len() implies (#[trigger] head[i]).1 <= (
        #[trigger] head[j]).1 by {
            assert(s[i].1 <= s[j].1);
        }
        lemma_insert_by_id(head, e);
        let t = insert_by_id(head, e);
        to_multiset_build(t, last);
        to_multiset_build(head, last);
        assert(head.push(last) =~= s);
        assert(t.push(last).to_multiset() =~= s.to_multiset().insert(e));
        assert forall|i: int, j: int| 0 <= i < j < t.push(last).len() implies (#[trigger] t.push(
            last,
        )[i]).1 <= (#[trigger] t.push(last)[j]).1 by {
            if j == t.len() {
                let x = t[i];
                assert(t.contains(x));
                assert(t.to_multiset().count(x) > 0);
                if x != e {
                    assert(head.to_multiset().count(x) > 0);
                    assert(head.contains(x));
                    let a = choose|a: int| 0 <= a < head.len() && head[a] == x;
                    assert(s[a].1 <= s[s.len() - 1].1);
                }
            } else {
                assert(t[i].1 <= t[j].1);
            }
        }
    }
}

/// Ordering by id gives a rising sequence that holds what was given, each
/// entry as often as before.
pub proof fn law_by_id(s: Seq<(String, Token)>)
    ensures
        rising(by_id(s)),
        by_id(s).to_multiset() == s.to_multiset(),
    decreases s.len(),
{
    broadcast use group_to_multiset_ensures;

    if s.len() > 0 {
        law_by_id(s.drop_last());
        lemma_insert_by_id(by_id(s.drop_last()), s.last());
        to_multiset_build(s.drop_last(), s.last());
        assert(s.drop_last().push(s.last()) =~= s);
    } else {
        assert(by_id(s) =~= s);
    }
}

/// The registry entries by rising id, as a tokenizer keeps them: the order
/// to restore where entries come from a store that keeps none.
pub fn registry_by_id(entries: &Vec<(String, Token)>) -> (sorted: VocabMap)
    ensures
        sorted@ == by_id(entries@),
        rising(sorted@),
        sorted@.to_multiset() == entries@.to_multiset(),
{
    let mut sorted: VocabMap = Vec::new();
    let mut i: usize = 0;
    assert(entries@.subrange(0, 0) =~= Seq::<(String, Token)>::empty());
    while i < entries.len()
        invariant
            i <= entries@.len(),
            sorted@ == by_id(entries@.subrange(0, i as int)),
            sorted@.len() == i,
        decreases entries@.len() - i,
    {
        let ghost done = entries@.subrange(0, i as int);
        let ghost next = entries@.subrange(0, i + 1);
        assert(next.drop_last() =~= done);
        assert(next.last() == entries@[i as int]);
        let id = entries[i].1;
        let mut at: usize = sorted.len();
        while at > 0 && sorted[at - 1].1 > id
            invariant
                at <= sorted@.len(),
                forall|j: int| at <= j < sorted@.len() ==> (#[trigger] sorted@[j]).1 > id,
            decreases at,
        {
            at -= 1;
        }
        let entry = (entries[i].0.clone(), id);
        assert(entry == entries@[i as int]);
        proof {
            lemma_insert_at(sorted@, entry, at as int);
        }
        sorted.insert(at, entry);
        i += 1;
    }
    proof {
        assert(entries@.subrange(0, entries@.len() as int) =~= entries@);
        law_by_id(entries@);
    }
    sorted
}

/// Well-formed rules and special ids make an acceptable vocabulary of any
/// list that holds each rule once.
proof fn lemma_wf_vocabulary(special: Seq<Token>, v: Seq<Entry>)
    requires
        forall|i: int, j: int| 0 <= i < j < v.len() ==> (#[trigger] v[i]).1 != (#[trigger] v[j]).1,
        rules_wf(rules_of(v)),
        registry_wf(rules_of(v), special),
    ensures
        vocabulary_ok(special, v),
{
    lemma_rules_of(v);
    let m = rules_of(v);
    let total = v.len() + special.len();
    assert(next_id(m, special) == FIRST_ID + total);
    assert forall|i: int| 0 <= i < v.len() implies entry_ok(special, total, #[trigger] v[i]) by {
        assert(m.contains_key(v[i].1) && m[v[i].1] == v[i].0);
    }
    assert forall|i: int, j: int| 0 <= i < j < v.len() implies (#[trigger] v[i]).0 != (
    #[trigger] v[j]).0 && v[i].1 != v[j].1 by {
        assert(m.contains_key(v[i].1) && m[v[i].1] == v[i].0);
        assert(m.contains_key(v[j].1) && m[v[j].1] == v[j].0);
    }
}

/// Whether two inverse tables hold the same entries.
fn same_entries(one: &BkwdMap, other: &BkwdMap) -> (r: bool)
    ensures
        r == (one@ == other@),
{
    let left = id_entries(one);
    let mut i: usize = 0;
    while i < left.len()
        invariant
            i <= left@.len(),
            forall|e: (Token, Token, Token)|
                left@.contains(e) <==> (one@.contains_key(e.0) && one@[e.0] == (e.1, e.2)),
            forall|j: int|
                0 <= j < i ==> other@.contains_key((#[trigger] left@[j]).0) && other@[left@[j].0]
                    == (left@[j].1, left@[j].2),
        decreases left@.len() - i,
    {
        let e = left[i];
        assert(left@.contains(e));
        match id_get(other, e.0) {
            Some(pair) => {
                if pair.0 != e.1 || pair.1 != e.2 {
                    assert(one@[e.0] != other@[e.0]);
                    return false;
                }
            },
            None => {
                assert(one@.contains_key(e.0) && !other@.contains_key(e.0));
                return false;
            },
        }
        i += 1;
    }
    let right = id_entries(other);
    let mut k: usize = 0;
    while k < right.len()
        invariant
            k <= right@.len(),
            forall|e: (Token, Token, Token)|
                right@.contains(e) <==> (other@.contains_key(e.0) && other@[e.0] == (e.1, e.2)),
            forall|j: int| 0 <= j < k ==> one@.contains_key((#[trigger] right@[j]).0),
        decreases right@.len() - k,
    {
        let e = right[k];
        assert(right@.contains(e));
        if id_get(one, e.0).is_none() {
            assert(other@.contains_key(e.0) && !one@.contains_key(e.0));
            return false;
        }
        k += 1;
    }
    proof {
        assert forall|id: Token| one@.contains_key(id) <==> other@.contains_key(id) by {
            if one@.contains_key(id) {
                let e = (id, one@[id].0, one@[id].1);
                assert(left@.contains(e));
                let j = choose|j: int| 0 <= j < left@.len() && left@[j] == e;
                assert(other@.contains_key(left@[j].0));
            }
            if other@.contains_key(id) {
                let e = (id, other@[id].0, other@[id].1);
                assert(right@.contains(e));
                let j = choose|j: int| 0 <= j < right@.len() && right@[j] == e;
                assert(one@.contains_key(right@[j].0));
            }
        }
        assert forall|id: Token| one@.contains_key(id) implies one@[id] == other@[id] by {
            let e = (id, one@[id].0, one@[id].1);
            assert(left@.contains(e));
            let j = choose|j: int| 0 <= j < left@.len() && left@[j] == e;
            assert(other@[left@[j].0] == (left@[j].1, left@[j].2));
        }
        assert(one@ =~= other@);
    }
    true
}

/// Whether `ids` are acceptable special ids beside `total` ids in use.
fn special_ids_fit(ids: &Vec<Token>, total: usize) -> (r: bool)
    requires
        FIRST_ID + total <= u32::MAX,
    ensures
        r == ((forall|i: int| 0 <= i < ids@.len() ==> FIRST_ID <= #[trigger] ids@[i] < FIRST_ID + total)
            && ids@.no_duplicates()),
{
    let mut i: usize = 0;
    while i < ids.len()
        invariant
            i <= ids@.len(),
            FIRST_ID + total <= u32::MAX,
            forall|a: int| 0 <= a < i ==> FIRST_ID <= #[trigger] ids@[a] < FIRST_ID + total,
            forall|a: int, b: int| 0 <= a < b < i ==> ids@[a] != ids@[b],
        decreases ids@.len() - i,
    {
        let id = ids[i];
        if id < FIRST_ID || (id - FIRST_ID) as usize >= total {
            assert(!(FIRST_ID <= ids@[i as int] < FIRST_ID + total));
            return false;
        }
        let mut j: usize = 0;
        while j < i
            invariant
                j <= i,
                i < ids@.len(),
                id == ids@[i as int],
                forall|a: int| 0 <= a < j ==> ids@[a] != id,
            decreases i - j,
        {
            if ids[j] == id {
                assert(ids@[j as int] == ids@[i as int]);
                return false;
            }
            j += 1;
        }
        i += 1;
    }
    true
}

/// The rules and the inverse table that a stored vocabulary stands for,
/// where it is acceptable beside the special ids `special`; nothing where it
/// is not.
pub fn build_tables(special: &Vec<Token>, vocabulary: &Vec<Entry>) -> (r: Option<
    (FwdMap, BkwdMap),
>)
    ensures
        vocabulary_ok(special@, vocabulary@) ==> (r matches Some(tables) && tables.0@ == rules_of(
            vocabulary@,
        ) && tables.1@ == inverse(tables.0@) && rules_wf(tables.0@) && registry_wf(
            tables.0@,
            special@,
        )),
        !vocabulary_ok(special@, vocabulary@) ==> r is None,
{
    let ghost v = vocabulary@;
    let n = vocabulary.len();
    let room = (u32::MAX - FIRST_ID) as usize;
    if n > room || special.len() > room - n {
        return None;
    }
    let total = n + special.len();
    if !special_ids_fit(&special, total) {
        return None;
    }
    let mut encoder: FwdMap = FxHashMap::default();
    let mut decoder: BkwdMap = FxHashMap::default();
    let mut i: usize = 0;
    assert(v.subrange(0, 0) =~= Seq::<Entry>::empty());
    while i < n
        invariant
            i <= n,
            n == v.len(),
            v == vocabulary@,
            total == n + special@.len(),
            FIRST_ID + total <= u32::MAX,
            encoder@ == rules_of(v.subrange(0, i as int)),
            forall|a: int| 0 <= a < i ==> entry_ok(special@, total as nat, #[trigger] v[a]),
            forall|a: int, b: int|
                0 <= a < b < i ==> (#[trigger] v[a]).0 != (#[trigger] v[b]).0 && v[a].1
                    != v[b].1,
            forall|k: (Token, Token)| #[trigger]
                encoder@.contains_key(k) <==> exists|a: int|
                    0 <= a < i && (#[trigger] v[a]).1 == k,
            forall|id: Token| #[trigger]
                decoder@.contains_key(id) <==> exists|a: int|
                    0 <= a < i && (#[trigger] v[a]).0 == id,
            forall|a: int| 0 <= a < i ==> decoder@[(#[trigger] v[a]).0] == v[a].1,
        decreases n - i,
    {
        let e = vocabulary[i];
        let id = e.0;
        let left = e.1.0;
        let right = e.1.1;
        let fits = id >= FIRST_ID && ((id - FIRST_ID) as usize) < total && left < id && right
            < id && !holds_id(&special, id) && !holds_id(&special, left) && !holds_id(&special, right);
        if !fits {
            assert(!entry_ok(special@, total as nat, v[i as int]));
            return None;
        }
        if pair_get(&encoder, left, right).is_some() {
            proof {
                let a = choose|a: int| 0 <= a < i && (#[trigger] v[a]).1 == e.1;
                assert(v[a].1 == v[i as int].1);
            }
            return None;
        }
        if id_get(&decoder, id).is_some() {
            proof {
                let a = choose|a: int| 0 <= a < i && (#[trigger] v[a]).0 == id;
                assert(v[a].0 == v[i as int].0);
            }
            return None;
        }
        let ghost enc_before = encoder@;
        let ghost dec_before = decoder@;
        pair_insert(&mut encoder, left, right, id);
        id_insert(&mut decoder, id, (left, right));
        proof {
            let done = v.subrange(0, i as int);
            let next = v.subrange(0, i + 1);
            assert(next.drop_last() =~= done);
            assert(next.last() == v[i as int]);
            assert forall|a: int, b: int| 0 <= a < b < i + 1 implies (#[trigger] v[a]).0 != (
            #[trigger] v[b]).0 && v[a].1 != v[b].1 by {
                if b == i {
                    if v[a].0 == v[b].0 {
                        assert(dec_before.contains_key(id));
                    }
                    if v[a].1 == v[b].1 {
                        assert(enc_before.contains_key(e.1));
                    }
                }
            }
            assert forall|k: (Token, Token)| #[trigger]
                encoder@.contains_key(k) <==> exists|a: int|
                    0 <= a < i + 1 && (#[trigger] v[a]).1 == k by {
                if encoder@.contains_key(k) {
                    if k == e.1 {
                        assert(v[i as int].1 == k);
                    } else {
                        assert(enc_before.contains_key(k));
                        let a = choose|a: int| 0 <= a < i && (#[trigger] v[a]).1 == k;
                        assert(0 <= a < i + 1 && v[a].1 == k);
                    }
                }
                if exists|a: int| 0 <= a < i + 1 && (#[trigger] v[a]).1 == k {
                    let a = choose|a: int| 0 <= a < i + 1 && (#[trigger] v[a]).1 == k;
                    if a < i {
                        assert(enc_before.contains_key(k));
                    }
                }
            }
            assert forall|x: Token| #[trigger]
                decoder@.contains_key(x) <==> exists|a: int|
                    0 <= a < i + 1 && (#[trigger] v[a]).0 == x by {
                if decoder@.contains_key(x) {
                    if x == id {
                        assert(v[i as int].0 == x);
                    } else {
                        assert(dec_before.contains_key(x));
                        let a = choose|a: int| 0 <= a < i && (#[trigger] v[a]).0 == x;
                        assert(0 <= a < i + 1 && v[a].0 == x);
                    }
                }
                if exists|a: int| 0 <= a < i + 1 && (#[trigger] v[a]).0 == x {
                    let a = choose|a: int| 0 <= a < i + 1 && (#[trigger] v[a]).0 == x;
                    if a < i {
                        assert(dec_before.contains_key(x));
                    }
                }
            }
            assert forall|a: int| 0 <= a < i + 1 implies decoder@[(#[trigger] v[a]).0]
                == v[a].1 by {
                if a < i {
                    if v[a].0 == id {
                        assert(dec_before.contains_key(id));
                    }
                }
            }
        }
        i += 1;
    }
    proof {
        assert(v.subrange(0, n as int) =~= v);
        assert(vocabulary_ok(special@, v));
        lemma_vocabulary_ok(special@, v);
        lemma_rules_of(v);
        lemma_inverse(encoder@);
        let inv = inverse(encoder@);
        assert forall|id: Token| decoder@.contains_key(id) <==> inv.contains_key(id) by {
            if decoder@.contains_key(id) {
                let a = choose|a: int| 0 <= a < n && (#[trigger] v[a]).0 == id;
                assert(encoder@.contains_key(v[a].1) && encoder@[v[a].1] == id);
                assert(is_merge_id(encoder@, id));
            }
            if inv.contains_key(id) {
                let k = inv[id];
                let a = choose|a: int| 0 <= a < n && (#[trigger] v[a]).1 == k;
                assert(encoder@[v[a].1] == v[a].0);
            }
        }
        assert forall|id: Token| decoder@.contains_key(id) implies decoder@[id] == inv[id] by {
            let a = choose|a: int| 0 <= a < n && (#[trigger] v[a]).0 == id;
            assert(encoder@.contains_key(v[a].1) && encoder@[v[a].1] == id);
        }
        assert(decoder@ =~= inv);
    }
    Some((encoder, decoder))
}

impl TokenizerConfig {
    /// Whether a tokenizer without any rule can start from this
    /// configuration: the test to make before `BPETokenizer::new` wherever
    /// the special tokens were set by hand.
    pub fn is_wf(&self) -> (r: bool)
        ensures
            r == self.wf(),
    {
        let special = self.special_id_list();
        let none: Vec<Entry> = Vec::new();
        proof {
            assert(rules_of(none@) =~= Map::<(Token, Token), Token>::empty());
            if self.wf() {
                lemma_wf_vocabulary(special@, none@);
            }
            if vocabulary_ok(special@, none@) {
                lemma_vocabulary_ok(special@, none@);
            }
        }
        build_tables(&special, &none).is_some()
    }
}

impl BPETokenizer {
    /// Whether the tokenizer is well formed: the test to make before a call
    /// that asks for it, wherever a field was set by hand.
    pub fn is_wf(&self) -> (r: bool)
        ensures
            r == self.wf(),
    {
        let special = self.config.special_id_list();
        let rules = pair_entries(&self.encoder);
        let mut listed: Vec<Entry> = Vec::new();
        let mut i: usize = 0;
        while i < rules.len()
            invariant
                i <= rules@.len(),
                listed@.len() == i,
                forall|j: int|
                    0 <= j < i ==> #[trigger] listed@[j] == (rules@[j].2, (rules@[j].0, rules@[j].1)),
            decreases rules@.len() - i,
        {
            let e = rules[i];
            listed.push((e.2, (e.0, e.1)));
            i += 1;
        }
        let ghost m = self.encoder@;
        let ghost v = listed@;
        proof {
            assert forall|a: int, b: int| 0 <= a < b < v.len() implies (#[trigger] v[a]).1 != (
            #[trigger] v[b]).1 by {
                assert(rules@.contains(rules@[a]) && rules@.contains(rules@[b]));
                if v[a].1 == v[b].1 {
                    assert(rules@[a] == rules@[b]);
                }
            }
            lemma_rules_of(v);
            let back = rules_of(v);
            assert forall|k: (Token, Token)| back.contains_key(k) <==> m.contains_key(k) by {
                if back.contains_key(k) {
                    let a = choose|a: int| 0 <= a < v.len() && (#[trigger] v[a]).1 == k;
                    assert(rules@.contains(rules@[a]));
                }
                if m.contains_key(k) {
                    let e = (k.0, k.1, m[k]);
                    assert(rules@.contains(e));
                    let a = choose|a: int| 0 <= a < rules@.len() && rules@[a] == e;
                    assert(v[a].1 == k);
                    assert(back.contains_key(v[a].1));
                }
            }
            assert forall|k: (Token, Token)| back.contains_key(k) implies back[k] == m[k] by {
                let a = choose|a: int| 0 <= a < v.len() && (#[trigger] v[a]).1 == k;
                assert(rules@.contains(rules@[a]));
                assert(back[v[a].1] == v[a].0);
            }
            assert(back =~= m);
            if rules_wf(m) && registry_wf(m, special@) {
                lemma_wf_vocabulary(special@, v);
            }
        }
        match build_tables(&special, &listed) {
            None => false,
            Some(tables) => match self.decoder.as_ref() {
                None => true,
                Some(cached) => same_entries(cached, &tables.1),
            },
        }
    }

    /// The learned rules as they are stored: each learned id with the pair
    /// that it replaces, by rising id.
    pub fn vocabulary(&self) -> (entries: Vec<Entry>)
        requires
            self.wf(),
        ensures
            entries@ == listing(
                inverse(self.encoder@),
                next_id(self.encoder@, self.config.special_ids()),
            ),
    {
        let built: BkwdMap;
        let decoder = match self.decoder.as_ref() {
            Some(decoder) => decoder,
            None => {
                built = build_decoder(&self.encoder);
                &built
            },
        };
        let total = self.len();
        let mut entries: Vec<Entry> = Vec::new();
        let mut id: Token = FIRST_ID;
        while (id as usize) < total
            invariant
                FIRST_ID <= id <= total <= u32::MAX,
                entries@ == listing(decoder@, id as int),
            decreases total - id,
        {
            if let Some(pair) = id_get(decoder, id) {
                entries.push((id, pair));
            }
            id += 1;
        }
        entries
    }

    /// A tokenizer with the stored rules `vocabulary` and the configuration
    /// `config`, as loading a vocabulary from storage leaves it. A vocabulary
    /// that is not acceptable beside the special tokens of `config` is
    /// refused, and nothing is built.
    pub fn from_vocabulary(config: TokenizerConfig, vocabulary: Vec<Entry>) -> (r: Result<
        BPETokenizer,
        TokenizerError,
    >)
        ensures
            vocabulary_ok(config.special_ids(), vocabulary@) ==> (r matches Ok(tok) && tok.wf()
                && tok.config == config && tok.encoder@ == rules_of(vocabulary@) && tok.decoder
                is Some),
            !vocabulary_ok(config.special_ids(), vocabulary@) ==> r == Err::<
                BPETokenizer,
                TokenizerError,
            >(TokenizerError::PersistenceFailure),
    {
        let special = config.special_id_list();
        match build_tables(&special, &vocabulary) {
            Some(tables) => Ok(
                BPETokenizer { encoder: tables.0, decoder: Some(tables.1), config },
            ),
            None => Err(TokenizerError::PersistenceFailure),
        }
    }
}


} // verus!
