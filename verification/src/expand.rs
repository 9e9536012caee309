//! Undoing merges: expanding learned ids back into the ids they replaced.
use crate::rules::{pairs_wf, Pairs};
use crate::table::{id_get, BkwdMap};
use crate::util::Token;
use vstd::prelude::*;

verus! {

/// What a single id stands for once every learned id in it has been expanded.
pub open spec fn expand(inv: Pairs, t: Token) -> Seq<Token>
    decreases t,
{
    if inv.contains_key(t) && inv[t].0 < t && inv[t].1 < t {
        expand(inv, inv[t].0) + expand(inv, inv[t].1)
    } else {
        seq![t]
    }
}

/// The full expansion of a sequence: the expansions of its ids, in order.
pub open spec fn expand_seq(inv: Pairs, s: Seq<Token>) -> Seq<Token>
    decreases s.len(),
{
    if s.len() == 0 {
        Seq::empty()
    } else {
        expand_seq(inv, s.drop_last()) + expand(inv, s.last())
    }
}

/// One pass of expansion: every id with an entry becomes its pair.
pub open spec fn unfold_once(inv: Pairs, s: Seq<Token>) -> Seq<Token>
    decreases s.len(),
{
    if s.len() == 0 {
        Seq::empty()
    } else if inv.contains_key(s.last()) {
        unfold_once(inv, s.drop_last()).push(inv[s.last()].0).push(inv[s.last()].1)
    } else {
        unfold_once(inv, s.drop_last()).push(s.last())
    }
}

/// Whether some id of `s` has an entry in the inverse table.
pub open spec fn expandable(inv: Pairs, s: Seq<Token>) -> bool {
    exists|i: int| 0 <= i < s.len() && inv.contains_key(#[trigger] s[i])
}

/// Expansion distributes over concatenation.
pub proof fn lemma_expand_concat(inv: Pairs, a: Seq<Token>, b: Seq<Token>)
    ensures
        expand_seq(inv, a + b) == expand_seq(inv, a) + expand_seq(inv, b),
    decreases b.len(),
{
    if b.len() == 0 {
        assert(a + b =~= a);
        assert(expand_seq(inv, a) + expand_seq(inv, b) =~= expand_seq(inv, a));
    } else {
        assert((a + b).drop_last() =~= a + b.drop_last());
        assert((a + b).last() == b.last());
        lemma_expand_concat(inv, a, b.drop_last());
        assert(expand_seq(inv, a + b) =~= expand_seq(inv, a) + expand_seq(inv, b));
    }
}

/// The expansion of a one-element sequence is the expansion of its element.
pub proof fn lemma_expand_single(inv: Pairs, t: Token)
    ensures
        expand_seq(inv, seq![t]) == expand(inv, t),
{
    let s = seq![t];
    assert(s.drop_last() =~= Seq::<Token>::empty());
    assert(expand_seq(inv, s.drop_last()) =~= Seq::<Token>::empty());
    assert(expand_seq(inv, s) =~= expand(inv, t));
}

/// An expansion is never shorter than what it expands.
pub proof fn lemma_expand_len(inv: Pairs, s: Seq<Token>)
    ensures
        expand_seq(inv, s).len() >= s.len(),
    decreases s.len(),
{
    if s.len() > 0 {
        lemma_expand_len(inv, s.drop_last());
        lemma_expand_nonempty(inv, s.last());
    }
}

/// The expansion of an id holds at least one id.
pub proof fn lemma_expand_nonempty(inv: Pairs, t: Token)
    ensures
        expand(inv, t).len() >= 1,
    decreases t,
{
    if inv.contains_key(t) && inv[t].0 < t && inv[t].1 < t {
        lemma_expand_nonempty(inv, inv[t].0);
    }
}

/// A sequence in which no id has an entry is its own expansion.
pub proof fn lemma_expand_fixed(inv: Pairs, s: Seq<Token>)
    requires
        !expandable(inv, s),
    ensures
        expand_seq(inv, s) == s,
    decreases s.len(),
{
    if s.len() > 0 {
        assert(!inv.contains_key(s[s.len() - 1]));
        assert forall|i: int| 0 <= i < s.drop_last().len() implies !inv.contains_key(
            #[trigger] s.drop_last()[i],
        ) by {
            assert(s.drop_last()[i] == s[i]);
        }
        lemma_expand_fixed(inv, s.drop_last());
        assert(expand_seq(inv, s) =~= s);
    }
}

/// One pass of expansion leaves the full expansion as it was, lengthens the
/// sequence where an id has an entry, and changes nothing where none has.
pub proof fn lemma_unfold_once(inv: Pairs, s: Seq<Token>)
    requires
        pairs_wf(inv),
    ensures
        expand_seq(inv, unfold_once(inv, s)) == expand_seq(inv, s),
        unfold_once(inv, s).len() >= s.len(),
        expandable(inv, s) ==> unfold_once(inv, s).len() > s.len(),
        !expandable(inv, s) ==> unfold_once(inv, s) == s,
    decreases s.len(),
{
    if s.len() > 0 {
        let head = s.drop_last();
        let t = s.last();
        lemma_unfold_once(inv, head);
        let u = unfold_once(inv, head);
        if inv.contains_key(t) {
            let l = inv[t].0;
            let r = inv[t].1;
            assert(unfold_once(inv, s) =~= u + seq![l] + seq![r]);
            lemma_expand_concat(inv, u + seq![l], seq![r]);
            lemma_expand_concat(inv, u, seq![l]);
            lemma_expand_single(inv, l);
            lemma_expand_single(inv, r);
            assert(expand_seq(inv, unfold_once(inv, s)) =~= expand_seq(inv, s));
        } else {
            assert(unfold_once(inv, s) =~= u + seq![t]);
            lemma_expand_concat(inv, u, seq![t]);
            lemma_expand_single(inv, t);
            assert(expand_seq(inv, unfold_once(inv, s)) =~= expand_seq(inv, s));
        }
        if expandable(inv, s) {
            let i = choose|i: int| 0 <= i < s.len() && inv.contains_key(#[trigger] s[i]);
            if i < s.len() - 1 {
                assert(head[i] == s[i]);
                assert(expandable(inv, head));
            }
        } else {
            assert forall|i: int| 0 <= i < head.len() implies !inv.contains_key(
                #[trigger] head[i],
            ) by {
                assert(head[i] == s[i]);
            }
            assert(!inv.contains_key(s[s.len() - 1]));
            assert(unfold_once(inv, s) =~= s);
        }
    }
}

/// One pass over `tokens`; the flag says whether any id had an entry.
fn expand_pass(decoder: &BkwdMap, tokens: &Vec<Token>) -> (r: (Vec<Token>, bool))
    ensures
        r.0@ == unfold_once(decoder@, tokens@),
        r.1 == expandable(decoder@, tokens@),
{
    let n = tokens.len();
    let mut out: Vec<Token> = Vec::new();
    let mut any = false;
    let mut i: usize = 0;
    assert(tokens@.subrange(0, 0) =~= Seq::<Token>::empty());
    while i < n
        invariant
            n == tokens@.len(),
            i <= n,
            out@ == unfold_once(decoder@, tokens@.subrange(0, i as int)),
            any == expandable(decoder@, tokens@.subrange(0, i as int)),
        decreases n - i,
    {
        let ghost head = tokens@.subrange(0, i as int);
        let ghost next = tokens@.subrange(0, i + 1);
        assert(next.drop_last() =~= head);
        assert(next.last() == tokens@[i as int]);
        let t = tokens[i];
        proof {
            if expandable(decoder@, head) {
                let j = choose|j: int| 0 <= j < head.len() && decoder@.contains_key(
                    #[trigger] head[j],
                );
                assert(next[j] == head[j]);
            }
            if expandable(decoder@, next) && !decoder@.contains_key(t) {
                let j = choose|j: int| 0 <= j < next.len() && decoder@.contains_key(
                    #[trigger] next[j],
                );
                assert(head[j] == next[j]);
            }
            if decoder@.contains_key(t) {
                assert(decoder@.contains_key(next[i as int]));
            }
        }
        match id_get(decoder, t) {
            Some(pair) => {
                out.push(pair.0);
                out.push(pair.1);
                any = true;
            },
            None => {
                out.push(t);
            },
        }
        i += 1;
    }
    assert(tokens@.subrange(0, n as int) =~= tokens@);
    (out, any)
}

/// Expands `tokens` pass by pass until no id has an entry left.
pub fn expand_all(decoder: &BkwdMap, tokens: Vec<Token>) -> (out: Vec<Token>)
    requires
        pairs_wf(decoder@),
    ensures
        out@ == expand_seq(decoder@, tokens@),
{
    let mut current = tokens;
    loop
        invariant
            pairs_wf(decoder@),
            expand_seq(decoder@, current@) == expand_seq(decoder@, tokens@),
        ensures
            current@ == expand_seq(decoder@, tokens@),
        decreases expand_seq(decoder@, current@).len() - current@.len(),
    {
        proof {
            lemma_unfold_once(decoder@, current@);
            lemma_expand_len(decoder@, unfold_once(decoder@, current@));
        }
        let (next, any) = expand_pass(decoder, &current);
        if !any {
            proof {
                lemma_expand_fixed(decoder@, current@);
            }
            break;
        }
        current = next;
    }
    current
}

} // verus!
