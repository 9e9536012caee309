//! Applying learned merge rules to a token sequence, pass by pass.
use crate::table::{pair_get, FwdMap};
use crate::util::{below, lemma_below_concat, Token};
use vstd::prelude::*;

verus! {

/// The merge table as a mathematical map from a pair of ids to its replacement.
pub type Rules = Map<(Token, Token), Token>;

/// Whether a rule exists for the pair that starts at position `i` of `s`.
pub open spec fn candidate(m: Rules, s: Seq<Token>, i: int) -> bool {
    0 <= i && i + 1 < s.len() && m.contains_key((s[i], s[i + 1]))
}

/// The id that replaces the pair at position `i`. A lower id was learned
/// earlier and has the higher priority.
pub open spec fn rank(m: Rules, s: Seq<Token>, i: int) -> Token {
    m[(s[i], s[i + 1])]
}

/// Whether the candidate at `i` is applied in this pass: it is, unless an
/// overlapping neighbour has priority. Against its left neighbour a candidate
/// needs the strictly lower id, against its right neighbour one that is not
/// higher, so of two overlapping candidates with equal ids the left one wins.
pub open spec fn selected(m: Rules, s: Seq<Token>, i: int) -> bool {
    &&& candidate(m, s, i)
    &&& candidate(m, s, i - 1) ==> rank(m, s, i) < rank(m, s, i - 1)
    &&& candidate(m, s, i + 1) ==> rank(m, s, i) <= rank(m, s, i + 1)
}

/// The result of one pass over `s` from position `i` on: each selected pair
/// becomes its replacement id, every other token stays.
pub open spec fn merge_from(m: Rules, s: Seq<Token>, i: int) -> Seq<Token>
    decreases s.len() - i,
{
    if i < 0 || i >= s.len() {
        Seq::empty()
    } else if selected(m, s, i) {
        seq![rank(m, s, i)] + merge_from(m, s, i + 2)
    } else {
        seq![s[i]] + merge_from(m, s, i + 1)
    }
}

/// One whole pass over `s`.
pub open spec fn merge_pass(m: Rules, s: Seq<Token>) -> Seq<Token> {
    merge_from(m, s, 0)
}

/// Passes repeated for as long as one shortens the sequence.
pub open spec fn merge_all(m: Rules, s: Seq<Token>) -> Seq<Token>
    decreases s.len(),
{
    let next = merge_pass(m, s);
    if next.len() < s.len() {
        merge_all(m, next)
    } else {
        s
    }
}

/// Whether no rule of `m` applies anywhere in `s`.
pub open spec fn settled(m: Rules, s: Seq<Token>) -> bool {
    forall|i: int| !candidate(m, s, i)
}

/// A pass never lengthens what is left of the sequence.
pub proof fn lemma_merge_from_len(m: Rules, s: Seq<Token>, i: int)
    requires
        0 <= i <= s.len(),
    ensures
        merge_from(m, s, i).len() <= s.len() - i,
    decreases s.len() - i,
{
    if i < s.len() {
        if selected(m, s, i) {
            lemma_merge_from_len(m, s, i + 2);
        } else {
            lemma_merge_from_len(m, s, i + 1);
        }
    }
}

/// Merging to the end never lengthens a sequence.
pub proof fn lemma_merge_all_len(m: Rules, s: Seq<Token>)
    ensures
        merge_all(m, s).len() <= s.len(),
    decreases s.len(),
{
    let next = merge_pass(m, s);
    if next.len() < s.len() {
        lemma_merge_all_len(m, next);
    }
}

/// A pass keeps a bound that holds of the sequence and of every replacement id.
pub proof fn lemma_merge_from_bound(m: Rules, s: Seq<Token>, i: int, bound: int)
    requires
        0 <= i,
        below(s, bound),
        forall|k: (Token, Token)| #[trigger] m.contains_key(k) ==> m[k] < bound,
    ensures
        below(merge_from(m, s, i), bound),
    decreases s.len() - i,
{
    if i < s.len() {
        if selected(m, s, i) {
            assert(m.contains_key((s[i], s[i + 1])));
            lemma_merge_from_bound(m, s, i + 2, bound);
            assert(below(seq![rank(m, s, i)], bound));
            lemma_below_concat(seq![rank(m, s, i)], merge_from(m, s, i + 2), bound);
        } else {
            lemma_merge_from_bound(m, s, i + 1, bound);
            assert(below(seq![s[i]], bound)) by {
                assert(s[i] < bound);
            }
            lemma_below_concat(seq![s[i]], merge_from(m, s, i + 1), bound);
        }
    }
}

/// Merging to the end keeps a bound that holds of the sequence and of every
/// replacement id.
pub proof fn lemma_merge_all_bound(m: Rules, s: Seq<Token>, bound: int)
    requires
        below(s, bound),
        forall|k: (Token, Token)| #[trigger] m.contains_key(k) ==> m[k] < bound,
    ensures
        below(merge_all(m, s), bound),
    decreases s.len(),
{
    let next = merge_pass(m, s);
    if next.len() < s.len() {
        lemma_merge_from_bound(m, s, 0, bound);
        lemma_merge_all_bound(m, next, bound);
    }
}

/// The candidates of `tokens`, position by position: the replacement id where
/// a rule exists for the pair that starts there.
fn collect_candidates(table: &FwdMap, tokens: &Vec<Token>) -> (ranks: Vec<Option<Token>>)
    ensures
        ranks@.len() == tokens@.len(),
        forall|i: int|
            0 <= i < tokens@.len() ==> #[trigger] ranks@[i] == if candidate(table@, tokens@, i) {
                Some(rank(table@, tokens@, i))
            } else {
                None
            },
{
    let n = tokens.len();
    let mut ranks: Vec<Option<Token>> = Vec::new();
    let mut i: usize = 0;
    while i < n
        invariant
            n == tokens@.len(),
            i <= n,
            ranks@.len() == i,
            forall|j: int|
                0 <= j < i ==> #[trigger] ranks@[j] == if candidate(table@, tokens@, j) {
                    Some(rank(table@, tokens@, j))
                } else {
                    None
                },
        decreases n - i,
    {
        let found = if i + 1 < n {
            pair_get(table, tokens[i], tokens[i + 1])
        } else {
            None
        };
        ranks.push(found);
        i += 1;
    }
    ranks
}

/// Whether the candidate at `i` wins against both neighbours.
fn wins(ranks: &Vec<Option<Token>>, i: usize) -> (r: bool)
    requires
        i < ranks@.len(),
    ensures
        r == (ranks@[i as int] matches Some(id) && (i > 0 ==> (ranks@[i - 1] matches Some(left)
            ==> id < left)) && (i + 1 < ranks@.len() ==> (ranks@[i + 1] matches Some(right) ==> id
            <= right))),
{
    match ranks[i] {
        None => false,
        Some(id) => {
            let beats_left = if i > 0 {
                match ranks[i - 1] {
                    Some(left) => id < left,
                    None => true,
                }
            } else {
                true
            };
            let beats_right = if i < ranks.len() - 1 {
                match ranks[i + 1] {
                    Some(right) => id <= right,
                    None => true,
                }
            } else {
                true
            };
            beats_left && beats_right
        },
    }
}

/// One pass: collects the candidates, then rewrites the sequence with every
/// selected pair replaced.
pub fn apply_merge_pass(table: &FwdMap, tokens: &Vec<Token>) -> (out: Vec<Token>)
    ensures
        out@ == merge_pass(table@, tokens@),
        out@.len() <= tokens@.len(),
{
    let n = tokens.len();
    let ranks = collect_candidates(table, tokens);
    let mut out: Vec<Token> = Vec::new();
    let mut i: usize = 0;
    assert(out@ + merge_from(table@, tokens@, 0) =~= merge_pass(table@, tokens@));
    while i < n
        invariant
            n == tokens@.len(),
            ranks@.len() == n,
            i <= n,
            forall|j: int|
                0 <= j < n ==> #[trigger] ranks@[j] == if candidate(table@, tokens@, j) {
                    Some(rank(table@, tokens@, j))
                } else {
                    None
                },
            merge_pass(table@, tokens@) == out@ + merge_from(table@, tokens@, i as int),
        decreases n - i,
    {
        let ghost before = out@;
        let chosen = wins(&ranks, i);
        assert(chosen == selected(table@, tokens@, i as int));
        if chosen {
            match ranks[i] {
                Some(id) => {
                    out.push(id);
                },
                None => {},
            }
            assert(out@ + merge_from(table@, tokens@, i + 2) =~= before + merge_from(
                table@,
                tokens@,
                i as int,
            ));
            i += 2;
        } else {
            out.push(tokens[i]);
            assert(out@ + merge_from(table@, tokens@, i + 1) =~= before + merge_from(
                table@,
                tokens@,
                i as int,
            ));
            i += 1;
        }
    }
    assert(out@ + Seq::<Token>::empty() =~= out@);
    proof {
        lemma_merge_from_len(table@, tokens@, 0);
    }
    out
}

/// Applies the rules of `table` to `tokens` until a pass changes nothing.
pub fn apply_merges(table: &FwdMap, tokens: Vec<Token>) -> (out: Vec<Token>)
    ensures
        out@ == merge_all(table@, tokens@),
        out@.len() <= tokens@.len(),
{
    let mut current = tokens;
    loop
        invariant
            merge_all(table@, current@) == merge_all(table@, tokens@),
            current@.len() <= tokens@.len(),
        ensures
            current@ == merge_all(table@, tokens@),
        decreases current@.len(),
    {
        let next = apply_merge_pass(table, &current);
        if next.len() < current.len() {
            current = next;
        } else {
            break;
        }
    }
    current
}

} // verus!
