//! Learning merge rules: counting adjacent pairs and choosing the next one.
use crate::merge::Rules;
use crate::rules::{holds_id, is_special, next_id};
use crate::table::{pair_get, pair_insert};
use crate::util::{replace_all, Token};
use rustc_hash::FxHashMap;
use vstd::prelude::*;

verus! {

/// The pair that starts at position `i` of `s`.
pub open spec fn pair_at(s: Seq<Token>, i: int) -> (Token, Token) {
    (s[i], s[i + 1])
}

/// How often `p` starts at one of the first `n` positions of `s`.
pub open spec fn count_upto(s: Seq<Token>, p: (Token, Token), n: int) -> nat
    decreases n,
{
    if n <= 0 {
        0
    } else {
        count_upto(s, p, n - 1) + if pair_at(s, n - 1) == p {
            1nat
        } else {
            0nat
        }
    }
}

/// How often `p` occurs in `s` as an adjacent pair; overlapping occurrences
/// count each.
pub open spec fn pair_count(s: Seq<Token>, p: (Token, Token)) -> nat {
    count_upto(s, p, s.len() - 1)
}

/// Whether the pair at `i` can become a rule: neither half is a special token.
pub open spec fn eligible(special: Seq<Token>, s: Seq<Token>, i: int) -> bool {
    &&& 0 <= i
    &&& i + 1 < s.len()
    &&& !is_special(special, s[i])
    &&& !is_special(special, s[i + 1])
}

/// Whether position `i` holds the pair to learn next: an eligible pair that
/// no eligible pair outnumbers, and that outnumbers every eligible pair to
/// its left. So among the most frequent pairs, the one that is met first
/// when `s` is read from the left is chosen.
pub open spec fn is_best(special: Seq<Token>, s: Seq<Token>, i: int) -> bool {
    &&& eligible(special, s, i)
    &&& forall|j: int| #[trigger]
        eligible(special, s, j) ==> pair_count(s, pair_at(s, j)) <= pair_count(s, pair_at(s, i))
    &&& forall|j: int| #[trigger]
        eligible(special, s, j) && j < i ==> pair_count(s, pair_at(s, j)) < pair_count(
            s,
            pair_at(s, i),
        )
}

/// The pair to learn next, if any pair of `s` is eligible.
pub open spec fn best_pair(special: Seq<Token>, s: Seq<Token>) -> Option<(Token, Token)> {
    if exists|i: int| is_best(special, s, i) {
        Some(pair_at(s, choose|i: int| is_best(special, s, i)))
    } else {
        None
    }
}

/// The rules and the training sequence after up to `budget` steps. A step
/// learns the best pair under the next free id and replaces the pair in the
/// sequence. Training ends early when no pair is eligible or no id is left.
/// It is meant for a sequence in which no rule applies, as encoding leaves
/// it: there the best pair is always a new one.
pub open spec fn train_steps(
    m: Rules,
    special: Seq<Token>,
    s: Seq<Token>,
    budget: nat,
) -> (Rules, Seq<Token>)
    decreases budget,
{
    if budget == 0 || next_id(m, special) >= u32::MAX {
        (m, s)
    } else {
        match best_pair(special, s) {
            None => (m, s),
            Some(p) => {
                let id = next_id(m, special) as Token;
                train_steps(
                    m.insert(p, id),
                    special,
                    replace_all(s, seq![p.0, p.1], seq![id]),
                    (budget - 1) as nat,
                )
            },
        }
    }
}

/// At most one position is the best one.
pub proof fn lemma_best_unique(special: Seq<Token>, s: Seq<Token>, i: int, j: int)
    requires
        is_best(special, s, i),
        is_best(special, s, j),
    ensures
        i == j,
{
    if i < j {
        assert(eligible(special, s, i));
    } else if j < i {
        assert(eligible(special, s, j));
    }
}

/// A count over the first `n` positions is at most `n`, and grows with `n`.
pub proof fn lemma_count_bounds(s: Seq<Token>, p: (Token, Token), k: int, n: int)
    requires
        0 <= k <= n,
    ensures
        count_upto(s, p, k) <= count_upto(s, p, n) <= n,
        k < n && pair_at(s, k) == p ==> count_upto(s, p, n) >= 1,
    decreases n - k,
{
    lemma_count_le(s, p, n);
    if k < n {
        lemma_count_bounds(s, p, k + 1, n);
    }
}

/// A count over the first `n` positions is at most `n`.
pub proof fn lemma_count_le(s: Seq<Token>, p: (Token, Token), n: int)
    requires
        0 <= n,
    ensures
        count_upto(s, p, n) <= n,
    decreases n,
{
    if n > 0 {
        lemma_count_le(s, p, n - 1);
    }
}

/// The number of occurrences of every adjacent pair of `pieces`.
fn count_pairs(pieces: &Vec<Token>) -> (counts: FxHashMap<(Token, Token), usize>)
    ensures
        forall|p: (Token, Token)|
            #![trigger counts@.contains_key(p)]
            #![trigger counts@[p]]
            {
                &&& counts@.contains_key(p) <==> pair_count(pieces@, p) > 0
                &&& counts@.contains_key(p) ==> counts@[p] == pair_count(pieces@, p)
            },
{
    let mut counts: FxHashMap<(Token, Token), usize> = FxHashMap::default();
    let n = pieces.len();
    if n < 2 {
        return counts;
    }
    let mut i: usize = 0;
    while i < n - 1
        invariant
            n == pieces@.len(),
            n >= 2,
            i <= n - 1,
            forall|p: (Token, Token)|
                #![trigger counts@.contains_key(p)]
                #![trigger counts@[p]]
                {
                    &&& counts@.contains_key(p) <==> count_upto(pieces@, p, i as int) > 0
                    &&& counts@.contains_key(p) ==> counts@[p] == count_upto(pieces@, p, i as int)
                },
        decreases n - 1 - i,
    {
        let left = pieces[i];
        let right = pieces[i + 1];
        let seen = match pair_get(&counts, left, right) {
            Some(c) => c,
            None => 0,
        };
        proof {
            lemma_count_le(pieces@, (left, right), i as int);
        }
        pair_insert(&mut counts, left, right, seen + 1);
        i += 1;
    }
    counts
}

/// The pair to learn next from `pieces`: the most frequent eligible pair,
/// and of several the one met first from the left.
pub fn most_frequent_pair(special_ids: &Vec<Token>, pieces: &Vec<Token>) -> (r: Option<
    (Token, Token),
>)
    ensures
        r == best_pair(special_ids@, pieces@),
{
    let n = pieces.len();
    let counts = count_pairs(pieces);
    let last = if n > 0 {
        n - 1
    } else {
        0
    };
    let mut best: Option<(usize, usize)> = None;
    let mut i: usize = 0;
    let ghost s = pieces@;
    let ghost open = |j: int|
        0 <= j && j + 1 < s.len() && !special_ids@.contains(s[j]) && !special_ids@.contains(
            s[j + 1],
        );
    while i < last
        invariant
            n == pieces@.len(),
            last == if n > 0 {
                n - 1
            } else {
                0
            },
            s == pieces@,
            i <= last,
            open == |j: int|
                0 <= j && j + 1 < s.len() && !special_ids@.contains(s[j])
                    && !special_ids@.contains(s[j + 1]),
            forall|p: (Token, Token)|
                #![trigger counts@.contains_key(p)]
                #![trigger counts@[p]]
                {
                    &&& counts@.contains_key(p) <==> pair_count(s, p) > 0
                    &&& counts@.contains_key(p) ==> counts@[p] == pair_count(s, p)
                },
            best is None ==> forall|j: int| 0 <= j < i ==> !#[trigger] open(j),
            best matches Some(b) ==> {
                &&& b.0 < i
                &&& open(b.0 as int)
                &&& b.1 == pair_count(s, pair_at(s, b.0 as int))
                &&& forall|j: int|
                    0 <= j < i && #[trigger] open(j) ==> pair_count(s, pair_at(s, j)) <= b.1
                &&& forall|j: int|
                    0 <= j < b.0 && #[trigger] open(j) ==> pair_count(s, pair_at(s, j)) < b.1
            },
        decreases n - i,
    {
        let left = pieces[i];
        let right = pieces[i + 1];
        let free = !holds_id(special_ids, left) && !holds_id(special_ids, right);
        assert(free == open(i as int));
        if free {
            proof {
                lemma_count_bounds(s, (left, right), i as int, s.len() - 1);
            }
            let seen = match pair_get(&counts, left, right) {
                Some(c) => c,
                None => 0,
            };
            assert(seen == pair_count(s, pair_at(s, i as int)));
            match best {
                None => {
                    best = Some((i, seen));
                },
                Some(b) => {
                    if seen > b.1 {
                        best = Some((i, seen));
                    }
                },
            }
        }
        i += 1;
    }
    let r = match best {
        None => None,
        Some(b) => Some((pieces[b.0], pieces[b.0 + 1])),
    };
    proof {
        let special = special_ids@;
        assert forall|j: int| eligible(special, s, j) == open(j) by {}
        match best {
            None => {
                assert forall|j: int| !is_best(special, s, j) by {
                    if eligible(special, s, j) {
                        assert(open(j));
                    }
                }
            },
            Some(b) => {
                let bi = b.0 as int;
                assert forall|j: int| #[trigger] eligible(special, s, j) implies pair_count(
                    s,
                    pair_at(s, j),
                ) <= pair_count(s, pair_at(s, bi)) by {
                    assert(open(j));
                }
                assert forall|j: int| #[trigger]
                    eligible(special, s, j) && j < bi implies pair_count(s, pair_at(s, j))
                    < pair_count(s, pair_at(s, bi)) by {
                    assert(open(j));
                }
                assert(is_best(special, s, bi));
                let c = choose|i: int| is_best(special, s, i);
                lemma_best_unique(special, s, bi, c);
            },
        }
    }
    r
}

} // verus!
