//! Sequence rewriting shared by training, encoding and decoding: replacing an
//! n-gram wherever it occurs, and exchanging special literals with their ids.
use vstd::prelude::*;
use vstd::std_specs::cmp::PartialEqSpec;
use vstd::utf8::encode_utf8;

verus! {

/// A token identifier: a raw byte below 256, a learned merge, or a special literal.
pub type Token = u32;

/// Registered special literals with their ids, in the order of registration.
pub type VocabMap = Vec<(String, Token)>;

/// The sequence `s` with every leftmost, non-overlapping occurrence of `ngram`
/// replaced by `rep`. Scanning resumes behind a replaced occurrence, so what
/// was inserted is never matched again. An empty `ngram` occurs nowhere.
pub open spec fn replace_all<T>(s: Seq<T>, ngram: Seq<T>, rep: Seq<T>) -> Seq<T>
    decreases s.len(),
{
    if ngram.len() == 0 || s.len() < ngram.len() {
        s
    } else if s.subrange(0, ngram.len() as int) == ngram {
        rep + replace_all(s.subrange(ngram.len() as int, s.len() as int), ngram, rep)
    } else {
        seq![s[0]] + replace_all(s.drop_first(), ngram, rep)
    }
}

/// Whether `ngram` stands in `s` at position `at`.
pub open spec fn occurs_at<T>(s: Seq<T>, ngram: Seq<T>, at: int) -> bool {
    &&& 0 <= at
    &&& at + ngram.len() <= s.len()
    &&& s.subrange(at, at + ngram.len()) == ngram
}

/// Whether `==` on `T` says exactly whether two values are the same, as it
/// does on the integers.
pub open spec fn equality_is_identity<T: PartialEq>() -> bool {
    &&& T::obeys_eq_spec()
    &&& forall|a: T, b: T| #[trigger] a.eq_spec(&b) <==> a == b
}

/// Each byte as the token of the same value.
pub open spec fn widen(bytes: Seq<u8>) -> Seq<Token> {
    Seq::new(bytes.len(), |i: int| bytes[i] as Token)
}

/// The tokens that spell a special literal: its UTF-8 bytes, widened.
pub open spec fn literal_tokens(word: Seq<char>) -> Seq<Token> {
    widen(encode_utf8(word))
}

/// The ids of the registered special tokens, in the order of registration.
pub open spec fn ids_of(reg: Seq<(String, Token)>) -> Seq<Token> {
    Seq::new(reg.len(), |i: int| reg[i].1)
}

/// `s` after each literal of `reg`, first entry first, has been replaced by its id.
pub open spec fn replace_specials(s: Seq<Token>, reg: Seq<(String, Token)>) -> Seq<Token>
    decreases reg.len(),
{
    if reg.len() == 0 {
        s
    } else {
        replace_all(
            replace_specials(s, reg.drop_last()),
            literal_tokens(reg.last().0@),
            seq![reg.last().1],
        )
    }
}

/// `s` after each id of `reg`, last entry first, has been replaced by its literal.
pub open spec fn inject_specials(s: Seq<Token>, reg: Seq<(String, Token)>) -> Seq<Token>
    decreases reg.len(),
{
    if reg.len() == 0 {
        s
    } else {
        inject_specials(
            replace_all(s, seq![reg.last().1], literal_tokens(reg.last().0@)),
            reg.drop_last(),
        )
    }
}

/// Whether every token of `s` lies below `bound`.
pub open spec fn below(s: Seq<Token>, bound: int) -> bool {
    forall|i: int| 0 <= i < s.len() ==> #[trigger] s[i] < bound
}

/// A bound on two sequences bounds their concatenation.
pub proof fn lemma_below_concat(a: Seq<Token>, b: Seq<Token>, bound: int)
    requires
        below(a, bound),
        below(b, bound),
    ensures
        below(a + b, bound),
{
    assert forall|i: int| 0 <= i < (a + b).len() implies #[trigger] (a + b)[i] < bound by {
        if i < a.len() {
            assert((a + b)[i] == a[i]);
        } else {
            assert((a + b)[i] == b[i - a.len()]);
        }
    }
}

/// A bound on a sequence bounds each of its pieces.
pub proof fn lemma_below_subrange(s: Seq<Token>, from: int, to: int, bound: int)
    requires
        below(s, bound),
        0 <= from <= to <= s.len(),
    ensures
        below(s.subrange(from, to), bound),
{
    assert forall|i: int| 0 <= i < to - from implies #[trigger] s.subrange(from, to)[i]
        < bound by {
        assert(s.subrange(from, to)[i] == s[from + i]);
    }
}

/// Every token after a replacement stood in the sequence before or stands in
/// what was put in: a bound on both bounds the result.
pub proof fn lemma_replace_all_bound(s: Seq<Token>, ngram: Seq<Token>, rep: Seq<Token>, bound: int)
    requires
        below(s, bound),
        below(rep, bound),
    ensures
        below(replace_all(s, ngram, rep), bound),
    decreases s.len(),
{
    if ngram.len() == 0 || s.len() < ngram.len() {
    } else if s.subrange(0, ngram.len() as int) == ngram {
        let rest = s.subrange(ngram.len() as int, s.len() as int);
        lemma_below_subrange(s, ngram.len() as int, s.len() as int, bound);
        lemma_replace_all_bound(rest, ngram, rep, bound);
        lemma_below_concat(rep, replace_all(rest, ngram, rep), bound);
    } else {
        let rest = s.drop_first();
        lemma_below_subrange(s, 1, s.len() as int, bound);
        lemma_replace_all_bound(rest, ngram, rep, bound);
        assert(below(seq![s[0]], bound)) by {
            assert(s[0] < bound);
        }
        lemma_below_concat(seq![s[0]], replace_all(rest, ngram, rep), bound);
    }
}

/// Replacing special literals by their ids keeps a bound that holds of the
/// sequence and of every special id.
pub proof fn lemma_replace_specials_bound(s: Seq<Token>, reg: Seq<(String, Token)>, bound: int)
    requires
        below(s, bound),
        below(ids_of(reg), bound),
    ensures
        below(replace_specials(s, reg), bound),
    decreases reg.len(),
{
    if reg.len() > 0 {
        let head = reg.drop_last();
        assert forall|i: int| 0 <= i < head.len() implies #[trigger] ids_of(head)[i] < bound by {
            assert(ids_of(reg)[i] < bound);
        }
        lemma_replace_specials_bound(s, head, bound);
        assert(ids_of(reg)[reg.len() - 1] < bound);
        assert(below(seq![reg.last().1], bound));
        lemma_replace_all_bound(
            replace_specials(s, head),
            literal_tokens(reg.last().0@),
            seq![reg.last().1],
            bound,
        );
    }
}

/// Replacing by something no longer than the n-gram never lengthens a sequence.
pub proof fn lemma_replace_all_len(s: Seq<Token>, ngram: Seq<Token>, rep: Seq<Token>)
    requires
        rep.len() <= ngram.len(),
    ensures
        replace_all(s, ngram, rep).len() <= s.len(),
    decreases s.len(),
{
    if ngram.len() == 0 || s.len() < ngram.len() {
    } else if s.subrange(0, ngram.len() as int) == ngram {
        lemma_replace_all_len(s.subrange(ngram.len() as int, s.len() as int), ngram, rep);
    } else {
        lemma_replace_all_len(s.drop_first(), ngram, rep);
    }
}

/// Replacing special literals by their ids never lengthens a sequence.
pub proof fn lemma_replace_specials_len(s: Seq<Token>, reg: Seq<(String, Token)>)
    ensures
        replace_specials(s, reg).len() <= s.len(),
    decreases reg.len(),
{
    if reg.len() > 0 {
        lemma_replace_specials_len(s, reg.drop_last());
        let ngram = literal_tokens(reg.last().0@);
        if ngram.len() > 0 {
            lemma_replace_all_len(replace_specials(s, reg.drop_last()), ngram, seq![reg.last().1]);
        }
    }
}

/// Whether `ngram` stands in `tokens` at `at`, where it fits in behind `at`.
fn matches_at<T: PartialEq + Copy>(tokens: &Vec<T>, at: usize, ngram: &[T]) -> (r: bool)
    requires
        at + ngram@.len() <= tokens@.len(),
        equality_is_identity::<T>(),
    ensures
        r == occurs_at(tokens@, ngram@, at as int),
{
    let n = tokens.len();
    let k = ngram.len();
    let mut j: usize = 0;
    while j < k
        invariant
            n == tokens@.len(),
            k == ngram@.len(),
            j <= k,
            at + k <= n,
            equality_is_identity::<T>(),
            forall|x: int| 0 <= x < j ==> tokens@[at + x] == ngram@[x],
        decreases k - j,
    {
        if tokens[at + j] != ngram[j] {
            assert(tokens@.subrange(at as int, at + k)[j as int] != ngram@[j as int]);
            return false;
        }
        j += 1;
    }
    assert(tokens@.subrange(at as int, at + k) =~= ngram@);
    true
}

/// Replaces, in one pass from the left, every non-overlapping occurrence of
/// `ngram` in `tokens` by `replace`.
pub fn ngram_replace<T: PartialEq + Copy>(tokens: &mut Vec<T>, ngram: &[T], replace: &[T])
    requires
        ngram@.len() > 0,
        equality_is_identity::<T>(),
    ensures
        final(tokens)@ == replace_all(old(tokens)@, ngram@, replace@),
{
    let n = tokens.len();
    let k = ngram.len();
    let mut out: Vec<T> = Vec::new();
    let mut i: usize = 0;
    assert(tokens@.subrange(0, n as int) =~= tokens@);
    assert(out@ + tokens@ =~= tokens@);
    while i < n
        invariant
            n == tokens@.len(),
            k == ngram@.len(),
            k > 0,
            equality_is_identity::<T>(),
            i <= n,
            tokens@ == old(tokens)@,
            replace_all(tokens@, ngram@, replace@) == out@ + replace_all(
                tokens@.subrange(i as int, n as int),
                ngram@,
                replace@,
            ),
        decreases n - i,
    {
        let ghost rest = tokens@.subrange(i as int, n as int);
        if k <= n - i && matches_at(tokens, i, ngram) {
            assert(rest.subrange(0, k as int) =~= tokens@.subrange(i as int, i + k));
            assert(rest.subrange(k as int, rest.len() as int) =~= tokens@.subrange(
                i + k,
                n as int,
            ));
            let ghost before = out@;
            let mut j: usize = 0;
            while j < replace.len()
                invariant
                    j <= replace@.len(),
                    out@ == before + replace@.subrange(0, j as int),
                decreases replace@.len() - j,
            {
                out.push(replace[j]);
                j += 1;
                assert(out@ =~= before + replace@.subrange(0, j as int));
            }
            assert(replace@.subrange(0, replace@.len() as int) =~= replace@);
            assert(out@ + replace_all(tokens@.subrange(i + k, n as int), ngram@, replace@)
                =~= before + replace_all(rest, ngram@, replace@));
            i += k;
        } else {
            if k <= n - i {
                assert(rest.subrange(0, k as int) =~= tokens@.subrange(i as int, i + k));
            }
            assert(rest.drop_first() =~= tokens@.subrange(i + 1, n as int));
            let ghost before = out@;
            out.push(tokens[i]);
            assert(out@ + replace_all(tokens@.subrange(i + 1, n as int), ngram@, replace@)
                =~= before + replace_all(rest, ngram@, replace@));
            i += 1;
        }
    }
    assert(tokens@.subrange(n as int, n as int) =~= Seq::<T>::empty());
    assert(out@ + Seq::<T>::empty() =~= out@);
    *tokens = out;
}

/// The tokens that spell `word`.
pub fn literal_ngram(word: &String) -> (ngram: Vec<Token>)
    ensures
        ngram@ == literal_tokens(word@),
{
    let bytes = word.as_str().as_bytes();
    let mut ngram: Vec<Token> = Vec::new();
    let mut i: usize = 0;
    while i < bytes.len()
        invariant
            bytes@ == encode_utf8(word@),
            i <= bytes@.len(),
            ngram@.len() == i,
            forall|j: int| 0 <= j < i ==> ngram@[j] == bytes@[j] as Token,
        decreases bytes@.len() - i,
    {
        ngram.push(bytes[i] as Token);
        i += 1;
    }
    assert(ngram@ =~= literal_tokens(word@));
    ngram
}

/// Replaces each registered literal in `tokens` by its id, the entries taken
/// in the order of registration. A literal is matched as its bytes; an empty
/// one matches nowhere.
pub fn replace_special_tokens(tokens: &mut Vec<Token>, map: &VocabMap)
    ensures
        final(tokens)@ == replace_specials(old(tokens)@, map@),
{
    let mut i: usize = 0;
    assert(map@.subrange(0, 0) =~= Seq::<(String, Token)>::empty());
    while i < map.len()
        invariant
            i <= map@.len(),
            tokens@ == replace_specials(old(tokens)@, map@.subrange(0, i as int)),
        decreases map@.len() - i,
    {
        let ghost done = map@.subrange(0, i as int);
        let ghost next = map@.subrange(0, i + 1);
        assert(next.drop_last() =~= done);
        assert(next.last() == map@[i as int]);
        let ngram = literal_ngram(&map[i].0);
        let mut id: Vec<Token> = Vec::new();
        id.push(map[i].1);
        assert(id@ =~= seq![map@[i as int].1]);
        if ngram.len() > 0 {
            ngram_replace(tokens, ngram.as_slice(), id.as_slice());
        }
        i += 1;
    }
    assert(map@.subrange(0, map@.len() as int) =~= map@);
}

/// Replaces each registered id in `tokens` by the bytes of its literal, the
/// entries taken in the reverse order of registration.
pub fn inject_special_tokens(tokens: &mut Vec<Token>, map: &VocabMap)
    ensures
        final(tokens)@ == inject_specials(old(tokens)@, map@),
{
    let mut i: usize = map.len();
    assert(map@.subrange(0, map@.len() as int) =~= map@);
    while i > 0
        invariant
            i <= map@.len(),
            inject_specials(old(tokens)@, map@) == inject_specials(
                tokens@,
                map@.subrange(0, i as int),
            ),
        decreases i,
    {
        let ghost todo = map@.subrange(0, i as int);
        assert(todo.drop_last() =~= map@.subrange(0, i - 1));
        assert(todo.last() == map@[i - 1]);
        i -= 1;
        let literal = literal_ngram(&map[i].0);
        let mut id: Vec<Token> = Vec::new();
        id.push(map[i].1);
        assert(id@ =~= seq![map@[i as int].1]);
        ngram_replace(tokens, id.as_slice(), literal.as_slice());
    }
    assert(map@.subrange(0, 0) =~= Seq::<(String, Token)>::empty());
}

} // verus!
