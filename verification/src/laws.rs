//! What holds of encoding, decoding and training whatever the input: the
//! laws that the tokenizer's users may rely on, each with its proof.
use crate::expand::{
    expand, expand_seq, expandable, lemma_expand_concat, lemma_expand_fixed, lemma_expand_single,
};
use crate::merge::{
    candidate, lemma_merge_from_len, merge_all, merge_from, merge_pass, rank, selected, settled,
    Rules,
};
use crate::preproc::{lemma_collapse_shortens, Normalize, Normalizer};
use crate::rules::{
    inverse, is_special, keeps_rules, lemma_inverse, lemma_learn, next_id, registry_wf, rules_wf,
    FIRST_ID,
};
use crate::train::{best_pair, eligible, is_best, pair_at, train_steps};
use crate::tokenizer::{all_bytes, decode_text, decode_tokens, encode_tokens, narrow};
use crate::util::{
    below, ids_of, inject_specials, lemma_replace_all_bound, lemma_replace_specials_len,
    literal_tokens, occurs_at, replace_all, replace_specials, widen, Token,
};
use vstd::prelude::*;
use vstd::utf8::{encode_utf8, encode_utf8_decode_utf8, encode_utf8_valid_utf8};

verus! {

/// Whether every token of `s` is a raw byte or one of the ids `special`.
pub open spec fn plain(s: Seq<Token>, special: Seq<Token>) -> bool {
    forall|i: int| 0 <= i < s.len() ==> (#[trigger] s[i]) < FIRST_ID || is_special(special, s[i])
}

/// A replacement leaves a sequence plain where what is put in is plain.
pub proof fn lemma_replace_all_plain(
    s: Seq<Token>,
    ngram: Seq<Token>,
    rep: Seq<Token>,
    special: Seq<Token>,
)
    requires
        plain(s, special),
        plain(rep, special),
    ensures
        plain(replace_all(s, ngram, rep), special),
    decreases s.len(),
{
    if ngram.len() == 0 || s.len() < ngram.len() {
    } else if s.subrange(0, ngram.len() as int) == ngram {
        let rest = s.subrange(ngram.len() as int, s.len() as int);
        assert forall|i: int| 0 <= i < rest.len() implies (#[trigger] rest[i]) < FIRST_ID
            || is_special(special, rest[i]) by {
            assert(rest[i] == s[i + ngram.len()]);
        }
        lemma_replace_all_plain(rest, ngram, rep, special);
        let tail = replace_all(rest, ngram, rep);
        assert forall|i: int| 0 <= i < (rep + tail).len() implies (#[trigger] (rep + tail)[i])
            < FIRST_ID || is_special(special, (rep + tail)[i]) by {
            if i < rep.len() {
                assert((rep + tail)[i] == rep[i]);
            } else {
                assert((rep + tail)[i] == tail[i - rep.len()]);
            }
        }
    } else {
        let rest = s.drop_first();
        assert forall|i: int| 0 <= i < rest.len() implies (#[trigger] rest[i]) < FIRST_ID
            || is_special(special, rest[i]) by {
            assert(rest[i] == s[i + 1]);
        }
        lemma_replace_all_plain(rest, ngram, rep, special);
        let tail = replace_all(rest, ngram, rep);
        assert forall|i: int| 0 <= i < (seq![s[0]] + tail).len() implies (#[trigger] (seq![s[0]]
            + tail)[i]) < FIRST_ID || is_special(special, (seq![s[0]] + tail)[i]) by {
            if i == 0 {
                assert((seq![s[0]] + tail)[i] == s[0]);
            } else {
                assert((seq![s[0]] + tail)[i] == tail[i - 1]);
            }
        }
    }
}

/// After the special literals have been replaced, a sequence of bytes is plain.
pub proof fn lemma_replace_specials_plain(bytes: Seq<u8>, reg: Seq<(String, Token)>)
    ensures
        plain(replace_specials(widen(bytes), reg), ids_of(reg)),
    decreases reg.len(),
{
    if reg.len() == 0 {
    } else {
        let head = reg.drop_last();
        lemma_replace_specials_plain(bytes, head);
        let before = replace_specials(widen(bytes), head);
        let ids = ids_of(reg);
        assert forall|i: int| 0 <= i < before.len() implies (#[trigger] before[i]) < FIRST_ID
            || is_special(ids, before[i]) by {
            if !(before[i] < FIRST_ID) {
                let j = choose|j: int| 0 <= j < ids_of(head).len() && ids_of(head)[j] == before[i];
                assert(ids[j] == before[i]);
            }
        }
        let id = reg.last().1;
        assert(ids[reg.len() - 1] == id);
        assert(plain(seq![id], ids));
        lemma_replace_all_plain(before, literal_tokens(reg.last().0@), seq![id], ids);
    }
}

/// Where `id` does not occur, replacing it changes nothing.
pub proof fn lemma_replace_absent(s: Seq<Token>, id: Token, rep: Seq<Token>)
    requires
        !s.contains(id),
    ensures
        replace_all(s, seq![id], rep) == s,
    decreases s.len(),
{
    if s.len() >= 1 {
        assert(s[0] != id);
        assert(s.subrange(0, 1)[0] == s[0]);
        let rest = s.drop_first();
        assert forall|i: int| 0 <= i < rest.len() implies rest[i] != id by {
            assert(rest[i] == s[i + 1]);
        }
        lemma_replace_absent(rest, id, rep);
        assert(seq![s[0]] + rest =~= s);
    }
}

/// Replacing a literal by an id that did not occur, and then the id by the
/// literal, gives the sequence back.
pub proof fn lemma_replace_undone(s: Seq<Token>, literal: Seq<Token>, id: Token)
    requires
        !s.contains(id),
    ensures
        replace_all(replace_all(s, literal, seq![id]), seq![id], literal) == s,
    decreases s.len(),
{
    let k = literal.len() as int;
    if k == 0 || s.len() < k {
        lemma_replace_absent(s, id, literal);
    } else if s.subrange(0, k) == literal {
        let rest = s.subrange(k, s.len() as int);
        assert forall|i: int| 0 <= i < rest.len() implies rest[i] != id by {
            assert(rest[i] == s[i + k]);
        }
        lemma_replace_undone(rest, literal, id);
        let inner = replace_all(rest, literal, seq![id]);
        let whole = seq![id] + inner;
        assert(whole.subrange(0, 1) =~= seq![id]);
        assert(whole.subrange(1, whole.len() as int) =~= inner);
        assert(literal + rest =~= s);
    } else {
        let rest = s.drop_first();
        assert(s[0] != id);
        assert forall|i: int| 0 <= i < rest.len() implies rest[i] != id by {
            assert(rest[i] == s[i + 1]);
        }
        lemma_replace_undone(rest, literal, id);
        let inner = replace_all(rest, literal, seq![id]);
        let whole = seq![s[0]] + inner;
        assert(whole.subrange(0, 1)[0] == s[0]);
        assert(whole.drop_first() =~= inner);
        assert(seq![s[0]] + rest =~= s);
    }
}

/// Putting the literals back undoes their replacement: on bytes, injecting
/// after replacing is the identity, whatever the literals are.
pub proof fn lemma_inject_undoes_replace(bytes: Seq<u8>, reg: Seq<(String, Token)>)
    requires
        ids_of(reg).no_duplicates(),
        forall|i: int| 0 <= i < reg.len() ==> #[trigger] ids_of(reg)[i] >= FIRST_ID,
    ensures
        inject_specials(replace_specials(widen(bytes), reg), reg) == widen(bytes),
    decreases reg.len(),
{
    if reg.len() > 0 {
        let head = reg.drop_last();
        let id = reg.last().1;
        let literal = literal_tokens(reg.last().0@);
        let before = replace_specials(widen(bytes), head);
        assert(ids_of(head) =~= ids_of(reg).drop_last());
        assert forall|i: int| 0 <= i < head.len() implies #[trigger] ids_of(head)[i]
            >= FIRST_ID by {
            assert(ids_of(reg)[i] >= FIRST_ID);
        }
        assert(ids_of(head).no_duplicates()) by {
            assert forall|i: int, j: int|
                0 <= i < head.len() && 0 <= j < head.len() && i != j implies ids_of(head)[i]
                != ids_of(head)[j] by {
                assert(ids_of(reg)[i] != ids_of(reg)[j]);
            }
        }
        lemma_inject_undoes_replace(bytes, head);
        lemma_replace_specials_plain(bytes, head);
        assert(ids_of(reg)[reg.len() - 1] == id);
        assert(!before.contains(id)) by {
            if before.contains(id) {
                let i = choose|i: int| 0 <= i < before.len() && before[i] == id;
                assert(before[i] < FIRST_ID || is_special(ids_of(head), before[i]));
                let j = choose|j: int| 0 <= j < ids_of(head).len() && ids_of(head)[j] == id;
                assert(ids_of(reg)[j] == ids_of(reg)[reg.len() - 1]);
            }
        }
        lemma_replace_undone(before, literal, id);
    }
}

/// One pass of merging leaves the full expansion of a sequence as it was.
pub proof fn lemma_merge_from_expansion(m: Rules, s: Seq<Token>, i: int)
    requires
        rules_wf(m),
        0 <= i <= s.len(),
    ensures
        expand_seq(inverse(m), merge_from(m, s, i)) == expand_seq(
            inverse(m),
            s.subrange(i, s.len() as int),
        ),
    decreases s.len() - i,
{
    let inv = inverse(m);
    let n = s.len() as int;
    if i >= n {
        assert(s.subrange(i, n) =~= Seq::<Token>::empty());
    } else if selected(m, s, i) {
        lemma_inverse(m);
        let id = rank(m, s, i);
        assert(m.contains_key((s[i], s[i + 1])));
        assert(inv.contains_key(id) && inv[id] == (s[i], s[i + 1]));
        assert(expand(inv, id) == expand(inv, s[i]) + expand(inv, s[i + 1]));
        lemma_merge_from_expansion(m, s, i + 2);
        let tail = merge_from(m, s, i + 2);
        lemma_expand_concat(inv, seq![id], tail);
        lemma_expand_single(inv, id);
        let rest = s.subrange(i + 2, n);
        assert(s.subrange(i, n) =~= seq![s[i]] + seq![s[i + 1]] + rest);
        lemma_expand_concat(inv, seq![s[i]] + seq![s[i + 1]], rest);
        lemma_expand_concat(inv, seq![s[i]], seq![s[i + 1]]);
        lemma_expand_single(inv, s[i]);
        lemma_expand_single(inv, s[i + 1]);
    } else {
        lemma_merge_from_expansion(m, s, i + 1);
        let tail = merge_from(m, s, i + 1);
        lemma_expand_concat(inv, seq![s[i]], tail);
        let rest = s.subrange(i + 1, n);
        assert(s.subrange(i, n) =~= seq![s[i]] + rest);
        lemma_expand_concat(inv, seq![s[i]], rest);
    }
}

/// Merging to the end leaves the full expansion of a sequence as it was.
pub proof fn lemma_merge_all_expansion(m: Rules, s: Seq<Token>)
    requires
        rules_wf(m),
    ensures
        expand_seq(inverse(m), merge_all(m, s)) == expand_seq(inverse(m), s),
    decreases s.len(),
{
    let next = merge_pass(m, s);
    if next.len() < s.len() {
        lemma_merge_from_expansion(m, s, 0);
        assert(s.subrange(0, s.len() as int) =~= s);
        lemma_merge_all_expansion(m, next);
    }
}

/// Decoding what encoding gave returns the normalised text: for every
/// well-formed vocabulary and every text, whatever rules have been learned
/// and whatever special tokens are registered.
pub proof fn law_round_trip_normalized(
    m: Rules,
    reg: Seq<(String, Token)>,
    norm: Normalizer,
    text: Seq<char>,
)
    requires
        rules_wf(m),
        registry_wf(m, ids_of(reg)),
    ensures
        decode_text(m, reg, encode_tokens(m, reg, norm, text)) == Some(norm.normalized(text)),
{
    let inv = inverse(m);
    let ids = ids_of(reg);
    let normal = norm.normalized(text);
    let bytes = encode_utf8(normal);
    let marked = replace_specials(widen(bytes), reg);
    let encoded = merge_all(m, marked);
    lemma_merge_all_expansion(m, marked);
    lemma_replace_specials_plain(bytes, reg);
    lemma_inverse(m);
    assert(!expandable(inv, marked)) by {
        if expandable(inv, marked) {
            let i = choose|i: int| 0 <= i < marked.len() && inv.contains_key(#[trigger] marked[i]);
            assert(marked[i] < FIRST_ID || is_special(ids, marked[i]));
            assert(m.contains_key(inv[marked[i]]));
        }
    }
    lemma_expand_fixed(inv, marked);
    lemma_inject_undoes_replace(bytes, reg);
    assert(decode_tokens(m, reg, encoded) == widen(bytes));
    assert(all_bytes(widen(bytes)));
    assert(narrow(widen(bytes)) =~= bytes);
    encode_utf8_valid_utf8(normal);
    encode_utf8_decode_utf8(normal);
}

/// Decoding what encoding gave returns the text itself, for every text that
/// normalisation leaves as it is.
pub proof fn law_round_trip(m: Rules, reg: Seq<(String, Token)>, norm: Normalizer, text: Seq<char>)
    requires
        rules_wf(m),
        registry_wf(m, ids_of(reg)),
        norm.normalized(text) == text,
    ensures
        decode_text(m, reg, encode_tokens(m, reg, norm, text)) == Some(text),
{
    law_round_trip_normalized(m, reg, norm, text);
}

/// Encoding never gives more tokens than the text has bytes.
pub proof fn law_encode_no_longer(
    m: Rules,
    reg: Seq<(String, Token)>,
    norm: Normalizer,
    text: Seq<char>,
)
    ensures
        encode_tokens(m, reg, norm, text).len() <= encode_utf8(text).len(),
{
    let bytes = encode_utf8(norm.normalized(text));
    lemma_collapse_shortens(text, true);
    lemma_replace_specials_len(widen(bytes), reg);
    crate::merge::lemma_merge_all_len(m, replace_specials(widen(bytes), reg));
}

/// A candidate of the first `n` positions that no other of them precedes in
/// priority: its id is the lowest, and of those with that id it is leftmost.
proof fn least_candidate(m: Rules, s: Seq<Token>, n: int) -> (j: int)
    requires
        0 <= n <= s.len(),
        exists|i: int| 0 <= i < n && candidate(m, s, i),
    ensures
        0 <= j < n,
        candidate(m, s, j),
        forall|i: int|
            0 <= i < n && #[trigger] candidate(m, s, i) ==> rank(m, s, j) < rank(m, s, i) || (rank(
                m,
                s,
                j,
            ) == rank(m, s, i) && j <= i),
    decreases n,
{
    if exists|i: int| 0 <= i < n - 1 && candidate(m, s, i) {
        let j = least_candidate(m, s, n - 1);
        if candidate(m, s, n - 1) && rank(m, s, n - 1) < rank(m, s, j) {
            n - 1
        } else {
            j
        }
    } else {
        let i = choose|i: int| 0 <= i < n && candidate(m, s, i);
        assert(i == n - 1);
        n - 1
    }
}

/// Where a candidate is selected at or behind `i`, the pass shortens what is
/// left of the sequence.
proof fn lemma_pass_shortens(m: Rules, s: Seq<Token>, i: int, j: int)
    requires
        0 <= i <= j,
        selected(m, s, j),
    ensures
        merge_from(m, s, i).len() < s.len() - i,
    decreases s.len() - i,
{
    if selected(m, s, i) {
        lemma_merge_from_len(m, s, i + 2);
    } else {
        lemma_pass_shortens(m, s, i + 1, j);
    }
}

/// Merging stops only where a full scan finds no pair with a rule: in what
/// encoding returns, no rule applies any more.
pub proof fn law_merge_settled(m: Rules, s: Seq<Token>)
    ensures
        settled(m, merge_all(m, s)),
    decreases s.len(),
{
    let next = merge_pass(m, s);
    if next.len() < s.len() {
        law_merge_settled(m, next);
        assert(merge_all(m, s) == merge_all(m, next));
    } else {
        assert(merge_all(m, s) == s);
        if exists|i: int| candidate(m, s, i) {
            let i = choose|i: int| candidate(m, s, i);
            assert(0 <= i < s.len() && candidate(m, s, i));
            let j = least_candidate(m, s, s.len() as int);
            assert(selected(m, s, j)) by {
                if candidate(m, s, j - 1) {
                    assert(rank(m, s, j) < rank(m, s, j - 1) || (rank(m, s, j) == rank(
                        m,
                        s,
                        j - 1,
                    ) && j <= j - 1));
                }
                if candidate(m, s, j + 1) {
                    assert(rank(m, s, j) < rank(m, s, j + 1) || (rank(m, s, j) == rank(
                        m,
                        s,
                        j + 1,
                    ) && j <= j + 1));
                }
            }
            lemma_pass_shortens(m, s, 0, j);
            assert(false);
        }
        assert forall|i: int| !candidate(m, s, i) by {}
    }
}

/// The special ids of `s`, in the order in which they occur.
pub open spec fn specials_in(s: Seq<Token>, special: Seq<Token>) -> Seq<Token>
    decreases s.len(),
{
    if s.len() == 0 {
        Seq::empty()
    } else if is_special(special, s[0]) {
        seq![s[0]] + specials_in(s.drop_first(), special)
    } else {
        specials_in(s.drop_first(), special)
    }
}

/// One pass of merging neither removes nor adds a special id.
proof fn lemma_merge_from_specials(m: Rules, special: Seq<Token>, s: Seq<Token>, i: int)
    requires
        registry_wf(m, special),
        0 <= i <= s.len(),
    ensures
        specials_in(merge_from(m, s, i), special) == specials_in(
            s.subrange(i, s.len() as int),
            special,
        ),
    decreases s.len() - i,
{
    let n = s.len() as int;
    if i >= n {
        assert(s.subrange(i, n) =~= Seq::<Token>::empty());
    } else if selected(m, s, i) {
        let k = (s[i], s[i + 1]);
        assert(m.contains_key(k));
        lemma_merge_from_specials(m, special, s, i + 2);
        let out = seq![rank(m, s, i)] + merge_from(m, s, i + 2);
        assert(out.drop_first() =~= merge_from(m, s, i + 2));
        let here = s.subrange(i, n);
        let after = s.subrange(i + 1, n);
        assert(here.drop_first() =~= after);
        assert(after.drop_first() =~= s.subrange(i + 2, n));
        assert(here[0] == s[i]);
        assert(after[0] == s[i + 1]);
        assert(!is_special(special, m[k]) && !is_special(special, k.0) && !is_special(
            special,
            k.1,
        ));
        assert(out[0] == rank(m, s, i));
        assert(specials_in(out, special) == specials_in(merge_from(m, s, i + 2), special));
        assert(specials_in(after, special) == specials_in(s.subrange(i + 2, n), special));
        assert(specials_in(here, special) == specials_in(after, special));
    } else {
        lemma_merge_from_specials(m, special, s, i + 1);
        let out = seq![s[i]] + merge_from(m, s, i + 1);
        assert(out.drop_first() =~= merge_from(m, s, i + 1));
        let here = s.subrange(i, n);
        assert(here.drop_first() =~= s.subrange(i + 1, n));
        assert(here[0] == s[i]);
        assert(out[0] == s[i]);
    }
}

/// What a token that is no special id expands to holds no special id.
proof fn lemma_expand_no_special(m: Rules, special: Seq<Token>, t: Token)
    requires
        rules_wf(m),
        registry_wf(m, special),
        !is_special(special, t),
    ensures
        forall|i: int|
            0 <= i < expand(inverse(m), t).len() ==> !is_special(
                special,
                #[trigger] expand(inverse(m), t)[i],
            ),
    decreases t,
{
    let inv = inverse(m);
    if inv.contains_key(t) && inv[t].0 < t && inv[t].1 < t {
        lemma_inverse(m);
        assert(m.contains_key(inv[t]));
        lemma_expand_no_special(m, special, inv[t].0);
        lemma_expand_no_special(m, special, inv[t].1);
        let left = expand(inv, inv[t].0);
        let right = expand(inv, inv[t].1);
        assert forall|i: int| 0 <= i < (left + right).len() implies !is_special(
            special,
            #[trigger] (left + right)[i],
        ) by {
            if i < left.len() {
                assert((left + right)[i] == left[i]);
            } else {
                assert((left + right)[i] == right[i - left.len()]);
            }
        }
    }
}

/// Special tokens are atomic: merging keeps the special ids of a sequence as
/// they are, each in its place among the others, and no other token of the
/// result stands for anything that holds a special id.
pub proof fn law_special_atomic(m: Rules, special: Seq<Token>, s: Seq<Token>)
    requires
        rules_wf(m),
        registry_wf(m, special),
    ensures
        specials_in(merge_all(m, s), special) == specials_in(s, special),
        forall|i: int, j: int|
            0 <= i < merge_all(m, s).len() && !is_special(special, merge_all(m, s)[i]) && 0 <= j
                < expand(inverse(m), merge_all(m, s)[i]).len() ==> !is_special(
                special,
                #[trigger] expand(inverse(m), #[trigger] merge_all(m, s)[i])[j],
            ),
    decreases s.len(),
{
    let next = merge_pass(m, s);
    if next.len() < s.len() {
        lemma_merge_from_specials(m, special, s, 0);
        assert(s.subrange(0, s.len() as int) =~= s);
        law_special_atomic(m, special, next);
    }
    let out = merge_all(m, s);
    assert forall|i: int, j: int|
        0 <= i < out.len() && !is_special(special, out[i]) && 0 <= j < expand(
            inverse(m),
            out[i],
        ).len() implies !is_special(
        special,
        #[trigger] expand(inverse(m), #[trigger] out[i])[j],
    ) by {
        lemma_expand_no_special(m, special, out[i]);
    }
}

/// Once a new pair has been replaced by a new id throughout a sequence in
/// which no rule applied, no rule applies in the result either, the new one
/// included.
pub proof fn lemma_replace_settles(m: Rules, s: Seq<Token>, p: (Token, Token), id: Token)
    requires
        settled(m, s),
        p.0 != id,
        p.1 != id,
        forall|k: (Token, Token)| #[trigger] m.contains_key(k) ==> k.0 != id && k.1 != id,
    ensures
        settled(m.insert(p, id), replace_all(s, seq![p.0, p.1], seq![id])),
        s.len() > 0 ==> replace_all(s, seq![p.0, p.1], seq![id]).len() > 0 && (replace_all(
            s,
            seq![p.0, p.1],
            seq![id],
        )[0] == id || replace_all(s, seq![p.0, p.1], seq![id])[0] == s[0]),
    decreases s.len(),
{
    let ngram = seq![p.0, p.1];
    let m2 = m.insert(p, id);
    let out = replace_all(s, ngram, seq![id]);
    if s.len() < 2 {
        assert forall|i: int| !candidate(m2, out, i) by {}
    } else if s.subrange(0, 2) == ngram {
        let rest = s.subrange(2, s.len() as int);
        assert forall|i: int| !candidate(m, rest, i) by {
            if candidate(m, rest, i) {
                assert(candidate(m, s, i + 2));
            }
        }
        lemma_replace_settles(m, rest, p, id);
        let tail = replace_all(rest, ngram, seq![id]);
        assert(out == seq![id] + tail);
        assert forall|i: int| !candidate(m2, out, i) by {
            if candidate(m2, out, i) {
                if i == 0 {
                    assert(out[0] == id);
                    assert(m2.contains_key((out[0], out[1])));
                    if (out[0], out[1]) != p {
                        assert(m.contains_key((out[0], out[1])));
                    }
                } else {
                    assert(out[i] == tail[i - 1] && out[i + 1] == tail[i]);
                    assert(candidate(m2, tail, i - 1));
                }
            }
        }
    } else {
        let rest = s.drop_first();
        assert forall|i: int| !candidate(m, rest, i) by {
            if candidate(m, rest, i) {
                assert(candidate(m, s, i + 1));
            }
        }
        lemma_replace_settles(m, rest, p, id);
        let tail = replace_all(rest, ngram, seq![id]);
        assert(out == seq![s[0]] + tail);
        assert forall|i: int| !candidate(m2, out, i) by {
            if candidate(m2, out, i) {
                if i == 0 {
                    assert(out[0] == s[0] && out[1] == tail[0]);
                    let k = (out[0], out[1]);
                    if tail[0] == id {
                        if k != p {
                            assert(m.contains_key(k));
                        }
                    } else {
                        assert(tail[0] == rest[0] && rest[0] == s[1]);
                        assert(s.subrange(0, 2) =~= seq![s[0], s[1]]);
                        assert(k != p);
                        assert(m.contains_key(k));
                        assert(candidate(m, s, 0));
                    }
                } else {
                    assert(out[i] == tail[i - 1] && out[i + 1] == tail[i]);
                    assert(candidate(m2, tail, i - 1));
                }
            }
        }
    }
}

/// One step of training on a sequence in which no rule applies: the best
/// pair is a new one, and learning it under the next free id keeps the rules
/// and the special ids well formed, moves the next free id up by one, keeps
/// every rule that was there, and leaves a sequence below the new bound in
/// which again no rule applies.
pub proof fn lemma_train_step(m: Rules, special: Seq<Token>, s: Seq<Token>)
    requires
        rules_wf(m),
        registry_wf(m, special),
        below(s, next_id(m, special)),
        settled(m, s),
        next_id(m, special) < u32::MAX,
        best_pair(special, s) is Some,
    ensures
        ({
            let p = best_pair(special, s)->0;
            let id = next_id(m, special) as Token;
            let learned = m.insert(p, id);
            let pieces = replace_all(s, seq![p.0, p.1], seq![id]);
            &&& !m.contains_key(p)
            &&& rules_wf(learned)
            &&& registry_wf(learned, special)
            &&& next_id(learned, special) == next_id(m, special) + 1
            &&& learned.dom().len() == m.dom().len() + 1
            &&& keeps_rules(m, learned)
            &&& below(pieces, next_id(learned, special))
            &&& settled(learned, pieces)
        }),
{
    let p = best_pair(special, s)->0;
    let i = choose|i: int| is_best(special, s, i);
    assert(eligible(special, s, i));
    assert(p == pair_at(s, i));
    assert(!candidate(m, s, i));
    let id = next_id(m, special) as Token;
    lemma_learn(m, special, p);
    assert forall|k: (Token, Token)| #[trigger] m.contains_key(k) implies k.0 != id && k.1
        != id by {
        assert(m[k] < next_id(m, special));
    }
    lemma_replace_settles(m, s, p, id);
    assert(below(s, id + 1));
    assert(below(seq![id], id + 1));
    lemma_replace_all_bound(s, seq![p.0, p.1], seq![id], id + 1);
    assert(m.insert(p, id).dom() =~= m.dom().insert(p));
}

/// Training grows the rules and never drops or renumbers one. It adds at
/// most as many rules as the budget allows, and fewer only where the
/// sequence has no eligible pair left or no id is free. A budget of zero
/// changes nothing.
pub proof fn law_train_growth(m: Rules, special: Seq<Token>, s: Seq<Token>, budget: nat)
    requires
        rules_wf(m),
        registry_wf(m, special),
        below(s, next_id(m, special)),
        settled(m, s),
    ensures
        ({
            let (learned, pieces) = train_steps(m, special, s, budget);
            &&& rules_wf(learned)
            &&& registry_wf(learned, special)
            &&& below(pieces, next_id(learned, special))
            &&& settled(learned, pieces)
            &&& keeps_rules(m, learned)
            &&& m.dom().len() <= learned.dom().len() <= m.dom().len() + budget
            &&& learned.dom().len() < m.dom().len() + budget ==> (best_pair(special, pieces)
                is None || next_id(learned, special) >= u32::MAX)
            &&& budget == 0 ==> learned == m && pieces == s
        }),
    decreases budget,
{
    if budget == 0 || next_id(m, special) >= u32::MAX {
    } else {
        match best_pair(special, s) {
            None => {},
            Some(p) => {
                let id = next_id(m, special) as Token;
                lemma_train_step(m, special, s);
                let m2 = m.insert(p, id);
                let s2 = replace_all(s, seq![p.0, p.1], seq![id]);
                law_train_growth(m2, special, s2, (budget - 1) as nat);
                let learned = train_steps(m2, special, s2, (budget - 1) as nat).0;
                assert(train_steps(m, special, s, budget) == train_steps(
                    m2,
                    special,
                    s2,
                    (budget - 1) as nat,
                ));
                assert forall|k: (Token, Token)| #[trigger] m.contains_key(k) implies learned.contains_key(
                    k,
                ) && learned[k] == m[k] by {
                    assert(m2.contains_key(k) && m2[k] == m[k]);
                }
            },
        }
    }
}

/// Training can be taken up again: stopping after `first` steps and going on
/// for `second` more gives the rules and the sequence of `first + second`
/// steps in one go.
pub proof fn law_train_resume(
    m: Rules,
    special: Seq<Token>,
    s: Seq<Token>,
    first: nat,
    second: nat,
)
    ensures
        ({
            let (learned, pieces) = train_steps(m, special, s, first);
            train_steps(learned, special, pieces, second) == train_steps(
                m,
                special,
                s,
                first + second,
            )
        }),
    decreases first,
{
    if first == 0 || next_id(m, special) >= u32::MAX {
    } else {
        match best_pair(special, s) {
            None => {},
            Some(p) => {
                let id = next_id(m, special) as Token;
                law_train_resume(
                    m.insert(p, id),
                    special,
                    replace_all(s, seq![p.0, p.1], seq![id]),
                    (first - 1) as nat,
                    second,
                );
            },
        }
    }
}

/// Two training calls on one text reach what a single call with the larger
/// target reaches, wherever encoding the text with the rules of the first
/// call gives the sequence that the first call ended with.
pub proof fn law_train_twice(
    m: Rules,
    reg: Seq<(String, Token)>,
    norm: Normalizer,
    text: Seq<char>,
    first: nat,
    second: nat,
)
    requires
        encode_tokens(
            train_steps(m, ids_of(reg), encode_tokens(m, reg, norm, text), first).0,
            reg,
            norm,
            text,
        ) == train_steps(m, ids_of(reg), encode_tokens(m, reg, norm, text), first).1,
    ensures
        train_steps(
            train_steps(m, ids_of(reg), encode_tokens(m, reg, norm, text), first).0,
            ids_of(reg),
            encode_tokens(
                train_steps(m, ids_of(reg), encode_tokens(m, reg, norm, text), first).0,
                reg,
                norm,
                text,
            ),
            second,
        ) == train_steps(m, ids_of(reg), encode_tokens(m, reg, norm, text), first + second),
{
    law_train_resume(m, ids_of(reg), encode_tokens(m, reg, norm, text), first, second);
}

/// Around a special id the candidates of a sequence are those of what stands
/// before it and of what stands behind it: no rule reaches across.
proof fn lemma_selected_split(
    m: Rules,
    special: Seq<Token>,
    x: Seq<Token>,
    id: Token,
    y: Seq<Token>,
)
    requires
        registry_wf(m, special),
        is_special(special, id),
    ensures
        forall|i: int|
            0 <= i < x.len() ==> #[trigger] selected(m, x + seq![id] + y, i) == selected(m, x, i),
        forall|i: int|
            0 <= i < x.len() && selected(m, x, i) ==> #[trigger] rank(m, x + seq![id] + y, i)
                == rank(m, x, i),
        !selected(m, x + seq![id] + y, x.len() as int),
        forall|j: int|
            0 <= j < y.len() ==> #[trigger] selected(m, x + seq![id] + y, x.len() + 1 + j)
                == selected(m, y, j),
        forall|j: int|
            0 <= j < y.len() && selected(m, y, j) ==> #[trigger] rank(
                m,
                x + seq![id] + y,
                x.len() + 1 + j,
            ) == rank(m, y, j),
{
    let s = x + seq![id] + y;
    let n = x.len() as int;
    assert forall|i: int| #[trigger] candidate(m, s, i) == (if i < n {
        candidate(m, x, i)
    } else if i == n {
        false
    } else {
        candidate(m, y, i - n - 1)
    }) by {
        if 0 <= i && i + 1 < s.len() {
            let k = (s[i], s[i + 1]);
            if i + 1 < n {
                assert(s[i] == x[i] && s[i + 1] == x[i + 1]);
            } else if i == n - 1 {
                assert(s[i + 1] == id);
                if m.contains_key(k) {
                    assert(!is_special(special, k.1));
                }
            } else if i == n {
                assert(s[i] == id);
                if m.contains_key(k) {
                    assert(!is_special(special, k.0));
                }
            } else {
                assert(s[i] == y[i - n - 1] && s[i + 1] == y[i - n]);
            }
        }
    }
    assert forall|i: int| 0 <= i < n implies #[trigger] selected(m, s, i) == selected(m, x, i) by {
        assert(candidate(m, s, i) == candidate(m, x, i));
        assert(candidate(m, s, i - 1) == candidate(m, x, i - 1));
        assert(candidate(m, s, i + 1) == candidate(m, x, i + 1));
        if candidate(m, x, i) {
            assert(s[i] == x[i] && s[i + 1] == x[i + 1]);
        }
        if candidate(m, x, i - 1) {
            assert(s[i - 1] == x[i - 1] && s[i] == x[i]);
        }
        if candidate(m, x, i + 1) {
            assert(s[i + 1] == x[i + 1] && s[i + 2] == x[i + 2]);
        }
    }
    assert forall|i: int| 0 <= i < n && selected(m, x, i) implies #[trigger] rank(m, s, i) == rank(
        m,
        x,
        i,
    ) by {
        assert(s[i] == x[i] && s[i + 1] == x[i + 1]);
    }
    assert(!candidate(m, s, n));
    assert forall|j: int| 0 <= j < y.len() implies #[trigger] selected(m, s, n + 1 + j)
        == selected(m, y, j) by {
        assert(candidate(m, s, n + 1 + j) == candidate(m, y, j));
        assert(candidate(m, s, n + j) == candidate(m, y, j - 1));
        assert(candidate(m, s, n + 2 + j) == candidate(m, y, j + 1));
        if candidate(m, y, j) {
            assert(s[n + 1 + j] == y[j] && s[n + 2 + j] == y[j + 1]);
        }
        if candidate(m, y, j - 1) {
            assert(s[n + j] == y[j - 1] && s[n + 1 + j] == y[j]);
        }
        if candidate(m, y, j + 1) {
            assert(s[n + 2 + j] == y[j + 1] && s[n + 3 + j] == y[j + 2]);
        }
    }
    assert forall|j: int| 0 <= j < y.len() && selected(m, y, j) implies #[trigger] rank(
        m,
        s,
        n + 1 + j,
    ) == rank(m, y, j) by {
        assert(s[n + 1 + j] == y[j] && s[n + 2 + j] == y[j + 1]);
    }
}

/// Behind a special id a pass goes as it goes on what stands behind it.
proof fn lemma_pass_behind(
    m: Rules,
    special: Seq<Token>,
    x: Seq<Token>,
    id: Token,
    y: Seq<Token>,
    j: int,
)
    requires
        registry_wf(m, special),
        is_special(special, id),
        0 <= j <= y.len(),
    ensures
        merge_from(m, x + seq![id] + y, x.len() + 1 + j) == merge_from(m, y, j),
    decreases y.len() - j,
{
    let s = x + seq![id] + y;
    if j < y.len() {
        lemma_selected_split(m, special, x, id, y);
        assert(selected(m, s, x.len() + 1 + j) == selected(m, y, j));
        if selected(m, y, j) {
            assert(rank(m, s, x.len() + 1 + j) == rank(m, y, j));
            lemma_pass_behind(m, special, x, id, y, j + 2);
        } else {
            assert(s[x.len() + 1 + j] == y[j]);
            lemma_pass_behind(m, special, x, id, y, j + 1);
        }
    }
}

/// Up to a special id a pass goes as it goes on what stands before it, then
/// keeps the id, then goes on as on what stands behind it.
proof fn lemma_pass_before(
    m: Rules,
    special: Seq<Token>,
    x: Seq<Token>,
    id: Token,
    y: Seq<Token>,
    i: int,
)
    requires
        registry_wf(m, special),
        is_special(special, id),
        0 <= i <= x.len(),
    ensures
        merge_from(m, x + seq![id] + y, i) == merge_from(m, x, i) + seq![id] + merge_from(m, y, 0),
    decreases x.len() - i,
{
    let s = x + seq![id] + y;
    let n = x.len() as int;
    lemma_selected_split(m, special, x, id, y);
    if i == n {
        assert(s[n] == id);
        lemma_pass_behind(m, special, x, id, y, 0);
        assert(merge_from(m, x, n) =~= Seq::<Token>::empty());
        assert(merge_from(m, s, n) =~= seq![id] + merge_from(m, y, 0));
        assert(merge_from(m, x, n) + seq![id] + merge_from(m, y, 0) =~= seq![id] + merge_from(
            m,
            y,
            0,
        ));
    } else {
        assert(selected(m, s, i) == selected(m, x, i));
        if selected(m, x, i) {
            assert(rank(m, s, i) == rank(m, x, i));
            lemma_pass_before(m, special, x, id, y, i + 2);
            assert(merge_from(m, s, i) =~= merge_from(m, x, i) + seq![id] + merge_from(m, y, 0));
        } else {
            assert(s[i] == x[i]);
            lemma_pass_before(m, special, x, id, y, i + 1);
            assert(merge_from(m, s, i) =~= merge_from(m, x, i) + seq![id] + merge_from(m, y, 0));
        }
    }
}

/// A pass that does not shorten what is left of a sequence changes nothing.
proof fn lemma_pass_idle(m: Rules, s: Seq<Token>, i: int)
    requires
        0 <= i <= s.len(),
        merge_from(m, s, i).len() >= s.len() - i,
    ensures
        merge_from(m, s, i) == s.subrange(i, s.len() as int),
    decreases s.len() - i,
{
    if i < s.len() {
        if selected(m, s, i) {
            lemma_merge_from_len(m, s, i + 2);
        } else {
            lemma_merge_from_len(m, s, i + 1);
            lemma_pass_idle(m, s, i + 1);
            assert(seq![s[i]] + s.subrange(i + 1, s.len() as int) =~= s.subrange(
                i,
                s.len() as int,
            ));
        }
    } else {
        assert(s.subrange(i, s.len() as int) =~= Seq::<Token>::empty());
    }
}

/// Merging never reaches across a special id: what stands before it and what
/// stands behind it are merged each for itself, and the id stays between.
pub proof fn law_merge_around_special(
    m: Rules,
    special: Seq<Token>,
    x: Seq<Token>,
    id: Token,
    y: Seq<Token>,
)
    requires
        registry_wf(m, special),
        is_special(special, id),
    ensures
        merge_all(m, x + seq![id] + y) == merge_all(m, x) + seq![id] + merge_all(m, y),
    decreases x.len() + y.len(),
{
    let s = x + seq![id] + y;
    let px = merge_pass(m, x);
    let py = merge_pass(m, y);
    lemma_pass_before(m, special, x, id, y, 0);
    lemma_merge_from_len(m, x, 0);
    lemma_merge_from_len(m, y, 0);
    assert(merge_pass(m, s) == px + seq![id] + py);
    if px.len() < x.len() || py.len() < y.len() {
        law_merge_around_special(m, special, px, id, py);
        if px.len() >= x.len() {
            lemma_pass_idle(m, x, 0);
            assert(x.subrange(0, x.len() as int) =~= x);
        }
        if py.len() >= y.len() {
            lemma_pass_idle(m, y, 0);
            assert(y.subrange(0, y.len() as int) =~= y);
        }
        assert(merge_all(m, px) == merge_all(m, x));
        assert(merge_all(m, py) == merge_all(m, y));
    }
}

/// Where the n-gram occurs nowhere, replacing it changes nothing.
pub proof fn lemma_replace_none(s: Seq<Token>, ngram: Seq<Token>, rep: Seq<Token>)
    requires
        forall|at: int| !occurs_at(s, ngram, at),
    ensures
        replace_all(s, ngram, rep) == s,
    decreases s.len(),
{
    if ngram.len() == 0 || s.len() < ngram.len() {
    } else {
        assert(!occurs_at(s, ngram, 0));
        let rest = s.drop_first();
        assert forall|at: int| !occurs_at(rest, ngram, at) by {
            if occurs_at(rest, ngram, at) {
                assert(rest.subrange(at, at + ngram.len()) =~= s.subrange(
                    at + 1,
                    at + 1 + ngram.len(),
                ));
                assert(occurs_at(s, ngram, at + 1));
            }
        }
        lemma_replace_none(rest, ngram, rep);
        assert(seq![s[0]] + rest =~= s);
    }
}

/// Where the n-gram occurs first behind `x`, replacing leaves `x` as it is,
/// puts the replacement next, and goes on in what follows.
pub proof fn lemma_replace_first(x: Seq<Token>, ngram: Seq<Token>, rep: Seq<Token>, y: Seq<Token>)
    requires
        ngram.len() > 0,
        forall|at: int| 0 <= at < x.len() ==> !occurs_at(x + ngram + y, ngram, at),
    ensures
        replace_all(x + ngram + y, ngram, rep) == x + rep + replace_all(y, ngram, rep),
    decreases x.len(),
{
    let s = x + ngram + y;
    let k = ngram.len() as int;
    if x.len() == 0 {
        assert(s.subrange(0, k) =~= ngram);
        assert(s.subrange(k, s.len() as int) =~= y);
        assert(x + rep + replace_all(y, ngram, rep) =~= rep + replace_all(y, ngram, rep));
    } else {
        assert(!occurs_at(s, ngram, 0));
        let rest = x.drop_first();
        assert(s.drop_first() =~= rest + ngram + y);
        assert forall|at: int| 0 <= at < rest.len() implies !occurs_at(
            rest + ngram + y,
            ngram,
            at,
        ) by {
            if occurs_at(rest + ngram + y, ngram, at) {
                assert((rest + ngram + y).subrange(at, at + k) =~= s.subrange(at + 1, at + 1 + k));
                assert(occurs_at(s, ngram, at + 1));
            }
        }
        lemma_replace_first(rest, ngram, rep, y);
        assert(s[0] == x[0]);
        assert(seq![x[0]] + (rest + rep + replace_all(y, ngram, rep)) =~= x + rep + replace_all(
            y,
            ngram,
            rep,
        ));
    }
}

/// The UTF-8 form of two texts in a row is their UTF-8 forms in a row.
pub proof fn lemma_utf8_concat(a: Seq<char>, b: Seq<char>)
    ensures
        encode_utf8(a + b) == encode_utf8(a) + encode_utf8(b),
    decreases a.len(),
{
    if a.len() == 0 {
        assert(a + b =~= b);
        assert(encode_utf8(a) + encode_utf8(b) =~= encode_utf8(b));
    } else {
        assert((a + b)[0] == a[0]);
        assert((a + b).drop_first() =~= a.drop_first() + b);
        lemma_utf8_concat(a.drop_first(), b);
        assert(encode_utf8(a + b) =~= encode_utf8(a) + encode_utf8(b));
    }
}

/// A sequence without a special id has none among its special ids, and one
/// with a special id has some.
proof fn lemma_specials_in(s: Seq<Token>, special: Seq<Token>)
    ensures
        (forall|i: int| 0 <= i < s.len() ==> !is_special(special, #[trigger] s[i])) <==> specials_in(
            s,
            special,
        ).len() == 0,
    decreases s.len(),
{
    if s.len() > 0 {
        let rest = s.drop_first();
        lemma_specials_in(rest, special);
        if forall|i: int| 0 <= i < s.len() ==> !is_special(special, #[trigger] s[i]) {
            assert(!is_special(special, s[0]));
            assert forall|i: int| 0 <= i < rest.len() implies !is_special(
                special,
                #[trigger] rest[i],
            ) by {
                assert(rest[i] == s[i + 1]);
            }
        }
        if specials_in(s, special).len() == 0 {
            assert(!is_special(special, s[0]));
            assert forall|i: int| 0 <= i < s.len() implies !is_special(
                special,
                #[trigger] s[i],
            ) by {
                if i > 0 {
                    assert(rest[i - 1] == s[i]);
                }
            }
        }
    }
}

/// What encoding makes of bytes alone: tokens that expand to those bytes
/// again, none of them a special id.
proof fn lemma_merged_bytes(m: Rules, special: Seq<Token>, bytes: Seq<u8>)
    requires
        rules_wf(m),
        registry_wf(m, special),
    ensures
        expand_seq(inverse(m), merge_all(m, widen(bytes))) == widen(bytes),
        forall|i: int|
            0 <= i < merge_all(m, widen(bytes)).len() ==> !is_special(
                special,
                #[trigger] merge_all(m, widen(bytes))[i],
            ),
{
    let inv = inverse(m);
    let s = widen(bytes);
    lemma_merge_all_expansion(m, s);
    lemma_inverse(m);
    assert(!expandable(inv, s)) by {
        if expandable(inv, s) {
            let i = choose|i: int| 0 <= i < s.len() && inv.contains_key(#[trigger] s[i]);
            assert(s[i] < FIRST_ID);
        }
    }
    lemma_expand_fixed(inv, s);
    assert forall|i: int| 0 <= i < s.len() implies !is_special(special, #[trigger] s[i]) by {
        if is_special(special, s[i]) {
            let j = choose|j: int| 0 <= j < special.len() && special[j] == s[i];
            assert(FIRST_ID <= special[j]);
        }
    }
    lemma_specials_in(s, special);
    law_special_atomic(m, special, s);
    lemma_specials_in(merge_all(m, s), special);
}

/// A registered literal that stands once in a text becomes one token between
/// the tokens of what stands before it and of what stands behind it: the
/// encoding is that of the text before, then the id, then that of the text
/// behind. Each part expands to its own bytes, and the id occurs nowhere else.
pub proof fn law_special_between(
    m: Rules,
    reg: Seq<(String, Token)>,
    norm: Normalizer,
    text: Seq<char>,
    a: Seq<char>,
    b: Seq<char>,
)
    requires
        rules_wf(m),
        registry_wf(m, ids_of(reg)),
        reg.len() == 1,
        literal_tokens(reg[0].0@).len() > 0,
        norm.normalized(text) == a + reg[0].0@ + b,
        forall|at: int|
            0 <= at < encode_utf8(a).len() ==> !occurs_at(
                widen(encode_utf8(a)) + literal_tokens(reg[0].0@) + widen(encode_utf8(b)),
                literal_tokens(reg[0].0@),
                at,
            ),
        forall|at: int| !occurs_at(widen(encode_utf8(b)), literal_tokens(reg[0].0@), at),
    ensures
        ({
            let id = reg[0].1;
            let before = merge_all(m, widen(encode_utf8(a)));
            let behind = merge_all(m, widen(encode_utf8(b)));
            &&& encode_tokens(m, reg, norm, text) == before + seq![id] + behind
            &&& expand_seq(inverse(m), before) == widen(encode_utf8(a))
            &&& expand_seq(inverse(m), behind) == widen(encode_utf8(b))
            &&& !before.contains(id)
            &&& !behind.contains(id)
        }),
{
    let word = reg[0].0@;
    let id = reg[0].1;
    let special = ids_of(reg);
    let literal = literal_tokens(word);
    let wa = widen(encode_utf8(a));
    let wb = widen(encode_utf8(b));
    lemma_utf8_concat(a + word, b);
    lemma_utf8_concat(a, word);
    let bytes = encode_utf8(a + word + b);
    assert(widen(bytes) =~= wa + literal + wb);
    assert(reg.drop_last() =~= Seq::<(String, Token)>::empty());
    assert(reg.last() == reg[0]);
    assert(replace_specials(widen(bytes), reg.drop_last()) == widen(bytes));
    lemma_replace_first(wa, literal, seq![id], wb);
    lemma_replace_none(wb, literal, seq![id]);
    assert(replace_specials(widen(bytes), reg) == wa + seq![id] + wb);
    assert(special[0] == id);
    assert(is_special(special, id));
    law_merge_around_special(m, special, wa, id, wb);
    lemma_merged_bytes(m, special, encode_utf8(a));
    lemma_merged_bytes(m, special, encode_utf8(b));
    let before = merge_all(m, wa);
    let behind = merge_all(m, wb);
    assert(!before.contains(id)) by {
        if before.contains(id) {
            let i = choose|i: int| 0 <= i < before.len() && before[i] == id;
            assert(!is_special(special, before[i]));
        }
    }
    assert(!behind.contains(id)) by {
        if behind.contains(id) {
            let i = choose|i: int| 0 <= i < behind.len() && behind[i] == id;
            assert(!is_special(special, behind[i]));
        }
    }
}

} // verus!
