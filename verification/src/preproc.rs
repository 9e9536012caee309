//! Text normalisation, applied to a text before it is turned into bytes.
use vstd::prelude::*;
use vstd::utf8::encode_utf8;

verus! {

/// `String::push`: appends one character to the end of the string.
#[verifier::external_body]
fn push_char(text: &mut String, c: char)
    ensures
        final(text)@ == old(text)@.push(c),
{
    text.push(c);
}

/// Whether a character is a space or a tab.
pub open spec fn blank(c: char) -> bool {
    c as u32 == 0x20 || c as u32 == 0x09
}

/// `text` with every blank dropped that follows a blank; `after_blank` says
/// whether a blank stands before the first character. The first blank of a
/// run stays, whichever of the two it is.
pub open spec fn collapse(text: Seq<char>, after_blank: bool) -> Seq<char>
    decreases text.len(),
{
    if text.len() == 0 {
        Seq::empty()
    } else {
        let rest = collapse(text.drop_first(), blank(text[0]));
        if blank(text[0]) && after_blank {
            rest
        } else {
            seq![text[0]] + rest
        }
    }
}

/// `text` with runs of blanks collapsed and leading blanks removed.
pub open spec fn collapse_blanks(text: Seq<char>) -> Seq<char> {
    collapse(text, true)
}

/// A normalisation strategy: a deterministic rewriting of a text.
pub trait Normalize {
    /// What `normalize` makes of `text`.
    spec fn normalized(&self, text: Seq<char>) -> Seq<char>;

    /// Rewrites `text` in place.
    fn normalize(&self, text: &mut String)
        ensures
            final(text)@ == self.normalized(old(text)@),
    ;
}

/// The normaliser that collapses runs of spaces and tabs.
pub struct DefaultNormalizer;

impl DefaultNormalizer {
    /// Whether the byte is a space or a tab.
    pub fn is_whitespace(&self, c: u8) -> (r: bool)
        ensures
            r == (c == 0x20 || c == 0x09),
    {
        c == 0x20 || c == 0x09
    }
}

impl Normalize for DefaultNormalizer {
    open spec fn normalized(&self, text: Seq<char>) -> Seq<char> {
        collapse_blanks(text)
    }

    fn normalize(&self, text: &mut String) {
        let mut out = String::new();
        let mut after_blank = true;
        assert(text@.subrange(0, text@.len() as int) =~= text@);
        assert(out@ + collapse(text@, true) =~= collapse_blanks(text@));
        for c in it: text.chars()
            invariant
                it.seq() == text@,
                collapse_blanks(text@) == out@ + collapse(
                    text@.subrange(it.index() as int, text@.len() as int),
                    after_blank,
                ),
        {
            let ghost i = it.index() as int;
            let ghost rest = text@.subrange(i, text@.len() as int);
            let ghost before = out@;
            assert(rest.drop_first() =~= text@.subrange(i + 1, text@.len() as int));
            assert(rest[0] == c);
            let code = c as u32;
            let is_blank = code < 128 && self.is_whitespace(code as u8);
            assert(is_blank == blank(c));
            if !(is_blank && after_blank) {
                push_char(&mut out, c);
                assert(out@ =~= before + seq![c]);
            }
            assert(out@ + collapse(rest.drop_first(), is_blank) =~= before + collapse(
                rest,
                after_blank,
            ));
            after_blank = is_blank;
        }
        assert(text@.subrange(text@.len() as int, text@.len() as int) =~= Seq::<char>::empty());
        assert(out@ + Seq::<char>::empty() =~= out@);
        *text = out;
    }
}

/// The normalisers that a configuration can name.
#[derive(Clone, Copy, Debug, PartialEq, Eq, Structural)]
pub enum Normalizer {
    /// Collapses runs of spaces and tabs.
    WhitespaceOnly,
}

impl Normalize for Normalizer {
    open spec fn normalized(&self, text: Seq<char>) -> Seq<char> {
        match self {
            Normalizer::WhitespaceOnly => collapse_blanks(text),
        }
    }

    fn normalize(&self, text: &mut String) {
        match self {
            Normalizer::WhitespaceOnly => DefaultNormalizer.normalize(text),
        }
    }
}

impl Normalizer {
    /// The strategy that this variant names.
    pub fn into_strategy(&self) -> (strategy: DefaultNormalizer)
        ensures
            forall|text: Seq<char>| #[trigger]
                strategy.normalized(text) == self.normalized(text),
    {
        match self {
            Normalizer::WhitespaceOnly => DefaultNormalizer,
        }
    }
}

impl Default for Normalizer {
    fn default() -> (r: Self)
        ensures
            r == Normalizer::WhitespaceOnly,
    {
        Normalizer::WhitespaceOnly
    }
}

/// Collapsing blanks never makes the UTF-8 form of a text longer.
pub proof fn lemma_collapse_shortens(text: Seq<char>, after_blank: bool)
    ensures
        encode_utf8(collapse(text, after_blank)).len() <= encode_utf8(text).len(),
    decreases text.len(),
{
    if text.len() > 0 {
        let rest = collapse(text.drop_first(), blank(text[0]));
        lemma_collapse_shortens(text.drop_first(), blank(text[0]));
        if !(blank(text[0]) && after_blank) {
            assert((seq![text[0]] + rest).drop_first() =~= rest);
        }
    }
}

} // verus!
