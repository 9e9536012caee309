use toktkn::preproc::{DefaultNormalizer, Normalize, Normalizer};

fn normal(text: &str) -> String {
    let mut owned = text.to_string();
    DefaultNormalizer.normalize(&mut owned);
    owned
}

#[test]
fn default_normalizer_collapses_runs_of_blanks() {
    assert_eq!(normal("a  b"), "a b");
    assert_eq!(normal("a \t b"), "a b");
    assert_eq!(normal("a\t  b"), "a\tb");
    assert_eq!(normal("a b"), "a b");
}

#[test]
fn default_normalizer_drops_leading_blanks_and_keeps_one_at_the_end() {
    assert_eq!(normal("   a"), "a");
    assert_eq!(normal("\ta"), "a");
    assert_eq!(normal("a   "), "a ");
    assert_eq!(normal("   "), "");
    assert_eq!(normal(""), "");
}

#[test]
fn default_normalizer_leaves_other_characters() {
    assert_eq!(normal("a\n\nb"), "a\n\nb");
    assert_eq!(normal("ünï  cödé"), "ünï cödé");
    assert_eq!(normal("Ġ Ġ"), "Ġ Ġ");
    assert_eq!(normal(" Ġĉ"), "Ġĉ");
}

#[test]
fn is_whitespace_knows_space_and_tab() {
    assert!(DefaultNormalizer.is_whitespace(b' '));
    assert!(DefaultNormalizer.is_whitespace(b'\t'));
    assert!(!DefaultNormalizer.is_whitespace(b'\n'));
    assert!(!DefaultNormalizer.is_whitespace(b'a'));
}

#[test]
fn normalizer_names_its_strategy() {
    assert_eq!(Normalizer::default(), Normalizer::WhitespaceOnly);
    let mut text = String::from("x   y");
    Normalizer::WhitespaceOnly.into_strategy().normalize(&mut text);
    assert_eq!(text, "x y");
    let mut text = String::from("x   y");
    Normalizer::WhitespaceOnly.normalize(&mut text);
    assert_eq!(text, "x y");
}
