use toktkn::util::{inject_special_tokens, literal_ngram, ngram_replace, replace_special_tokens};

fn registry(list: Vec<(&str, u32)>) -> Vec<(String, u32)> {
    list.into_iter().map(|(w, id)| (w.to_string(), id)).collect()
}

#[test]
fn ngram_replace_takes_leftmost_occurrences_that_do_not_overlap() {
    let mut tokens = vec![1, 1, 1, 2, 1, 1, 1, 1];
    ngram_replace(&mut tokens, &[1, 1], &[9]);
    assert_eq!(tokens, vec![9, 1, 2, 9, 9]);
}

#[test]
fn ngram_replace_does_not_match_what_it_put_in() {
    let mut tokens = vec![1, 2, 2];
    ngram_replace(&mut tokens, &[1, 2], &[1]);
    assert_eq!(tokens, vec![1, 2]);
}

#[test]
fn ngram_replace_can_lengthen_and_delete() {
    let mut tokens = vec![5, 6, 5];
    ngram_replace(&mut tokens, &[5], &[7, 8, 9]);
    assert_eq!(tokens, vec![7, 8, 9, 6, 7, 8, 9]);

    ngram_replace(&mut tokens, &[7, 8], &[]);
    assert_eq!(tokens, vec![9, 6, 9]);
}

#[test]
fn ngram_replace_leaves_short_and_unmatched_input() {
    let mut tokens = vec![1];
    ngram_replace(&mut tokens, &[1, 2], &[3]);
    assert_eq!(tokens, vec![1]);

    let mut empty: Vec<u32> = Vec::new();
    ngram_replace(&mut empty, &[1], &[3]);
    assert_eq!(empty, Vec::<u32>::new());

    let mut tokens = vec![1, 3, 2, 1];
    ngram_replace(&mut tokens, &[1, 2], &[4]);
    assert_eq!(tokens, vec![1, 3, 2, 1]);
}

#[test]
fn ngram_replace_matches_at_the_end() {
    let mut tokens = vec![3, 1, 2];
    ngram_replace(&mut tokens, &[1, 2], &[4]);
    assert_eq!(tokens, vec![3, 4]);
}

#[test]
fn literal_ngram_is_the_bytes_of_the_word() {
    assert_eq!(literal_ngram(&"<s>".to_string()), vec![60, 115, 62]);
    assert_eq!(literal_ngram(&"ð".to_string()), vec![0xc3, 0xb0]);
    assert_eq!(literal_ngram(&String::new()), Vec::<u32>::new());
}

#[test]
fn replace_special_tokens_goes_by_the_order_of_registration() {
    let reg = registry(vec![("ab", 300), ("abc", 301), ("", 302)]);
    let mut tokens: Vec<u32> = "abcab".bytes().map(u32::from).collect();
    replace_special_tokens(&mut tokens, &reg);
    assert_eq!(tokens, vec![300, 99, 300]);

    let reg = registry(vec![("abc", 301), ("ab", 300)]);
    let mut tokens: Vec<u32> = "abcab".bytes().map(u32::from).collect();
    replace_special_tokens(&mut tokens, &reg);
    assert_eq!(tokens, vec![301, 300]);
}

#[test]
fn inject_special_tokens_puts_the_literals_back() {
    let reg = registry(vec![("<s>", 300), ("</s>", 301)]);
    let mut tokens = vec![300, 104, 105, 301, 300];
    inject_special_tokens(&mut tokens, &reg);
    let bytes: Vec<u8> = tokens.iter().map(|t| *t as u8).collect();
    assert_eq!(String::from_utf8(bytes).unwrap(), "<s>hi</s><s>");
}

#[test]
fn inject_undoes_replace_even_where_literals_overlap() {
    let reg = registry(vec![("ab", 300), ("bc", 301), ("abc", 302)]);
    let text = "abcabbcab";
    let mut tokens: Vec<u32> = text.bytes().map(u32::from).collect();
    replace_special_tokens(&mut tokens, &reg);
    assert_eq!(tokens, vec![300, 99, 300, 301, 300]);
    inject_special_tokens(&mut tokens, &reg);
    let bytes: Vec<u8> = tokens.iter().map(|t| *t as u8).collect();
    assert_eq!(String::from_utf8(bytes).unwrap(), text);
}
