use fake::faker::lorem::en::{Paragraph, Sentence};
use fake::Fake;
use toktkn::config::TokenizerConfig;
use toktkn::{BPETokenizer, Tokenizer, TokenizerError};

fn get_corpus() -> String {
    let corpus: String = Paragraph(100..201).fake();
    corpus
}

fn get_sentence() -> String {
    let sentence: String = Sentence(10..50).fake();
    sentence
}

fn words(list: Vec<&str>) -> Vec<String> {
    list.into_iter().map(String::from).collect()
}

#[test]
fn test_tokenizer_test_encode_decode() {
    let tok = BPETokenizer::new(TokenizerConfig::new(1, None).unwrap());

    let text = String::from("this is an example. ðŸ˜Ž");
    assert_eq!(
        text,
        tok.decode(&tok.encode(&text)).unwrap(),
        "tokenize/detokenize should be inverse operations"
    );
}

#[test]
fn test_compression() {
    let tok = BPETokenizer::new(TokenizerConfig::new(1, None).unwrap());

    let text = String::from("this is an example. ðŸ˜Ž");

    assert!(
        text.len() >= tok.encode(&text).len(),
        "tokenized sequence should be shorter or equal to original"
    );
}

#[test]
fn test_restart_train_works() {
    let mut tok = BPETokenizer::new(TokenizerConfig::new(256 + 50, None).unwrap());

    let corpus: String = Paragraph(100..101).fake();

    tok.train(&corpus).unwrap();
    assert!(tok.len() == 256 + 50, "encoder size does not match vocab_size");
    assert_eq!(tok.encoder.len(), 50);

    tok.config.vocab_size = 256 + 75;
    tok.train(&corpus).unwrap();
    assert!(tok.len() == 256 + 75, "encoder size does not match vocab_size");
    assert_eq!(tok.encoder.len(), 75);
}

#[test]
fn tokenizer_test_encode_decode() {
    let config = TokenizerConfig::new(256 + 42, None).unwrap();
    let mut tok = BPETokenizer::new(config);

    tok.train(&get_corpus()).unwrap();

    let text = get_sentence();
    let encoded = tok.encode(&text);

    assert!(text.len() >= encoded.len(),);
    assert_eq!(text, tok.decode(&encoded).unwrap(),);
}

#[test]
fn test_train_works() {
    let config = TokenizerConfig::new(256 + 42, None).unwrap();
    let mut tok = BPETokenizer::new(config);

    let corpus = get_corpus();

    tok.train(&corpus).unwrap();
    assert!(tok.len() == tok.config.vocab_size);
    assert_eq!(tok.encoder.len(), 42);
}

#[test]
fn test_special_tokens_map() {
    let config = TokenizerConfig::new(256 + 10, None).unwrap();
    let mut tok = BPETokenizer::new(config);

    let special_tokens = words(vec!["<s>", "hello", "world", "</s>"]);
    tok.add_special_tokens(special_tokens);

    assert_eq!(tok.len(), 256 + 4);
    assert_eq!(
        tok.config.special_tokens_map,
        Some(vec![
            ("<s>".to_string(), 256),
            ("hello".to_string(), 257),
            ("world".to_string(), 258),
            ("</s>".to_string(), 259)
        ])
    );

    let corpus = get_corpus();
    tok.train(&corpus).unwrap();
    assert_eq!(tok.len(), 256 + 10);
    assert_eq!(tok.encoder.len(), 6);
}

#[test]
fn test_special_tokens_doesnt_break_encoding() {
    let config = TokenizerConfig::new(256 + 10, None).unwrap();
    let mut tok = BPETokenizer::new(config);

    let special_tokens = words(vec!["<s>", "hello", "world", "</s>"]);
    tok.add_special_tokens(special_tokens);

    let corpus = get_corpus();
    tok.train(&corpus).unwrap();

    let mut sample = String::from("hello hello world <s></s> some more text goes here");
    sample += &get_sentence();
    assert_eq!(tok.decode(&tok.encode(&sample)).unwrap(), sample);
}

#[test]
fn config_refuses_a_vocabulary_size_of_zero() {
    assert_eq!(
        TokenizerConfig::new(0, None).err(),
        Some(TokenizerError::InvalidConfiguration)
    );
    let config = TokenizerConfig::new(7, None).unwrap();
    assert_eq!(config.vocab_size, 7);
    assert_eq!(config.special_tokens_map, None);
}

#[test]
fn new_tokenizer_is_empty() {
    let tok = BPETokenizer::new(TokenizerConfig::new(3, None).unwrap());
    assert_eq!(tok.len(), 256);
    assert!(tok.encoder.is_empty());
    assert!(tok.decoder.is_none());
    assert_eq!(tok.encode("abc"), vec![97, 98, 99]);
    assert_eq!(tok.decode(&[97, 98, 99]).unwrap(), "abc");
    assert_eq!(tok.encode(""), Vec::<u32>::new());
    assert_eq!(tok.decode(&[]).unwrap(), "");
}

#[test]
fn train_learns_the_three_expected_merges() {
    let mut tok = BPETokenizer::new(TokenizerConfig::new(256 + 3, None).unwrap());
    let pieces = tok.train("aaabdaaabac").unwrap();

    assert_eq!(tok.len(), 256 + 3);
    assert_eq!(tok.encoder.len(), 3);
    assert_eq!(tok.encoder.get(&(97, 97)), Some(&256));
    assert_eq!(tok.encoder.get(&(256, 97)), Some(&257));
    assert_eq!(tok.encoder.get(&(257, 98)), Some(&258));
    assert_eq!(pieces, vec![258, 100, 258, 97, 99]);
    assert_eq!(tok.encode("aaabdaaabac"), vec![258, 100, 258, 97, 99]);
    assert_eq!(
        tok.decode(&tok.encode("aaabdaaabac")).unwrap(),
        "aaabdaaabac"
    );
    assert_eq!(
        tok.vocabulary(),
        vec![(256, (97, 97)), (257, (256, 97)), (258, (257, 98))]
    );
}

#[test]
fn train_breaks_ties_by_the_first_pair_from_the_left() {
    let mut tok = BPETokenizer::new(TokenizerConfig::new(257, None).unwrap());
    let pieces = tok.train("abcdab cd").unwrap();
    assert_eq!(tok.encoder.get(&(97, 98)), Some(&256));
    assert_eq!(tok.len(), 257);
    assert_eq!(pieces, vec![256, 99, 100, 256, 32, 99, 100]);
}

#[test]
fn train_counts_overlapping_pairs() {
    let mut tok = BPETokenizer::new(TokenizerConfig::new(257, None).unwrap());
    let pieces = tok.train("bcbcaaaa").unwrap();
    assert_eq!(tok.encoder.get(&(97, 97)), Some(&256));
    assert_eq!(pieces, vec![98, 99, 98, 99, 256, 256]);
}

#[test]
fn train_stops_when_the_corpus_is_used_up() {
    let mut tok = BPETokenizer::new(TokenizerConfig::new(356, None).unwrap());
    let pieces = tok.train("abab").unwrap();
    assert_eq!(pieces, vec![257]);
    assert_eq!(tok.len(), 258);

    let mut short = BPETokenizer::new(TokenizerConfig::new(261, None).unwrap());
    assert_eq!(short.train("a").unwrap(), vec![97]);
    assert_eq!(short.len(), 256);
    assert_eq!(short.train("").unwrap(), Vec::<u32>::new());
    assert_eq!(short.len(), 256);
}

#[test]
fn train_with_a_target_already_met_changes_no_rule() {
    let mut tok = BPETokenizer::new(TokenizerConfig::new(258, None).unwrap());
    tok.train("aaabdaaabac").unwrap();
    let before = tok.vocabulary();
    assert_eq!(before.len(), 2);

    let pieces = tok.train("aaabdaaabac").unwrap();
    assert_eq!(tok.vocabulary(), before);
    assert_eq!(pieces, tok.encode("aaabdaaabac"));

    tok.config.vocab_size = 257;
    tok.train("xyzxyzxyz").unwrap();
    assert_eq!(tok.vocabulary(), before);

    tok.config.vocab_size = 42;
    tok.train("xyzxyzxyz").unwrap();
    assert_eq!(tok.vocabulary(), before);
    assert_eq!(tok.len(), 258);
}

#[test]
fn train_towards_a_target_within_the_bytes_learns_nothing() {
    let mut tok = BPETokenizer::new(TokenizerConfig::new(256, None).unwrap());
    assert_eq!(tok.train("aaabdaaabac").unwrap().len(), 11);
    assert!(tok.encoder.is_empty());
    assert_eq!(tok.len(), 256);
}

#[test]
fn train_refuses_a_target_of_zero_and_changes_nothing() {
    let mut tok = BPETokenizer::new(TokenizerConfig::new(258, None).unwrap());
    tok.train("aaabdaaabac").unwrap();
    let before = tok.vocabulary();

    tok.config.vocab_size = 0;
    assert_eq!(
        tok.train("aaabdaaabac").err(),
        Some(TokenizerError::InvalidConfiguration)
    );
    assert_eq!(tok.vocabulary(), before);
    assert_eq!(tok.len(), 258);
}

#[test]
fn train_rebuilds_the_inverse_table() {
    let mut tok = BPETokenizer::new(TokenizerConfig::new(258, None).unwrap());
    tok.train("aaabdaaabac").unwrap();
    let decoder = tok.decoder.as_ref().unwrap();
    assert_eq!(decoder.len(), 2);
    assert_eq!(decoder.get(&256), Some(&(97, 97)));
    assert_eq!(decoder.get(&257), Some(&(256, 97)));
}

#[test]
fn training_resumes_from_the_rules_at_hand() {
    let corpus = "the cat sat on the mat. the cat ate the rat.";
    let mut once = BPETokenizer::new(TokenizerConfig::new(262, None).unwrap());
    once.train(corpus).unwrap();

    let mut twice = BPETokenizer::new(TokenizerConfig::new(259, None).unwrap());
    twice.train(corpus).unwrap();
    let shared = twice.vocabulary();
    twice.config.vocab_size = 262;
    twice.train(corpus).unwrap();

    assert_eq!(twice.len(), 262);
    assert_eq!(&twice.vocabulary()[..3], &shared[..]);
    assert_eq!(twice.vocabulary(), once.vocabulary());
}

#[test]
fn retraining_may_part_from_a_single_run_where_encoding_differs() {
    let corpus = "aaabababaa";
    let mut once = BPETokenizer::new(TokenizerConfig::new(260, None).unwrap());
    let single = once.train(corpus).unwrap();
    assert_eq!(single, vec![259, 257, 256]);

    let mut twice = BPETokenizer::new(TokenizerConfig::new(259, None).unwrap());
    let first = twice.train(corpus).unwrap();
    assert_eq!(first, vec![256, 258, 257, 256]);
    assert_eq!(twice.encode(corpus), vec![256, 257, 258, 256]);

    twice.config.vocab_size = 260;
    twice.train(corpus).unwrap();
    assert_eq!(twice.len(), 260);
    assert_eq!(&twice.vocabulary()[..3], &once.vocabulary()[..3]);
    assert_eq!(once.encoder.get(&(256, 258)), Some(&259));
    assert_eq!(twice.encoder.get(&(256, 257)), Some(&259));
}

#[test]
fn encode_prefers_the_rule_learned_first() {
    let tok = BPETokenizer::from_vocabulary(
        TokenizerConfig::new(2, None).unwrap(),
        vec![(256, (98, 99)), (257, (97, 98))],
    )
    .unwrap();
    assert_eq!(tok.encode("abc"), vec![97, 256]);

    let tok = BPETokenizer::from_vocabulary(
        TokenizerConfig::new(2, None).unwrap(),
        vec![(256, (97, 98)), (257, (98, 99))],
    )
    .unwrap();
    assert_eq!(tok.encode("abc"), vec![256, 99]);
}

#[test]
fn encode_gives_equal_neighbours_to_the_left() {
    let tok = BPETokenizer::from_vocabulary(
        TokenizerConfig::new(1, None).unwrap(),
        vec![(256, (97, 97))],
    )
    .unwrap();
    assert_eq!(tok.encode("aaa"), vec![256, 97]);
    assert_eq!(tok.encode("aaaa"), vec![256, 256]);
    assert_eq!(tok.encode("aaaaa"), vec![256, 256, 97]);
    assert_eq!(tok.decode(&tok.encode("aaaaa")).unwrap(), "aaaaa");
}

#[test]
fn encode_defers_a_beaten_neighbour_to_the_next_pass() {
    let tok = BPETokenizer::from_vocabulary(
        TokenizerConfig::new(3, None).unwrap(),
        vec![(256, (97, 98)), (257, (98, 99)), (258, (99, 100))],
    )
    .unwrap();
    assert_eq!(tok.encode("abcd"), vec![256, 258]);
}

#[test]
fn encode_normalises_before_it_takes_the_bytes() {
    let tok = BPETokenizer::new(TokenizerConfig::new(1, None).unwrap());
    assert_eq!(tok.encode("a  b"), vec![97, 32, 98]);
    assert_eq!(tok.encode("  a \t b"), vec![97, 32, 98]);
    assert_eq!(tok.decode(&tok.encode("a  b")).unwrap(), "a b");
}

#[test]
fn encode_is_never_longer_than_the_bytes() {
    let mut tok = BPETokenizer::new(TokenizerConfig::new(276, None).unwrap());
    tok.add_special_tokens(words(vec!["<eos>"]));
    tok.train("low lower lowest newer newest wide wider widest").unwrap();
    for text in ["", "a", "lowest<eos>", "newest widest", "ünïcödé", "  \t  "] {
        assert!(tok.encode(text).len() <= text.len());
    }
}

#[test]
fn round_trip_holds_before_and_after_training() {
    let texts = ["", "a", "hello world", "ünïcödé ☃ text", "tabs\tand\nlines", "aaaa bbbb"];
    let mut tok = BPETokenizer::new(TokenizerConfig::new(261, None).unwrap());
    for text in texts {
        assert_eq!(tok.decode(&tok.encode(text)).unwrap(), text);
    }
    tok.train("hello hello world ünï ünï aaaa").unwrap();
    for text in texts {
        assert_eq!(tok.decode(&tok.encode(text)).unwrap(), text);
    }
    tok.add_special_tokens(words(vec!["<s>"]));
    tok.config.vocab_size = 268;
    tok.train("hello hello world ünï ünï aaaa<s>bbbb<s>").unwrap();
    assert_eq!(tok.len(), 268);
    for text in texts {
        assert_eq!(tok.decode(&tok.encode(text)).unwrap(), text);
    }
    assert_eq!(tok.decode(&tok.encode("a<s>b")).unwrap(), "a<s>b");
}

#[test]
fn decode_refuses_what_is_no_text() {
    let tok = BPETokenizer::new(TokenizerConfig::new(1, None).unwrap());
    assert_eq!(tok.decode(&[0xff]).err(), Some(TokenizerError::InvalidEncoding));
    assert_eq!(tok.decode(&[0xc3]).err(), Some(TokenizerError::InvalidEncoding));
    assert_eq!(tok.decode(&[0xc3, 0xb0]).unwrap(), "ð");
    assert_eq!(tok.decode(&[97, 300]).err(), Some(TokenizerError::InvalidEncoding));
    assert_eq!(tok._decode_chunk(&[97, 300]), None);
    assert_eq!(tok._decode_chunk(&[97, 0xff]), Some(vec![97, 0xff]));
}

#[test]
fn decode_expands_nested_rules() {
    let tok = BPETokenizer::from_vocabulary(
        TokenizerConfig::new(3, None).unwrap(),
        vec![(256, (97, 98)), (257, (256, 99)), (258, (257, 257))],
    )
    .unwrap();
    assert_eq!(tok.decode(&[258, 256, 100]).unwrap(), "abcabcabd");
    assert_eq!(tok._decode_chunk(&[257]), Some(vec![97, 98, 99]));
}

#[test]
fn decode_works_without_a_cached_inverse_table() {
    let mut tok = BPETokenizer::new(TokenizerConfig::new(259, None).unwrap());
    tok.train("aaabdaaabac").unwrap();
    tok.decoder = None;
    assert_eq!(tok.decode(&[258, 100, 258, 97, 99]).unwrap(), "aaabdaaabac");
    tok._sync_decoder();
    assert_eq!(tok.decoder.as_ref().unwrap().get(&258), Some(&(257, 98)));
    assert_eq!(tok.decode(&[258, 100, 258, 97, 99]).unwrap(), "aaabdaaabac");
}

#[test]
fn special_token_stays_one_token() {
    let mut tok = BPETokenizer::new(TokenizerConfig::new(4, None).unwrap());
    tok.add_special_tokens(words(vec!["<pad>"]));
    let id = tok.config.special_tokens_map.as_ref().unwrap()[0].1;
    assert_eq!(id, 256);

    let encoded = tok.encode("x<pad>y");
    assert_eq!(encoded, vec![120, id, 121]);
    assert_eq!(tok.decode(&encoded).unwrap(), "x<pad>y");
}

#[test]
fn no_rule_is_learned_or_applied_across_a_special_token() {
    let mut tok = BPETokenizer::new(TokenizerConfig::new(262, None).unwrap());
    tok.add_special_tokens(words(vec!["<s>"]));
    let pieces = tok.train("a<s>a<s>a<s>a<s>").unwrap();
    assert_eq!(pieces, vec![97, 256, 97, 256, 97, 256, 97, 256]);
    assert_eq!(tok.len(), 257);
    assert!(tok.encoder.is_empty());

    tok.train("ab<s>ab<s>ab").unwrap();
    assert_eq!(tok.encoder.get(&(97, 98)), Some(&257));
    assert_eq!(tok.len(), 258);
    for (pair, _) in tok.encoder.iter() {
        assert!(pair.0 != 256 && pair.1 != 256);
    }
    assert_eq!(tok.encode("ab<s>ab"), vec![257, 256, 257]);
    assert_eq!(tok.decode(&[257, 256, 257]).unwrap(), "ab<s>ab");
}

#[test]
fn registering_again_keeps_the_ids() {
    let mut tok = BPETokenizer::new(TokenizerConfig::new(4, None).unwrap());
    assert_eq!(tok.add_special_tokens(words(vec!["<a>", "<b>"])), vec![256, 257]);
    assert_eq!(
        tok.add_special_tokens(words(vec!["<b>", "<c>", "<a>", "<c>"])),
        vec![257, 258, 256, 258]
    );
    assert_eq!(
        tok.config.special_tokens_map,
        Some(vec![
            ("<a>".to_string(), 256),
            ("<b>".to_string(), 257),
            ("<c>".to_string(), 258)
        ])
    );
    assert_eq!(tok.len(), 259);
    assert_eq!(tok.add_special_tokens(Vec::new()), Vec::<u32>::new());
    assert_eq!(tok.len(), 259);
}

#[test]
fn ids_come_from_one_counter() {
    let mut tok = BPETokenizer::new(TokenizerConfig::new(258, None).unwrap());
    tok.train("aaabdaaabac").unwrap();
    tok.add_special_tokens(words(vec!["<s>"]));
    assert_eq!(
        tok.config.special_tokens_map,
        Some(vec![("<s>".to_string(), 258)])
    );
    tok.config.vocab_size = 260;
    tok.train("aaabdaaabac").unwrap();
    assert_eq!(tok.encoder.get(&(257, 98)), Some(&259));
    assert_eq!(tok.len(), 260);
}

#[test]
fn preprocess_normalises_in_place() {
    let tok = BPETokenizer::new(TokenizerConfig::new(1, None).unwrap());
    let mut text = String::from("  too   many\t\tblanks ");
    tok.preprocess(&mut text);
    assert_eq!(text, "too many\tblanks ");
}
