use toktkn::config::TokenizerConfig;
use toktkn::preproc::Normalizer;
use toktkn::pretrained::registry_by_id;
use toktkn::{BPETokenizer, Tokenizer, TokenizerError};

fn config_with(special: Vec<(&str, u32)>) -> TokenizerConfig {
    TokenizerConfig {
        vocab_size: 10,
        special_tokens_map: Some(
            special
                .into_iter()
                .map(|(w, id)| (w.to_string(), id))
                .collect(),
        ),
        preproc: Normalizer::WhitespaceOnly,
    }
}

fn refused(config: TokenizerConfig, vocabulary: Vec<(u32, (u32, u32))>) -> bool {
    BPETokenizer::from_vocabulary(config, vocabulary).err()
        == Some(TokenizerError::PersistenceFailure)
}

#[test]
fn stored_vocabulary_is_taken_over() {
    let tok = BPETokenizer::from_vocabulary(
        config_with(vec![("<s>", 257)]),
        vec![(258, (256, 99)), (256, (97, 98))],
    )
    .unwrap();
    assert_eq!(tok.len(), 259);
    assert_eq!(tok.encoder.get(&(97, 98)), Some(&256));
    assert_eq!(tok.encoder.get(&(256, 99)), Some(&258));
    assert_eq!(tok.decoder.as_ref().unwrap().get(&258), Some(&(256, 99)));
    assert_eq!(tok.encode("abc<s>ab"), vec![258, 257, 256]);
    assert_eq!(tok.decode(&[258, 257, 256]).unwrap(), "abc<s>ab");
    assert_eq!(tok.vocabulary(), vec![(256, (97, 98)), (258, (256, 99))]);
}

#[test]
fn stored_vocabulary_comes_back_as_it_was_listed() {
    let mut tok = BPETokenizer::new(TokenizerConfig::new(264, None).unwrap());
    tok.add_special_tokens(vec!["<s>".to_string()]);
    tok.train("low lower lowest newer newest").unwrap();
    tok.add_special_tokens(vec!["</s>".to_string()]);

    let listed = tok.vocabulary();
    assert_eq!(listed.len(), 7);
    let loaded = BPETokenizer::from_vocabulary(tok.config.clone(), listed.clone()).unwrap();
    assert_eq!(loaded.len(), tok.len());
    assert_eq!(loaded.encoder, tok.encoder);
    assert_eq!(loaded.vocabulary(), listed);
    assert_eq!(loaded.encode("<s>lowest</s>"), tok.encode("<s>lowest</s>"));
}

#[test]
fn loaded_tokenizer_can_be_trained_on() {
    let mut tok = BPETokenizer::from_vocabulary(
        TokenizerConfig::new(258, None).unwrap(),
        vec![(256, (97, 97))],
    )
    .unwrap();
    tok.train("aaabdaaabac").unwrap();
    assert_eq!(tok.encoder.get(&(256, 97)), Some(&257));
    assert_eq!(tok.len(), 258);
}

#[test]
fn vocabulary_with_a_bad_id_is_refused() {
    assert!(refused(config_with(vec![]), vec![(255, (97, 98))]));
    assert!(refused(config_with(vec![]), vec![(257, (97, 98))]));
    assert!(refused(config_with(vec![]), vec![(256, (256, 98))]));
    assert!(refused(config_with(vec![]), vec![(256, (97, 300))]));
    assert!(!refused(config_with(vec![]), vec![(256, (97, 98))]));
}

#[test]
fn vocabulary_with_a_repeated_id_or_pair_is_refused() {
    assert!(refused(
        config_with(vec![]),
        vec![(256, (97, 98)), (256, (98, 99))]
    ));
    assert!(refused(
        config_with(vec![]),
        vec![(256, (97, 98)), (257, (97, 98))]
    ));
    assert!(!refused(
        config_with(vec![]),
        vec![(256, (97, 98)), (257, (98, 99))]
    ));
}

#[test]
fn vocabulary_that_clashes_with_special_tokens_is_refused() {
    assert!(refused(config_with(vec![("<s>", 256)]), vec![(256, (97, 98))]));
    assert!(refused(
        config_with(vec![("<s>", 256)]),
        vec![(257, (256, 98))]
    ));
    assert!(refused(
        config_with(vec![("<s>", 256)]),
        vec![(257, (97, 256))]
    ));
    assert!(refused(config_with(vec![("<s>", 300)]), vec![(256, (97, 98))]));
    assert!(refused(config_with(vec![("<s>", 97)]), vec![]));
    assert!(refused(
        config_with(vec![("<s>", 256), ("</s>", 256)]),
        vec![(257, (97, 98)), (258, (98, 99))]
    ));
    assert!(!refused(
        config_with(vec![("<s>", 256)]),
        vec![(257, (97, 98))]
    ));
}

#[test]
fn registry_is_ordered_by_id() {
    let entries = vec![
        ("c".to_string(), 258),
        ("a".to_string(), 256),
        ("d".to_string(), 259),
        ("b".to_string(), 257),
    ];
    assert_eq!(
        registry_by_id(&entries),
        vec![
            ("a".to_string(), 256),
            ("b".to_string(), 257),
            ("c".to_string(), 258),
            ("d".to_string(), 259)
        ]
    );
    assert_eq!(registry_by_id(&Vec::new()), Vec::new());
}

#[test]
fn registry_order_keeps_entries_of_one_id_as_they_came() {
    let entries = vec![
        ("x".to_string(), 300),
        ("y".to_string(), 256),
        ("z".to_string(), 300),
        ("w".to_string(), 256),
    ];
    assert_eq!(
        registry_by_id(&entries),
        vec![
            ("y".to_string(), 256),
            ("w".to_string(), 256),
            ("x".to_string(), 300),
            ("z".to_string(), 300)
        ]
    );
}

#[test]
fn well_formed_tokenizer_is_recognised() {
    let mut tok = BPETokenizer::new(TokenizerConfig::new(259, None).unwrap());
    assert!(tok.is_wf());
    tok.add_special_tokens(vec!["<s>".to_string()]);
    tok.train("aaabdaaabac").unwrap();
    assert!(tok.is_wf());
    tok.decoder = None;
    assert!(tok.is_wf());
}

#[test]
fn tokenizer_changed_by_hand_is_recognised() {
    let mut tok = BPETokenizer::new(TokenizerConfig::new(259, None).unwrap());
    tok.train("aaabdaaabac").unwrap();

    let mut stale = BPETokenizer::new(TokenizerConfig::new(259, None).unwrap());
    stale.train("aaabdaaabac").unwrap();
    stale.encoder.insert((120, 121), 259);
    assert!(!stale.is_wf());
    stale._sync_decoder();
    assert!(stale.is_wf());
    stale.decoder.as_mut().unwrap().insert(300, (1, 2));
    assert!(!stale.is_wf());

    tok.encoder.insert((98, 99), 256);
    tok.decoder = None;
    assert!(!tok.is_wf());

    let mut low = BPETokenizer::new(TokenizerConfig::new(259, None).unwrap());
    low.encoder.insert((98, 99), 255);
    assert!(!low.is_wf());

    let mut far = BPETokenizer::new(TokenizerConfig::new(259, None).unwrap());
    far.encoder.insert((98, 99), 257);
    assert!(!far.is_wf());

    let mut clash = BPETokenizer::new(TokenizerConfig::new(259, None).unwrap());
    clash.add_special_tokens(vec!["<s>".to_string()]);
    clash.encoder.insert((98, 256), 257);
    assert!(!clash.is_wf());
}

#[test]
fn configuration_is_tested_before_a_tokenizer_is_built() {
    assert!(TokenizerConfig::new(300, None).unwrap().is_wf());
    assert!(config_with(vec![]).is_wf());
    assert!(config_with(vec![("<s>", 256), ("</s>", 257)]).is_wf());
    assert!(config_with(vec![("</s>", 257), ("<s>", 256)]).is_wf());
    assert!(!config_with(vec![("<s>", 257)]).is_wf());
    assert!(!config_with(vec![("<s>", 255)]).is_wf());
    assert!(!config_with(vec![("<s>", 256), ("</s>", 256)]).is_wf());
}
