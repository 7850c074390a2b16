use neox_tokenizer::bpe::{bpe, group_common_pairs, BpePairVocab};
use neox_tokenizer::bytes::{byte_to_char, char_to_byte};
use neox_tokenizer::encode::{failure_text, truncate_sequences, TruncationFailure, TruncationStrategy};
use neox_tokenizer::loading::{special_token_map_from_json, JsonValue};
use neox_tokenizer::pattern::to_char_spans;
use neox_tokenizer::split::lowercase;
use neox_tokenizer::token::{fix_mask, Mask, Offset, Token, TokenIdsWithOffsets};
use neox_tokenizer::tokenizer::{clean_up_tokenization, GptNeoXTokenizer};
use neox_tokenizer::unicode::chars_of;
use neox_tokenizer::vocab::{GptNeoXVocab, SpecialTokenMap, TokenizerError};
use std::collections::HashSet;

fn eot() -> String {
    "<|endoftext|>".to_string()
}

fn special_map() -> SpecialTokenMap {
    SpecialTokenMap {
        unk_token: eot(),
        pad_token: None,
        bos_token: Some(eot()),
        sep_token: None,
        cls_token: None,
        eos_token: Some(eot()),
        mask_token: None,
        additional_special_tokens: None,
    }
}

fn test_vocab() -> GptNeoXVocab {
    let values: Vec<(String, i64)> = vec![
        ("t".to_owned(), 0),
        ("h".to_owned(), 1),
        ("a@@".to_owned(), 2),
        ("n".to_owned(), 3),
        ("the".to_owned(), 4),
        ("Ġ".to_owned(), 5),
        (eot(), 6),
        ("o@@".to_owned(), 7),
        ("Ġear".to_owned(), 8),
        ("th".to_owned(), 9),
        ("Ċ".to_owned(), 10),
    ];
    GptNeoXVocab::from_values_and_special_token_map(values, special_map()).unwrap()
}

fn test_merges() -> BpePairVocab {
    let values: Vec<((&str, &str), i64)> = vec![
        (("Ġ", "t"), 0),
        (("Ġ", "n"), 1),
        (("e", "e"), 2),
        (("Ġt", "he"), 3),
        (("h", "e"), 4),
        (("t", "h"), 5),
        (("t", "he"), 6),
        (("Ġ", "e"), 7),
        (("Ġe", "a"), 8),
        (("Ġea", "r"), 9),
    ];
    let mut merges = BpePairVocab::new();
    for ((left, right), rank) in values {
        merges.insert(left.to_owned(), right.to_owned(), rank);
    }
    merges
}

fn tokenizer(lower_case: bool, add_prefix_space: bool, bos: bool, eos: bool) -> GptNeoXTokenizer {
    GptNeoXTokenizer::from_existing_vocab_and_merges(
        test_vocab(),
        test_merges(),
        lower_case,
        add_prefix_space,
        bos,
        eos,
    )
    .unwrap()
}

fn strings(v: &[&str]) -> Vec<String> {
    v.iter().map(|s| s.to_string()).collect()
}

fn sequence(ids: Vec<i64>) -> TokenIdsWithOffsets {
    let n = ids.len();
    TokenIdsWithOffsets {
        ids,
        offsets: vec![],
        reference_offsets: vec![vec![]; n],
        masks: vec![],
    }
}

fn obj(entries: Vec<(&str, JsonValue)>) -> JsonValue {
    JsonValue::Object(entries.into_iter().map(|(k, v)| (k.to_string(), v)).collect())
}

fn num(n: i64) -> JsonValue {
    JsonValue::Number(Some(n), n.to_string())
}

fn s(text: &str) -> JsonValue {
    JsonValue::Str(text.to_string())
}

#[test]
fn byte_alphabet_round_trip() {
    let mut seen = HashSet::new();
    for b in 0..=255u8 {
        let c = byte_to_char(b);
        assert_eq!(char_to_byte(c), Some(b));
        assert!(!c.is_whitespace());
        assert!(seen.insert(c));
    }
    assert_eq!(byte_to_char(b' '), 'Ġ');
    assert_eq!(byte_to_char(b'\n'), 'Ċ');
    assert_eq!(byte_to_char(b'a'), 'a');
    assert_eq!(byte_to_char(0), 'Ā');
    assert_eq!(char_to_byte(' '), None);
    assert_eq!(char_to_byte('€'), None);
}

#[test]
fn bpe_merges_lowest_rank_first() {
    let merges = test_merges();
    assert_eq!(bpe("the", &merges), (strings(&["the"]), vec![3]));
    assert_eq!(bpe("Ġear", &merges), (strings(&["Ġear"]), vec![4]));
    assert_eq!(bpe("ear", &merges), (strings(&["e", "a", "r"]), vec![1, 1, 1]));
    assert_eq!(bpe("", &merges), (Vec::<String>::new(), vec![]));
    let joined: String = bpe("Ġearthe", &merges).0.concat();
    assert_eq!(joined, "Ġearthe");
}

#[test]
fn group_common_pairs_one_step() {
    let merges = test_merges();
    assert_eq!(
        group_common_pairs(strings(&["t", "h", "e"]), &merges),
        (strings(&["t", "he"]), false)
    );
    assert_eq!(group_common_pairs(strings(&["t", "he"]), &merges), (strings(&["the"]), true));
    assert_eq!(group_common_pairs(strings(&["x", "y"]), &merges), (strings(&["x", "y"]), true));
    assert_eq!(
        group_common_pairs(strings(&["t", "h", "t", "h"]), &merges),
        (strings(&["th", "th"]), false)
    );
}

#[test]
fn merges_text_is_ranked_in_order() {
    let merges = BpePairVocab::from_merges_text("#version: 0.2\nĠ t\nsingle\n  a b  \na b\nc d\n");
    assert_eq!(merges.byte_pair_to_id("Ġ", "t"), Some(0));
    assert_eq!(merges.byte_pair_to_id("a", "b"), Some(2));
    assert_eq!(merges.byte_pair_to_id("c", "d"), Some(3));
    assert_eq!(merges.byte_pair_to_id("#version:", "0.2"), None);
    assert_eq!(merges.byte_pair_to_id("single", ""), None);
    let empty = BpePairVocab::from_merges_text("");
    assert_eq!(empty.byte_pair_to_id("a", "b"), None);
}

#[test]
fn pair_vocab_insert_then_read() {
    let mut merges = BpePairVocab::new();
    assert_eq!(merges.byte_pair_to_id("a", "b"), None);
    merges.insert("a".to_string(), "b".to_string(), 3);
    assert_eq!(merges.byte_pair_to_id("a", "b"), Some(3));
    merges.insert("a".to_string(), "b".to_string(), 1);
    assert_eq!(merges.byte_pair_to_id("a", "b"), Some(1));
    assert_eq!(merges.byte_pair_to_id("b", "a"), None);
}

#[test]
fn vocab_reads_back_and_falls_back_to_unknown() {
    let vocab = test_vocab();
    assert_eq!(vocab.token_to_id("the"), 4);
    assert_eq!(vocab.token_to_id("zz"), 6);
    assert_eq!(vocab.id_to_token(8), "Ġear");
    assert_eq!(vocab.id_to_token(99), eot());
    assert_eq!(vocab.special_value_id(&eot()), Some(6));
    assert_eq!(vocab.special_value_id("the"), None);
    assert!(vocab.is_special_id(6));
    assert!(!vocab.is_special_id(4));
    assert_eq!(vocab.get_unknown_value(), "<|endoftext|>");
    assert_eq!(vocab.get_bos_value(), eot());
    assert_eq!(vocab.get_eos_value(), eot());
}

#[test]
fn vocab_missing_special_token_is_token_not_found() {
    let values: Vec<(String, i64)> = vec![("a".to_owned(), 0)];
    let r = GptNeoXVocab::from_values_and_special_token_map(values, special_map());
    assert_eq!(
        r.err(),
        Some(TokenizerError::TokenNotFound(
            "The special value <|endoftext|> could not be found in the vocabulary".to_string()
        ))
    );
}

#[test]
fn vocab_json_parses_and_reports_errors() {
    let vocab =
        GptNeoXVocab::from_vocab_json("{\"a\": 0, \"<|endoftext|>\": 1}", SpecialTokenMap::gpt_neox_default())
            .unwrap();
    assert_eq!(vocab.token_to_id("a"), 0);
    assert_eq!(vocab.id_to_token(1), eot());
    assert!(matches!(
        GptNeoXVocab::from_vocab_json("not json", SpecialTokenMap::gpt_neox_default()),
        Err(TokenizerError::VocabularyParsingError(_))
    ));
    assert!(matches!(
        GptNeoXVocab::from_vocab_json("{\"a\": 0}", SpecialTokenMap::gpt_neox_default()),
        Err(TokenizerError::TokenNotFound(_))
    ));
}

#[test]
fn default_special_tokens() {
    let m = SpecialTokenMap::gpt_neox_default();
    assert_eq!(m, special_map());
}

#[test]
fn tokenize_with_offsets_points_into_text() {
    let t = tokenizer(true, false, false, false);
    let out = t.tokenize_with_offsets("the earth");
    assert_eq!(out.tokens, strings(&["the", "Ġear", "th"]));
    assert_eq!(
        out.offsets,
        vec![
            Some(Offset { begin: 0, end: 3 }),
            Some(Offset { begin: 3, end: 7 }),
            Some(Offset { begin: 7, end: 9 })
        ]
    );
    assert_eq!(out.reference_offsets, vec![vec![0, 1, 2], vec![3, 4, 5, 6], vec![7, 8]]);
    assert_eq!(out.masks, vec![Mask::Plain, Mask::Begin, Mask::Continuation]);
    let empty = t.tokenize_with_offsets("");
    assert!(empty.tokens.is_empty() && empty.offsets.is_empty());
}

#[test]
fn special_tokens_are_kept_whole() {
    let t = tokenizer(true, false, false, false);
    assert_eq!(t.tokenize("the<|endoftext|>the"), strings(&["the", "<|endoftext|>", "the"]));
    let ids = t.encode("the<|endoftext|>the", None, 128, &TruncationStrategy::LongestFirst, 0).unwrap();
    assert_eq!(ids.token_ids, vec![4, 6, 4]);
    assert_eq!(ids.mask, vec![Mask::Plain, Mask::Unknown, Mask::Plain]);
}

#[test]
fn lower_casing_changes_the_pieces() {
    assert_eq!(tokenizer(true, false, false, false).tokenize("THE"), strings(&["the"]));
    assert_eq!(tokenizer(false, false, false, false).tokenize("THE"), strings(&["T", "H", "E"]));
    let mut token = Token::new("AbÄ".to_string());
    lowercase(&mut token);
    assert_eq!(token.text, "abä");
    assert_eq!(token.reference_offsets, vec![0, 1, 2]);
}

#[test]
fn convert_tokens_to_ids_uses_unknown() {
    let t = tokenizer(true, false, false, false);
    assert_eq!(t.convert_tokens_to_ids(&strings(&["the", "zz", "Ġear"])), vec![4, 6, 8]);
    assert_eq!(t.vocab().token_to_id("th"), 9);
}

#[test]
fn tokens_decode_back_to_text() {
    let t = tokenizer(false, false, false, false);
    assert_eq!(t.convert_tokens_to_string(strings(&["Ġthe", "Ġear", "th"])), " the earth");
    assert_eq!(t.convert_tokens_to_string(strings(&["Ã", "©"])), "é");
    let text = "Héllo wörld";
    let tokens = t.tokenize(text);
    assert_eq!(t.convert_tokens_to_string(tokens), text);
}

#[test]
fn decode_keeps_or_skips_special_tokens() {
    let t = tokenizer(true, false, false, false);
    assert_eq!(t.decode(&vec![6, 4, 8, 9, 6], true, false), "the earth");
    assert_eq!(
        t.decode(&vec![6, 4, 8, 9, 6], false, false),
        "<|endoftext|>the earth<|endoftext|>"
    );
    assert_eq!(t.decode(&vec![4, 8, 9], false, true), "the earth");
    assert_eq!(t.decode(&vec![], false, false), "");
}

#[test]
fn clean_up_rules() {
    assert_eq!(
        clean_up_tokenization("Hello , world ! I do not know . Is it ? I 'm sure it 's fine".to_string()),
        "Hello, world! I don't know. Is it? I'm sure it's fine"
    );
    assert_eq!(clean_up_tokenization("we 've and they 're , do n't".to_string()), "we've and they're, don't");
}

#[test]
fn encode_truncates_to_max_len() {
    let t = tokenizer(true, false, true, true);
    let out = t.encode("the earth", None, 3, &TruncationStrategy::LongestFirst, 0).unwrap();
    assert_eq!(out.token_ids, vec![6, 4, 6]);
    assert_eq!(out.num_truncated_tokens, 2);
    assert_eq!(out.overflowing_tokens, vec![8, 9]);
    assert!(out.token_ids.len() <= 3);
    let out = t.encode("the earth", None, 4, &TruncationStrategy::OnlyFirst, 1).unwrap();
    assert_eq!(out.token_ids, vec![6, 4, 8, 6]);
    assert_eq!(out.overflowing_tokens, vec![8, 9]);
}

#[test]
fn encode_pair_has_two_segments() {
    let t = tokenizer(true, false, false, false);
    let out = t.encode("the", Some(" earth"), 128, &TruncationStrategy::LongestFirst, 0).unwrap();
    assert_eq!(out.token_ids, vec![4, 8, 9]);
    assert_eq!(out.segment_ids, vec![0, 1, 1]);
    assert_eq!(out.special_tokens_mask, vec![0, 0, 0]);
    assert_eq!(out.num_truncated_tokens, 0);
    let t = tokenizer(true, false, true, true);
    let out = t.encode("the", Some(" earth"), 128, &TruncationStrategy::LongestFirst, 0).unwrap();
    assert_eq!(out.token_ids, vec![6, 4, 6, 6, 8, 9, 6]);
    assert_eq!(out.segment_ids, vec![0, 0, 0, 1, 1, 1, 1]);
    assert_eq!(out.special_tokens_mask, vec![1, 0, 1, 1, 0, 0, 1]);
}

#[test]
fn encode_without_truncation_fails_when_too_long() {
    let t = tokenizer(true, false, true, true);
    assert_eq!(
        t.encode("the earth", None, 2, &TruncationStrategy::DoNotTruncate, 0),
        Err(TokenizerError::ValueError("Truncation needed but no truncation requested".to_string()))
    );
    assert_eq!(
        t.encode("the earth", None, 1, &TruncationStrategy::LongestFirst, 0),
        Err(TokenizerError::ValueError(
            "First sequence too short for first only truncation".to_string()
        ))
    );
}

#[test]
fn truncation_strategies() {
    let r = truncate_sequences(sequence(vec![1, 2, 3, 4]), Some(sequence(vec![5, 6])), 3, &TruncationStrategy::LongestFirst, 0)
        .unwrap();
    assert_eq!(r.0.ids, vec![1]);
    assert_eq!(r.1.unwrap().ids, vec![5, 6]);
    assert_eq!(r.2, vec![2, 3, 4]);

    let r = truncate_sequences(sequence(vec![1, 2, 3]), Some(sequence(vec![5, 6, 7])), 3, &TruncationStrategy::LongestFirst, 0)
        .unwrap();
    assert_eq!(r.0.ids, vec![1]);
    assert_eq!(r.1.unwrap().ids, vec![5, 6]);
    assert_eq!(r.2, vec![2, 7, 3]);

    let r = truncate_sequences(sequence(vec![1, 2, 3, 4]), Some(sequence(vec![5, 6])), 2, &TruncationStrategy::OnlyFirst, 1)
        .unwrap();
    assert_eq!(r.0.ids, vec![1, 2]);
    assert_eq!(r.2, vec![2, 3, 4]);

    let r = truncate_sequences(sequence(vec![1, 2, 3, 4]), Some(sequence(vec![5, 6])), 1, &TruncationStrategy::OnlySecond, 0)
        .unwrap();
    assert_eq!(r.0.ids, vec![1, 2, 3, 4]);
    assert_eq!(r.1.unwrap().ids, vec![5]);
    assert_eq!(r.2, vec![6]);

    let r = truncate_sequences(sequence(vec![1, 2]), None, 0, &TruncationStrategy::DoNotTruncate, 0).unwrap();
    assert_eq!(r.0.ids, vec![1, 2]);
    assert!(r.2.is_empty());
}

#[test]
fn truncation_failures() {
    let pair = || Some(sequence(vec![5, 6]));
    let one = || sequence(vec![1, 2, 3, 4]);
    assert_eq!(
        truncate_sequences(one(), pair(), 7, &TruncationStrategy::LongestFirst, 0).err(),
        Some(TruncationFailure::CombinedTooShort)
    );
    assert_eq!(
        truncate_sequences(one(), pair(), 5, &TruncationStrategy::OnlyFirst, 0).err(),
        Some(TruncationFailure::FirstTooShort)
    );
    assert_eq!(
        truncate_sequences(one(), pair(), 3, &TruncationStrategy::OnlySecond, 0).err(),
        Some(TruncationFailure::SecondTooShort)
    );
    assert_eq!(
        truncate_sequences(one(), None, 1, &TruncationStrategy::OnlySecond, 0).err(),
        Some(TruncationFailure::SingleSequenceOnlySecond)
    );
    assert_eq!(
        truncate_sequences(one(), pair(), 1, &TruncationStrategy::DoNotTruncate, 0).err(),
        Some(TruncationFailure::NotRequested)
    );
    assert_eq!(
        failure_text(TruncationFailure::CombinedTooShort),
        "Combined sequence length too short for requested truncation amount"
    );
}

#[test]
fn fix_mask_marks_word_beginnings() {
    let mut tokens = vec![Token::new("a".to_string()), Token::new("b".to_string()), Token::new("c".to_string())];
    tokens[1].mask = Mask::Continuation;
    fix_mask(&mut tokens);
    assert_eq!(tokens[0].mask, Mask::Begin);
    assert_eq!(tokens[1].mask, Mask::Continuation);
    assert_eq!(tokens[2].mask, Mask::Plain);
}

#[test]
fn build_input_places_special_tokens() {
    let t = tokenizer(true, false, true, false);
    let out = t.build_input_with_special_tokens(sequence(vec![4, 8]), Some(sequence(vec![9])));
    assert_eq!(out.token_ids, vec![6, 4, 8, 6, 9]);
    assert_eq!(out.segment_ids, vec![0, 0, 0, 1, 1]);
    assert_eq!(out.special_tokens_mask, vec![1, 0, 0, 1, 0]);
    assert_eq!(out.mask, vec![Mask::Special, Mask::Special]);
    let t = tokenizer(true, false, false, false);
    let out = t.build_input_with_special_tokens(sequence(vec![4, 8]), None);
    assert_eq!(out.token_ids, vec![4, 8]);
}

#[test]
fn pre_tokenization_splits_words() {
    let t = tokenizer(false, false, false, false);
    assert_eq!(t.tokenize("ab cd"), strings(&["a", "b", "Ġ", "c", "d"]));
    let out = t.tokenize_with_offsets("ab  cd");
    assert_eq!(out.tokens, strings(&["a", "b", "Ġ", "Ġ", "c", "d"]));
    assert_eq!(out.offsets[2], Some(Offset { begin: 2, end: 3 }));
    assert_eq!(out.offsets[3], Some(Offset { begin: 3, end: 4 }));
    assert_eq!(to_char_spans(&chars_of("éa"), &vec![(2, 3)]), vec![(1, 2)]);
}

#[test]
fn lower_casing_uses_unicode_mapping() {
    let mut token = Token::new("İÄ".to_string());
    lowercase(&mut token);
    assert_eq!(token.text, "i\u{307}ä");
    assert_eq!(token.reference_offsets, vec![0, 0, 1]);
}

#[test]
fn invalid_utf8_is_replaced_on_decoding() {
    let t = tokenizer(false, false, false, false);
    assert_eq!(t.convert_tokens_to_string(strings(&["ÿ"])), "\u{FFFD}");
    assert_eq!(t.convert_tokens_to_string(strings(&["h", "i"])), "hi");
}

#[test]
fn vocab_json_error_carries_the_parser_message() {
    let expected = serde_json::from_str::<std::collections::BTreeMap<String, i64>>("[1, 2]")
        .unwrap_err()
        .to_string();
    assert_eq!(
        GptNeoXVocab::from_vocab_json("[1, 2]", SpecialTokenMap::gpt_neox_default()).err(),
        Some(TokenizerError::VocabularyParsingError(expected))
    );
}

#[test]
fn tokenizer_json_value_builds_a_tokenizer() {
    let json = obj(vec![
        (
            "model",
            obj(vec![
                ("type", s("BPE")),
                (
                    "vocab",
                    obj(vec![
                        ("a", num(0)),
                        ("b", num(1)),
                        ("ab", num(2)),
                        ("<|endoftext|>", num(3)),
                    ]),
                ),
                ("merges", JsonValue::Array(vec![s("a b"), s("not-a-pair")])),
            ]),
        ),
        (
            "added_tokens",
            JsonValue::Array(vec![obj(vec![
                ("content", s("<|endoftext|>")),
                ("id", num(3)),
                ("special", JsonValue::Bool(true)),
            ])]),
        ),
    ]);
    let t = GptNeoXTokenizer::from_tokenizer_json_value(&json, false, false, true, true).unwrap();
    assert_eq!(t.tokenize("ab"), strings(&["ab"]));
    let out = t.encode("ab", None, 16, &TruncationStrategy::LongestFirst, 0).unwrap();
    assert_eq!(out.token_ids, vec![3, 2, 3]);
}

#[test]
fn tokenizer_json_value_errors() {
    let missing_model = obj(vec![]);
    assert_eq!(
        GptNeoXTokenizer::from_tokenizer_json_value(&missing_model, false, false, false, false).err(),
        Some(TokenizerError::FileNotFound("Missing 'model' section in tokenizer.json".to_string()))
    );
    let wrong_type = obj(vec![("model", obj(vec![("type", s("WordPiece"))]))]);
    assert_eq!(
        GptNeoXTokenizer::from_tokenizer_json_value(&wrong_type, false, false, false, false).err(),
        Some(TokenizerError::FileNotFound("Expected BPE model, got WordPiece".to_string()))
    );
    let no_vocab = obj(vec![("model", obj(vec![("type", s("BPE"))]))]);
    assert_eq!(
        GptNeoXTokenizer::from_tokenizer_json_value(&no_vocab, false, false, false, false).err(),
        Some(TokenizerError::FileNotFound("Missing vocab in model".to_string()))
    );
    let no_unknown = obj(vec![(
        "model",
        obj(vec![
            ("type", s("BPE")),
            ("vocab", obj(vec![("a", num(0))])),
            ("merges", JsonValue::Array(vec![])),
        ]),
    )]);
    assert_eq!(
        GptNeoXTokenizer::from_tokenizer_json_value(&no_unknown, false, false, false, false).err(),
        Some(TokenizerError::TokenNotFound(
            "The special value <|endoftext|> could not be found in the vocabulary".to_string()
        ))
    );
}

#[test]
fn special_token_mapping_from_json() {
    let json = obj(vec![
        ("unk_token", s("<unk>")),
        ("pad_token", JsonValue::Null),
        ("bos_token", s("<s>")),
        ("additional_special_tokens", JsonValue::Array(vec![s("<x>")])),
    ]);
    let m = special_token_map_from_json(&json).unwrap();
    assert_eq!(m.unk_token, "<unk>");
    assert_eq!(m.pad_token, None);
    assert_eq!(m.bos_token, Some("<s>".to_string()));
    assert_eq!(m.eos_token, None);
    assert_eq!(m.additional_special_tokens, Some(vec!["<x>".to_string()]));
    assert!(matches!(
        special_token_map_from_json(&s("oops")),
        Err(TokenizerError::VocabularyParsingError(_))
    ));
    assert!(matches!(
        special_token_map_from_json(&obj(vec![("pad_token", s("<pad>"))])),
        Err(TokenizerError::VocabularyParsingError(_))
    ));
}

#[test]
fn vocab_mut_replaces_the_vocabulary() {
    let mut t = tokenizer(true, false, false, false);
    let values: Vec<(String, i64)> = vec![("the".to_owned(), 42), (eot(), 7)];
    *t.vocab_mut() = GptNeoXVocab::from_values_and_special_token_map(values, special_map()).unwrap();
    assert_eq!(t.convert_tokens_to_ids(&strings(&["the", "th"])), vec![42, 7]);
    assert_eq!(t.tokenize("the"), strings(&["the"]));
}

#[test]
fn tokenizer_json_text_builds_a_tokenizer() {
    let text = r#"{"model":{"type":"BPE","vocab":{"<|endoftext|>":0,"a":1,"b":2,"ab":3},"merges":["a b"]},"added_tokens":[{"id":0,"content":"<|endoftext|>","special":true}]}"#;
    let t = GptNeoXTokenizer::from_tokenizer_json_text(text, false, false, false, false).unwrap();
    assert_eq!(t.tokenize_with_offsets("ab").tokens, strings(&["ab"]));
    assert_eq!(t.tokenize_with_offsets("ba").tokens, strings(&["b", "a"]));
    assert_eq!(t.vocab().get_bos_value(), eot());
    assert_eq!(t.vocab().special_value_id(&eot()), Some(0));
}

#[test]
fn tokenizer_json_text_errors() {
    let expected = serde_json::from_str::<serde_json::Value>("{oops").unwrap_err().to_string();
    assert_eq!(
        GptNeoXTokenizer::from_tokenizer_json_text("{oops", false, false, false, false).err(),
        Some(TokenizerError::FileNotFound(expected))
    );
    assert_eq!(
        GptNeoXTokenizer::from_tokenizer_json_text("{}", false, false, false, false).err(),
        Some(TokenizerError::FileNotFound("Missing 'model' section in tokenizer.json".to_string()))
    );
}

#[test]
fn special_token_mapping_from_json_text() {
    let m = neox_tokenizer::loading::special_token_map_from_json_text(
        r#"{"unk_token": "<unk>", "eos_token": "</s>", "pad_token": null}"#,
    )
    .unwrap();
    assert_eq!(m.unk_token, "<unk>");
    assert_eq!(m.eos_token, Some("</s>".to_string()));
    assert_eq!(m.pad_token, None);
    assert!(matches!(
        neox_tokenizer::loading::special_token_map_from_json_text("not json"),
        Err(TokenizerError::VocabularyParsingError(_))
    ));
    let values: Vec<(String, i64)> = vec![("<unk>".to_owned(), 0), ("</s>".to_owned(), 1)];
    let vocab = GptNeoXVocab::from_values_and_special_token_map(values, m).unwrap();
    assert_eq!(vocab.get_eos_value(), "</s>");
    assert_eq!(vocab.get_bos_value(), eot());
}

#[test]
fn tokenizer_json_bad_vocab_or_merges_carry_the_parser_message() {
    let vocab_error = serde_json::from_value::<std::collections::HashMap<String, i64>>(
        serde_json::from_str(r#"{"a": 1.5}"#).unwrap(),
    )
    .unwrap_err()
    .to_string();
    let text = r#"{"model":{"type":"BPE","vocab":{"a":1.5},"merges":[]}}"#;
    assert_eq!(
        GptNeoXTokenizer::from_tokenizer_json_text(text, false, false, false, false).err(),
        Some(TokenizerError::FileNotFound(format!("Failed to parse vocab: {}", vocab_error)))
    );
    let merges_error = serde_json::from_value::<Vec<String>>(serde_json::from_str("[\"a b\", 5]").unwrap())
        .unwrap_err()
        .to_string();
    let text = r#"{"model":{"type":"BPE","vocab":{"a":1},"merges":["a b", 5]}}"#;
    assert_eq!(
        GptNeoXTokenizer::from_tokenizer_json_text(text, false, false, false, false).err(),
        Some(TokenizerError::FileNotFound(format!("Failed to parse merges: {}", merges_error)))
    );
    assert!(vocab_error.contains("1.5"));
}

#[test]
fn vocab_and_merges_clone() {
    let vocab = test_vocab();
    let merges = test_merges();
    let a = GptNeoXTokenizer::from_existing_vocab_and_merges(vocab.clone(), merges.clone(), true, false, false, false)
        .unwrap();
    let b = GptNeoXTokenizer::from_existing_vocab_and_merges(vocab, merges, true, false, false, false).unwrap();
    assert_eq!(a.tokenize("the Earth"), b.tokenize("the Earth"));
    assert_eq!(a.tokenize("the Earth"), strings(&["the", "Ġear", "th"]));
    let copy = test_merges().clone();
    assert_eq!(copy.byte_pair_to_id("Ġea", "r"), Some(9));
    assert_eq!(test_vocab().clone().special_value_id(&eot()), Some(6));
}

#[test]
fn prefix_space_is_a_space_in_front() {
    let with = tokenizer(true, true, false, false);
    let without = tokenizer(true, false, false, false);
    assert_eq!(with.tokenize("the earth"), without.tokenize(" the earth"));
    assert_eq!(with.tokenize(" the"), without.tokenize(" the"));
}

#[test]
fn lower_casing_ascii_is_tokenizing_the_lower_case() {
    let lower = tokenizer(true, false, false, false);
    let plain = tokenizer(false, false, false, false);
    assert_eq!(lower.tokenize_with_offsets("The EARTH"), plain.tokenize_with_offsets("the earth"));
}

#[test]
fn decoding_joined_tokens_joins_texts() {
    let t = tokenizer(false, false, false, false);
    let a = strings(&["Ġthe", "Ã"]);
    let b = strings(&["©", "Ġear"]);
    let mut ab = a.clone();
    ab.extend(b.clone());
    // "Ã" alone and "©" alone are not valid UTF-8, so here the joined text
    // differs from the two texts joined.
    assert_eq!(t.convert_tokens_to_string(ab), " theé ear");
    let a = strings(&["Ġthe"]);
    let b = strings(&["Ġear", "th"]);
    let mut ab = a.clone();
    ab.extend(b.clone());
    assert_eq!(
        t.convert_tokens_to_string(ab),
        format!("{}{}", t.convert_tokens_to_string(a), t.convert_tokens_to_string(b))
    );
}
