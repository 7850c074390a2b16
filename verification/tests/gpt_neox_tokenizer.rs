use neox_tokenizer::bpe::BpePairVocab;
use neox_tokenizer::encode::TruncationStrategy;
use neox_tokenizer::token::{Mask, Offset, TokenizedInput};
use neox_tokenizer::tokenizer::GptNeoXTokenizer;
use neox_tokenizer::vocab::{GptNeoXVocab, SpecialTokenMap};

fn generate_test_vocab() -> GptNeoXVocab {
    let values: Vec<(String, i64)> = vec![
        ("t".to_owned(), 0),
        ("h".to_owned(), 1),
        ("a@@".to_owned(), 2),
        ("n".to_owned(), 3),
        ("the".to_owned(), 4),
        ("Ġ".to_owned(), 5),
        ("<|endoftext|>".to_owned(), 6),
        ("o@@".to_owned(), 7),
        ("Ġear".to_owned(), 8),
        ("th".to_owned(), 9),
        ("Ċ".to_owned(), 10),
    ];

    let special_token_map = SpecialTokenMap {
        unk_token: "<|endoftext|>".to_string(),
        pad_token: None,
        bos_token: Some("<|endoftext|>".to_string()),
        sep_token: None,
        cls_token: None,
        eos_token: Some("<|endoftext|>".to_string()),
        mask_token: None,
        additional_special_tokens: None,
    };

    GptNeoXVocab::from_values_and_special_token_map(values, special_token_map).unwrap()
}

fn generate_test_merges() -> BpePairVocab {
    let values: Vec<((&str, &str), i64)> = vec![
        (("Ġ", "t"), 0),
        (("Ġ", "n"), 1),
        (("e", "e"), 2),
        (("Ġt", "he"), 3),
        (("h", "e"), 4),
        (("t", "h"), 5),
        (("t", "he"), 6),
        (("Ġ", "e"), 7),
        (("Ġe", "a"), 8),
        (("Ġea", "r"), 9),
    ];
    let mut merges = BpePairVocab::new();
    for ((left, right), rank) in values {
        merges.insert(left.to_owned(), right.to_owned(), rank);
    }
    merges
}

fn tokenizer(lower_case: bool, add_prefix_space: bool, bos: bool, eos: bool) -> GptNeoXTokenizer {
    GptNeoXTokenizer::from_existing_vocab_and_merges(
        generate_test_vocab(),
        generate_test_merges(),
        lower_case,
        add_prefix_space,
        bos,
        eos,
    )
    .unwrap()
}

#[test]
fn test_gpt_neox_tokenizer() {
    //        Given
    let gpt_neox_tokenizer = tokenizer(true, false, false, false);
    let test_tuples = [
        ("the Earth", vec!["the", "Ġear", "th"]),
        ("", vec![]),
        (" ", vec!["Ġ"]),
        ("   t", vec!["Ġ", "Ġ", "Ġt"]),
        ("t ", vec!["t", "Ġ"]),
        (" \n ", vec!["Ġ", "Ċ", "Ġ"]),
    ];
    let source_texts: Vec<&str> = test_tuples.iter().map(|v| v.0).collect();
    let expected_results: Vec<Vec<&str>> = test_tuples.iter().map(|v| v.1.clone()).collect();

    //        When & Then
    for (source_text, expected_result) in test_tuples.iter() {
        assert_eq!(gpt_neox_tokenizer.tokenize(source_text), *expected_result);
    }

    assert_eq!(gpt_neox_tokenizer.tokenize_list(&source_texts), expected_results);
}

#[test]
fn test_gpt_neox_tokenizer_with_prefix_space() {
    //        Given
    let gpt_neox_tokenizer = tokenizer(true, true, false, false);
    let test_tuples = [
        ("the Earth", vec!["Ġthe", "Ġear", "th"]),
        ("", vec![]),
        (" ", vec!["Ġ"]),
        ("   t", vec!["Ġ", "Ġ", "Ġt"]),
    ];

    //        When & Then
    for (source_text, expected_result) in test_tuples.iter() {
        assert_eq!(gpt_neox_tokenizer.tokenize(source_text), *expected_result);
    }
}

#[test]
fn test_gpt_neox_tokenizer_no_lower_casing() {
    //        Given
    let gpt_neox_tokenizer = tokenizer(false, false, false, false);
    let test_tuples = [
        ("the Earth", vec!["the", "Ġ", "E", "a", "r", "th"]),
        ("", vec![]),
        (" ", vec!["Ġ"]),
        ("   t", vec!["Ġ", "Ġ", "Ġt"]),
        (" \n ", vec!["Ġ", "Ċ", "Ġ"]),
    ];
    let source_texts: Vec<&str> = test_tuples.iter().map(|v| v.0).collect();
    let expected_results: Vec<Vec<&str>> = test_tuples.iter().map(|v| v.1.clone()).collect();

    //        When & Then
    for (source_text, expected_result) in test_tuples.iter() {
        assert_eq!(gpt_neox_tokenizer.tokenize(source_text), *expected_result);
    }

    assert_eq!(gpt_neox_tokenizer.tokenize_list(&source_texts), expected_results);
}

#[test]
fn test_encode_with_bos_eos() {
    //        Given
    let gpt_neox_tokenizer = tokenizer(true, false, true, true);
    let truncation_strategy = TruncationStrategy::LongestFirst;
    let test_tuples = [(
        "the earth",
        TokenizedInput {
            token_ids: vec![6, 4, 8, 9, 6],
            segment_ids: vec![0, 0, 0, 0, 0],
            special_tokens_mask: vec![1, 0, 0, 0, 1],
            overflowing_tokens: vec![],
            num_truncated_tokens: 0,
            token_offsets: vec![
                None,
                Some(Offset { begin: 0, end: 3 }),
                Some(Offset { begin: 3, end: 7 }),
                Some(Offset { begin: 7, end: 9 }),
                None,
            ],
            reference_offsets: vec![vec![], vec![0, 1, 2], vec![3, 4, 5, 6], vec![7, 8], vec![]],
            mask: vec![
                Mask::Special,
                Mask::Plain,
                Mask::Begin,
                Mask::Continuation,
                Mask::Special,
            ],
        },
    )];

    //        When & Then
    for (source_text, expected_result) in test_tuples.iter() {
        assert_eq!(
            gpt_neox_tokenizer
                .encode(source_text, None, 128, &truncation_strategy, 0)
                .unwrap(),
            *expected_result
        );
    }
}

#[test]
fn test_decode() {
    //        Given
    let gpt_neox_tokenizer = tokenizer(true, false, false, false);
    let skip_special_tokens = false;
    let clean_up_tokenization_spaces = false;
    let test_tuples = [(vec![4, 8, 9], "the earth")];
    let source_ids: Vec<Vec<i64>> = test_tuples.iter().map(|v| v.0.clone()).collect();
    let expected_results: Vec<&str> = test_tuples.iter().map(|v| v.1).collect();

    //        When & Then
    for (source_ids, expected_result) in test_tuples.iter() {
        assert_eq!(
            gpt_neox_tokenizer.decode(
                source_ids,
                skip_special_tokens,
                clean_up_tokenization_spaces
            ),
            *expected_result
        );
    }
    assert_eq!(
        gpt_neox_tokenizer.decode_list(
            &source_ids,
            skip_special_tokens,
            clean_up_tokenization_spaces
        ),
        expected_results
    );
}
