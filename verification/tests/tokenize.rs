use candle_token_classification::tok::{token_texts, tokenize, TokenizeError};

fn word_level_tokenizer() -> tokenizers::Tokenizer {
    let json = "{\"version\":\"1.0\",\
        \"pre_tokenizer\":{\"type\":\"Whitespace\"},\
        \"model\":{\"type\":\"WordLevel\",\
        \"vocab\":{\"hello\":0,\"world\":1,\"[UNK]\":2},\
        \"unk_token\":\"[UNK]\"}}";
    json.parse().expect("tokenizer json")
}

#[test]
fn tokenize_gives_parallel_ids_and_offsets() {
    let tokenizer = word_level_tokenizer();
    let t = tokenize(&tokenizer, "hello world").unwrap();
    assert_eq!(t.ids.len(), t.offsets.len());
    assert_eq!(t.ids, vec![0, 1]);
    assert_eq!(t.offsets, vec![(0, 5), (6, 11)]);
}

#[test]
fn token_texts_looks_every_id_up() {
    let tokenizer = word_level_tokenizer();
    let t = tokenize(&tokenizer, "world hello world").unwrap();
    let texts = token_texts(&tokenizer, &t.ids);
    assert_eq!(texts.len(), t.ids.len());
    assert_eq!(
        texts,
        vec![
            Some("world".to_string()),
            Some("hello".to_string()),
            Some("world".to_string())
        ]
    );
}

#[test]
fn token_texts_of_unknown_id_is_none() {
    let tokenizer = word_level_tokenizer();
    let texts = token_texts(&tokenizer, &vec![2, 999]);
    assert_eq!(texts, vec![Some("[UNK]".to_string()), None]);
}

#[test]
fn tokenize_rejects_stride_not_below_usable_length() {
    // With stride >= max_length and no added tokens, encoding a long text
    // would panic inside the tokenizer instead of truncating; the tokenizer
    // is rejected up front.
    let json = "{\"version\":\"1.0\",\
        \"truncation\":{\"direction\":\"Right\",\"max_length\":3,\
        \"strategy\":\"LongestFirst\",\"stride\":8},\
        \"pre_tokenizer\":{\"type\":\"Whitespace\"},\
        \"model\":{\"type\":\"WordLevel\",\
        \"vocab\":{\"hello\":0,\"world\":1,\"[UNK]\":2},\
        \"unk_token\":\"[UNK]\"}}";
    let tokenizer: tokenizers::Tokenizer = json.parse().expect("tokenizer json");
    let res = tokenize(&tokenizer, "hello world hello world");
    assert_eq!(res.unwrap_err(), TokenizeError::Rejected);
}

#[test]
fn tokenize_rejects_max_length_below_added_tokens() {
    // The post-processor adds two special tokens around a single sequence;
    // a configured max_length of one cannot hold them.
    let json = "{\"version\":\"1.0\",\
        \"truncation\":{\"direction\":\"Right\",\"max_length\":1,\
        \"strategy\":\"LongestFirst\",\"stride\":0},\
        \"pre_tokenizer\":{\"type\":\"Whitespace\"},\
        \"post_processor\":{\"type\":\"BertProcessing\",\
        \"sep\":[\"[SEP]\",3],\"cls\":[\"[CLS]\",4]},\
        \"model\":{\"type\":\"WordLevel\",\
        \"vocab\":{\"hello\":0,\"world\":1,\"[UNK]\":2,\"[SEP]\":3,\"[CLS]\":4},\
        \"unk_token\":\"[UNK]\"}}";
    let tokenizer: tokenizers::Tokenizer = json.parse().expect("tokenizer json");
    let res = tokenize(&tokenizer, "hello");
    assert_eq!(res.unwrap_err(), TokenizeError::Rejected);
}

#[test]
fn tokenize_truncates_with_safe_parameters() {
    let json = "{\"version\":\"1.0\",\
        \"truncation\":{\"direction\":\"Right\",\"max_length\":2,\
        \"strategy\":\"LongestFirst\",\"stride\":0},\
        \"pre_tokenizer\":{\"type\":\"Whitespace\"},\
        \"model\":{\"type\":\"WordLevel\",\
        \"vocab\":{\"hello\":0,\"world\":1,\"[UNK]\":2},\
        \"unk_token\":\"[UNK]\"}}";
    let tokenizer: tokenizers::Tokenizer = json.parse().expect("tokenizer json");
    let t = tokenize(&tokenizer, "world hello world").unwrap();
    assert_eq!(t.ids.len(), t.offsets.len());
    assert_eq!(t.ids, vec![1, 0]);
}
