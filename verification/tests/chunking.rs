use wiki_rag::chunker::split_into_chunks;
use wiki_rag::chars::{split_words, trim_str, usize_to_string, contains_str, str_eq};
use wiki_rag::config::EmbeddingConfig;
use wiki_rag::pipeline::EmbeddingService;

#[test]
fn short_content_becomes_one_trimmed_chunk() {
    let chunks = split_into_chunks("  hello world  ", 10, 2);
    assert_eq!(chunks.len(), 1);
    assert_eq!(chunks[0], "hello world");
}

#[test]
fn whitespace_only_content_becomes_one_empty_chunk() {
    let chunks = split_into_chunks("   \t  ", 4, 1);
    assert_eq!(chunks.len(), 1);
    assert_eq!(chunks[0], "");
}

#[test]
fn long_content_splits_with_overlap() {
    // 10 words, chunk size 4, overlap 1: windows advance by 3 words, so the
    // expected count is ceil((10 - 1) / 3) = 3.
    let content = "w0 w1 w2 w3 w4 w5 w6 w7 w8 w9";
    let chunks = split_into_chunks(content, 4, 1);
    assert_eq!(chunks.len(), 3);
    assert_eq!(chunks[0], "w0 w1 w2 w3");
    assert_eq!(chunks[1], "w3 w4 w5 w6");
    assert_eq!(chunks[2], "w6 w7 w8 w9");
}

#[test]
fn consecutive_chunks_share_exactly_the_overlap() {
    let mut words: Vec<String> = Vec::new();
    for i in 0..23 {
        words.push(format!("word{}", i));
    }
    let content = words.join(" ");
    let chunk_size = 7;
    let overlap = 3;
    let chunks = split_into_chunks(&content, chunk_size, overlap);
    // ceil((23 - 3) / (7 - 3)) = 5 chunks.
    assert_eq!(chunks.len(), 5);
    for k in 0..chunks.len() - 1 {
        let a: Vec<&str> = chunks[k].split(' ').collect();
        let b: Vec<&str> = chunks[k + 1].split(' ').collect();
        let tail = &a[a.len() - overlap..];
        let head = &b[..overlap];
        assert_eq!(tail, head);
    }
}

#[test]
fn last_chunk_may_be_shorter() {
    let content = "a b c d e";
    let chunks = split_into_chunks(content, 3, 1);
    // ceil((5 - 1) / 2) = 2 chunks, the second holding the last 3 words.
    assert_eq!(chunks.len(), 2);
    assert_eq!(chunks[0], "a b c");
    assert_eq!(chunks[1], "c d e");
}

#[test]
fn pipeline_split_uses_its_configuration() {
    let mut config = EmbeddingConfig::default();
    config.chunk_size = 4;
    config.chunk_overlap = 1;
    let service = EmbeddingService::new(config);
    let chunks = service.split_into_chunks("w0 w1 w2 w3 w4 w5 w6 w7 w8 w9");
    assert_eq!(chunks.len(), 3);
}

#[test]
fn test_sanitize_title() {
    let service = EmbeddingService::new(EmbeddingConfig::default());
    assert_eq!(service.sanitize_title("Hello World!"), "hello_world");
    assert_eq!(service.sanitize_title("Test@#$123"), "test123");
    assert_eq!(service.sanitize_title("Multiple   Spaces"), "multiple___spaces");
}

#[test]
fn word_splitting_and_trimming() {
    let words = split_words("  alpha\tbeta\n gamma ");
    assert_eq!(words, vec!["alpha", "beta", "gamma"]);
    assert_eq!(trim_str("  padded value \n"), "padded value");
    assert_eq!(trim_str(""), "");
}

#[test]
fn decimal_rendering_and_search_helpers() {
    assert_eq!(usize_to_string(0), "0");
    assert_eq!(usize_to_string(42), "42");
    assert_eq!(usize_to_string(90210), "90210");
    assert!(contains_str("hello world", "lo wo"));
    assert!(!contains_str("hello world", "low"));
    assert!(str_eq("same", "same"));
    assert!(!str_eq("same", "Same"));
}
