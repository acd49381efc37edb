use wiki_rag::similarity::cosine_similarity;
use wiki_rag::embedding::{fallback_embedding, embedding_from_remote, word_hash, count_char};
use wiki_rag::{EMBED_DIM, SCALE};

#[test]
fn test_cosine_similarity() {
    // Identical non-zero vectors score exactly 1.0 in fixed point.
    let v1: Vec<i64> = vec![1000, 0, 0];
    let v2: Vec<i64> = vec![1000, 0, 0];
    assert_eq!(cosine_similarity(&v1, &v2), SCALE);

    // Orthogonal vectors score 0.
    let v3: Vec<i64> = vec![0, 1000, 0];
    assert_eq!(cosine_similarity(&v1, &v3), 0);

    // Vectors at 45 degrees score about 0.707.
    let v4: Vec<i64> = vec![707, 707, 0];
    let s = cosine_similarity(&v1, &v4);
    assert!(s >= 706 && s <= 708, "unexpected score {}", s);
}

#[test]
fn cosine_zero_cases() {
    let a: Vec<i64> = vec![5, 5];
    let mismatched: Vec<i64> = vec![5, 5, 5];
    assert_eq!(cosine_similarity(&a, &mismatched), 0);

    let zero: Vec<i64> = vec![0, 0];
    assert_eq!(cosine_similarity(&a, &zero), 0);
    assert_eq!(cosine_similarity(&zero, &a), 0);
}

#[test]
fn cosine_is_symmetric() {
    let a: Vec<i64> = vec![3, -4, 12];
    let b: Vec<i64> = vec![-7, 2, 9];
    assert_eq!(cosine_similarity(&a, &b), cosine_similarity(&b, &a));
}

#[test]
fn fallback_embedding_has_fixed_length() {
    for text in ["a", "one two three", "Crafting is a core mechanic.", "日本語 text"] {
        let e = fallback_embedding(text);
        assert_eq!(e.len(), EMBED_DIM);
        for x in &e {
            assert!(*x >= 0 && *x <= SCALE);
        }
    }
    // Even empty input yields a full-length vector.
    assert_eq!(fallback_embedding("").len(), EMBED_DIM);
}

#[test]
fn fallback_embedding_is_deterministic_and_text_sensitive() {
    let a = fallback_embedding("the quick brown fox jumps over the lazy dog");
    let b = fallback_embedding("the quick brown fox jumps over the lazy dog");
    assert_eq!(a, b);
    let c = fallback_embedding("an entirely different sentence about smelting copper");
    assert_ne!(a, c);
}

#[test]
fn remote_embedding_is_used_only_when_usable() {
    // A full-length in-range remote vector is taken as it is.
    let good: Vec<i64> = vec![7; EMBED_DIM];
    let got = embedding_from_remote("ignored", Some(good.clone()));
    assert_eq!(got, good);

    // A wrong-length remote vector falls back to the deterministic embedding.
    let bad: Vec<i64> = vec![7; 3];
    let got = embedding_from_remote("some text", Some(bad));
    assert_eq!(got, fallback_embedding("some text"));

    // No remote vector falls back too.
    let got = embedding_from_remote("some text", None);
    assert_eq!(got, fallback_embedding("some text"));

    // An out-of-range remote vector is rejected as malformed.
    let mut out_of_range: Vec<i64> = vec![0; EMBED_DIM];
    out_of_range[0] = 10_000_000;
    let got = embedding_from_remote("some text", Some(out_of_range));
    assert_eq!(got, fallback_embedding("some text"));
}

#[test]
fn word_hash_matches_polynomial_rule() {
    // hash("ab") = (0*31 + 97)*31 + 98 mod 2^32 = 3105.
    assert_eq!(word_hash("ab".as_bytes()), 3105);
    assert_eq!(word_hash("".as_bytes()), 0);
}

#[test]
fn sentence_terminators_are_counted() {
    assert_eq!(count_char("one. two. three.", '.'), 3);
    assert_eq!(count_char("none here", '.'), 0);
}
