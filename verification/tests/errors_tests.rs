use wiki_rag::errors::AppError;
use wiki_rag::ollama::interpret_generation;
use wiki_rag::store::{VectorDatabase, is_lock_error};

#[test]
fn every_error_variant_carries_its_message() {
    let cases = vec![
        AppError::OllamaError("runtime down".to_string()),
        AppError::WikiError("page missing".to_string()),
        AppError::EmbeddingError("embed failed".to_string()),
        AppError::DatabaseError("db broken".to_string()),
        AppError::StorageError("disk full".to_string()),
        AppError::ConfigError("bad value".to_string()),
    ];
    let expected = ["runtime down", "page missing", "embed failed", "db broken", "disk full", "bad value"];
    for (e, want) in cases.iter().zip(expected.iter()) {
        assert_eq!(e.message(), want);
    }
}

#[test]
fn opening_an_impossible_store_location_is_a_storage_error() {
    let r = VectorDatabase::new("/dev/null/not-a-directory");
    match r {
        Err(AppError::StorageError(_)) => {}
        _ => panic!("expected a storage error"),
    }
}

#[test]
fn lock_failures_are_recognized_for_self_healing() {
    assert!(is_lock_error("could not acquire lock on file"));
    assert!(is_lock_error("database is locked"));
    assert!(!is_lock_error("permission denied"));
}

#[test]
fn generation_replies_are_interpreted_exactly() {
    // A reported error wins.
    let r = interpret_generation(Some("text".to_string()), Some("boom".to_string()));
    assert!(matches!(r, Err(AppError::OllamaError(_))));

    // Missing or empty response text is a failure.
    assert!(matches!(interpret_generation(None, None), Err(AppError::OllamaError(_))));
    assert!(matches!(
        interpret_generation(Some(String::new()), None),
        Err(AppError::OllamaError(_))
    ));

    // Otherwise the text comes through unchanged.
    let r = interpret_generation(Some("a fine answer".to_string()), None);
    assert_eq!(r.unwrap(), "a fine answer");
}
