use wiki_rag::validation::{validate_model_name, validate_message_content};

#[test]
fn test_validate_model_name_valid() {
    assert!(validate_model_name("llama2").is_ok());
    assert!(validate_model_name("llama2:7b").is_ok());
    assert!(validate_model_name("codellama:13b-instruct").is_ok());
    assert!(validate_model_name("mistral:7b-instruct-v0.1").is_ok());
    assert!(validate_model_name("phi:2.7b").is_ok());
}

#[test]
fn test_validate_model_name_invalid() {
    assert!(validate_model_name("").is_err());

    let long_name = "a".repeat(101);
    assert!(validate_model_name(&long_name).is_err());

    assert!(validate_model_name("model@name").is_err());
    assert!(validate_model_name("model name").is_err());
    assert!(validate_model_name("model/name").is_err());

    assert!(validate_model_name(":model").is_err());
    assert!(validate_model_name("model:").is_err());
    assert!(validate_model_name("-model").is_err());
    assert!(validate_model_name("model-").is_err());
}

#[test]
fn test_validate_message_content_valid() {
    assert!(validate_message_content("Hello world").is_ok());
    assert!(validate_message_content("How do I craft a pickaxe?").is_ok());
    assert!(validate_message_content("Multi\nline\nmessage").is_ok());
    assert!(validate_message_content("Message with\ttabs").is_ok());

    assert!(validate_message_content("Hello 世界").is_ok());
    assert!(validate_message_content("Café").is_ok());
}

#[test]
fn test_validate_message_content_invalid() {
    assert!(validate_message_content("").is_err());
    assert!(validate_message_content("   ").is_err());
    assert!(validate_message_content("\n\t  \r").is_err());

    let long_message = "a".repeat(10001);
    assert!(validate_message_content(&long_message).is_err());

    assert!(validate_message_content("Hello\x00world").is_err());
    assert!(validate_message_content("Hello\x1Bworld").is_err());
}

#[test]
fn test_validate_message_content_edge_cases() {
    let max_length_message = "a".repeat(10000);
    assert!(validate_message_content(&max_length_message).is_ok());

    let over_limit_message = "a".repeat(10001);
    assert!(validate_message_content(&over_limit_message).is_err());

    assert!(validate_message_content("  valid content  ").is_ok());
}
