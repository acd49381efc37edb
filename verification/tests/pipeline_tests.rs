use wiki_rag::config::EmbeddingConfig;
use wiki_rag::chat::{format_context_text, format_context_source};
use wiki_rag::pipeline::EmbeddingService;
use wiki_rag::store::VectorDatabase;
use wiki_rag::chat::{ChatService, ChatMessage};
use wiki_rag::ollama::{ModelInfo, ModelDetails, model_available};

fn long_sentence(n: usize) -> String {
    let mut s = String::new();
    for i in 0..n {
        s.push_str(&format!("word{} of a reasonably long test sentence about crafting. ", i));
    }
    s
}

#[test]
fn ingesting_a_page_fills_cache_and_store() {
    let mut config = EmbeddingConfig::default();
    config.chunk_size = 20;
    config.chunk_overlap = 5;
    let mut service = EmbeddingService::new(config);
    let mut db = VectorDatabase::new_fallback().unwrap();

    let content = long_sentence(10);
    service
        .process_wiki_page(&mut db, "Crafting Guide", "test://wiki/crafting", &content, &Vec::new())
        .unwrap();

    assert!(service.get_chunk_count() > 0);
    assert_eq!(db.count_documents().unwrap(), service.get_chunk_count());

    let mine = service.get_chunks_for_source("test://wiki/crafting");
    assert_eq!(mine.len(), service.get_chunk_count());
    assert!(service.get_chunks_for_source("test://other").is_empty());
    for c in &mine {
        assert!(c.id.starts_with("crafting_guide_"));
        assert!(c.embedding.is_some());
        assert_eq!(c.metadata[0], ("source_type".to_string(), "wiki".to_string()));
    }
}

#[test]
fn short_noise_chunks_are_discarded() {
    let mut service = EmbeddingService::new(EmbeddingConfig::default());
    let mut db = VectorDatabase::new_fallback().unwrap();
    service
        .process_wiki_page(&mut db, "Tiny", "test://tiny", "too short", &Vec::new())
        .unwrap();
    assert_eq!(service.get_chunk_count(), 0);
    assert_eq!(db.count_documents().unwrap(), 0);
}

#[test]
fn retrieval_finds_relevant_content() {
    let mut config = EmbeddingConfig::default();
    config.chunk_size = 30;
    config.chunk_overlap = 5;
    let mut service = EmbeddingService::new(config);
    let mut db = VectorDatabase::new_fallback().unwrap();

    let content = "The hammer is used for metalworking and shaping metal items on an anvil. \
        A knife is essential for cutting materials and preparing food in the wilderness. \
        Chisels are required for stone carving and other detailed stonework projects.";
    service
        .process_wiki_page(&mut db, "Tools", "test://wiki/tools", content, &Vec::new())
        .unwrap();

    let results = service.search_similar(&db, "How do I use a hammer?", None, 3).unwrap();
    assert!(!results.is_empty());
    assert!(results.len() <= 3);
    for w in results.windows(2) {
        assert!(w[0].similarity_score >= w[1].similarity_score);
    }
}

#[test]
fn retrieval_falls_back_to_the_cache_when_the_store_is_empty() {
    let mut config = EmbeddingConfig::default();
    config.chunk_size = 30;
    config.chunk_overlap = 5;
    let mut service = EmbeddingService::new(config);
    let mut filled = VectorDatabase::new_fallback().unwrap();
    let content = "Smelting copper requires a crucible, a kiln and plenty of patience every time.";
    service
        .process_wiki_page(&mut filled, "Smelting", "test://wiki/smelting", content, &Vec::new())
        .unwrap();
    assert!(service.get_chunk_count() > 0);

    // A different, empty store: the store scan yields nothing, so the
    // in-process cache answers instead.
    let empty = VectorDatabase::new_fallback().unwrap();
    let results = service.search_similar(&empty, "copper smelting", None, 2).unwrap();
    assert!(!results.is_empty());
    assert!(results[0].chunk.content.contains("copper"));
}

#[test]
fn embed_text_always_has_fixed_length() {
    let service = EmbeddingService::new(EmbeddingConfig::default());
    let v = service.embed_text("any text at all", None).unwrap();
    assert_eq!(v.len(), wiki_rag::EMBED_DIM);
}

#[test]
fn chunking_config_is_validated() {
    let mut config = EmbeddingConfig::default();
    assert!(config.validate().is_ok());
    config.chunk_overlap = config.chunk_size;
    assert!(config.validate().is_err());
    config.chunk_size = 0;
    assert!(config.validate().is_err());
}

#[test]
fn prompt_holds_context_history_and_query() {
    let mut chat = ChatService::new();
    chat.push_message(ChatMessage {
        id: "1".to_string(),
        content: "What tools exist?".to_string(),
        role: "user".to_string(),
        timestamp: "t1".to_string(),
    });
    chat.push_message(ChatMessage {
        id: "2".to_string(),
        content: "Hammers and knives.".to_string(),
        role: "assistant".to_string(),
        timestamp: "t2".to_string(),
    });

    let context = vec!["Source: Tools\nHammers shape metal.".to_string()];
    let prompt = chat.build_prompt("How do I forge?", &context);

    assert!(prompt.starts_with("You are a helpful assistant"));
    assert!(prompt.contains("Context 1:\nSource: Tools\nHammers shape metal.\n\n"));
    assert!(prompt.contains("Based on the above context, "));
    assert!(prompt.contains("Previous conversation:\nuser: What tools exist?\nassistant: Hammers and knives.\n"));
    assert!(prompt.contains("User question: How do I forge?\n\n"));
    assert_eq!(chat.get_conversation_history().len(), 2);

    chat.clear_history();
    assert_eq!(chat.get_conversation_history().len(), 0);
    let bare = chat.build_prompt("Hi", &Vec::new());
    assert!(!bare.contains("Previous conversation:"));
    assert!(!bare.contains("Context 1:"));
}

#[test]
fn fallback_reply_is_picked_by_query_length() {
    let chat = ChatService::new();
    // Byte lengths 0, 1 and 2 modulo three pick the three canned replies.
    let r0 = chat.generate_fallback_response("abc");
    let r1 = chat.generate_fallback_response("a");
    let r2 = chat.generate_fallback_response("ab");
    assert!(r0.starts_with("I'm experiencing"));
    assert!(r1.starts_with("I apologize"));
    assert!(r2.starts_with("The AI service is temporarily unavailable"));
}

#[test]
fn model_availability_is_a_prefix_test() {
    let details = ModelDetails {
        parameter_size: "3.8B".to_string(),
        quantization_level: "Q4_K_M".to_string(),
        family: "phi".to_string(),
    };
    let models = vec![ModelInfo {
        name: "phi3:mini".to_string(),
        size: 1_500_000_000,
        digest: "def456".to_string(),
        details,
    }];
    assert!(model_available(&models, "phi3"));
    assert!(model_available(&models, "phi3:mini"));
    assert!(!model_available(&models, "llama3"));
    assert!(!model_available(&Vec::new(), "phi3"));
}

#[test]
fn context_formatting_is_exact() {
    assert_eq!(
        format_context_text("Tools", "Hammers shape metal."),
        "Source: Tools\nHammers shape metal."
    );
    assert_eq!(format_context_source("Tools", 861), "Tools (score: 861)");
    assert_eq!(format_context_source("Tools", -42), "Tools (score: -42)");
    // Out-of-range scores are clamped to the fixed-point unit range.
    assert_eq!(format_context_source("Tools", 5000), "Tools (score: 1000)");
}
