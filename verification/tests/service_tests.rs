use memory_store::config::{parse_usize, Config, EmbeddingModel, StorageBackend};
use memory_store::embeddings::{DummyEmbeddingGenerator, EmbeddingError};
use memory_store::hashing::generate_content_hash;
use memory_store::models::{MemoryQueryResult, RetrieveMemoryRequest, StoreMemoryRequest};
use memory_store::service::{
    build_memory, build_server_instructions, collection_action_path, collections_path,
    format_retrieve_results, format_search_results, requested_result_count,
};
use memory_store::storage::{InMemoryStorage, StorageError};

#[test]
fn build_memory_derives_hash_and_defaults() {
    let request = StoreMemoryRequest {
        content: "note".to_string(),
        tags: None,
        memory_type: None,
        metadata: None,
    };
    let memory = build_memory(request, 123);
    assert_eq!(memory.content, "note");
    assert_eq!(memory.content_hash, generate_content_hash("note", &vec![]));
    assert_eq!(memory.tags, Vec::<String>::new());
    assert_eq!(memory.memory_type, None);
    assert_eq!(memory.timestamp_seconds, 123);
    assert_eq!(memory.metadata, Vec::<(String, String)>::new());
    assert_eq!(memory.embedding, None);
}

#[test]
fn retrieve_listing_exact_text() {
    let mut storage = InMemoryStorage::new(2);
    let request = StoreMemoryRequest {
        content: "hello".to_string(),
        tags: Some(vec!["a".to_string(), "b".to_string()]),
        memory_type: None,
        metadata: None,
    };
    let mut memory = build_memory(request, 0);
    memory.set_embedding(vec![1_000_000, 0]);
    let hash = memory.content_hash.clone();
    storage.store(&memory).unwrap();

    let results = storage.retrieve(&vec![1_000_000, 0], 5).unwrap();
    let text = format_retrieve_results(&results);
    let expected = format!(
        "Found 1 memories:\nMemory 1:\nContent: hello\nHash: {}\nScore: 1.0000\nTags: [\"a\", \"b\"]\n---",
        hash
    );
    assert_eq!(text, expected);
}

#[test]
fn retrieve_listing_empty_text() {
    let results: Vec<MemoryQueryResult> = Vec::new();
    assert_eq!(format_retrieve_results(&results), "No matching memories found");
}

#[test]
fn negative_scores_are_rendered_with_sign() {
    let mut storage = InMemoryStorage::new(2);
    let request = StoreMemoryRequest {
        content: "anti".to_string(),
        tags: None,
        memory_type: None,
        metadata: None,
    };
    let mut memory = build_memory(request, 0);
    memory.set_embedding(vec![-500_000, 0]);
    storage.store(&memory).unwrap();
    let results = storage.retrieve(&vec![1_000_000, 0], 1).unwrap();
    let text = format_retrieve_results(&results);
    assert!(text.contains("Score: -1.0000"), "text was: {text}");
}

#[test]
fn search_listing_exact_text() {
    let mut storage = InMemoryStorage::new(2);
    let request = StoreMemoryRequest {
        content: "hello".to_string(),
        tags: Some(vec!["a".to_string()]),
        memory_type: None,
        metadata: None,
    };
    let mut memory = build_memory(request, 0);
    memory.set_embedding(vec![1_000_000, 0]);
    let hash = memory.content_hash.clone();
    storage.store(&memory).unwrap();

    let tags = vec!["a".to_string()];
    let found = storage.search_by_tag(&tags).unwrap();
    let text = format_search_results(&found, &tags);
    let expected = format!(
        "Found 1 memories with tags [\"a\"]:\nMemory 1:\nContent: hello\nHash: {}\nTags: [\"a\"]\n---",
        hash
    );
    assert_eq!(text, expected);

    let none = storage.search_by_tag(&vec!["zz".to_string()]).unwrap();
    assert_eq!(
        format_search_results(&none, &tags),
        "No memories found with the specified tags"
    );
}

#[test]
fn server_instructions_name_the_model() {
    let text = build_server_instructions("Dummy", 384);
    assert!(text.ends_with("Currently using Dummy embedding model (size 384)."));
}

#[test]
fn endpoint_paths_exact() {
    assert_eq!(collections_path(), "/api/v1/collections");
    assert_eq!(collection_action_path("mc", "query"), "/api/v1/collections/mc/query");
}

#[test]
fn parse_usize_accepts_digits_only() {
    assert_eq!(parse_usize("0"), Some(0));
    assert_eq!(parse_usize("384"), Some(384));
    assert_eq!(parse_usize(""), None);
    assert_eq!(parse_usize("12a"), None);
    assert_eq!(parse_usize("-3"), None);
    assert_eq!(parse_usize("99999999999999999999999999"), None);
}

#[test]
fn backend_and_model_names_fold_case() {
    assert_eq!(StorageBackend::from_name("ChromaDB"), StorageBackend::ChromaDB);
    assert_eq!(StorageBackend::from_name("chromadb"), StorageBackend::ChromaDB);
    assert_eq!(StorageBackend::from_name("sqlite"), StorageBackend::InMemory);
    assert_eq!(EmbeddingModel::from_name("ONNX"), EmbeddingModel::Onnx);
    assert_eq!(EmbeddingModel::from_name("anything"), EmbeddingModel::Dummy);
}

#[test]
fn config_defaults_match_the_documented_ones() {
    let config = Config::default();
    assert_eq!(config.storage_backend, StorageBackend::InMemory);
    assert_eq!(config.embedding_model, EmbeddingModel::Dummy);
    assert_eq!(config.embedding_size, 384);
    assert_eq!(config.chroma_collection_name, "memory_collection");
    assert_eq!(config.log_level, "info");
    assert!(config.chroma_db_url.is_none());
}

#[test]
fn dummy_generator_reports_its_size() {
    let generator = DummyEmbeddingGenerator::new(16);
    assert_eq!(generator.get_embedding_size(), 16);
    assert_eq!(generator.name(), "Dummy");
}

#[test]
fn embedding_errors_classify_configuration_problems() {
    assert!(EmbeddingError::ModelNotFound("m".to_string()).is_configuration_error());
    assert!(EmbeddingError::TokenizerLoadError("m".to_string()).is_configuration_error());
    assert!(!EmbeddingError::InferenceError("m".to_string()).is_configuration_error());
    assert!(!EmbeddingError::Other("m".to_string()).is_configuration_error());
    assert_eq!(EmbeddingError::TensorError("boom".to_string()).message(), "boom");
}

#[test]
fn storage_errors_carry_their_message() {
    assert_eq!(StorageError::NotFoundError("gone".to_string()).message(), "gone");
    assert_eq!(StorageError::ClientError("down".to_string()).message(), "down");
}

#[test]
fn retrieval_count_defaults_to_five() {
    let defaulted = RetrieveMemoryRequest { query: "q".to_string(), n_results: None };
    let explicit = RetrieveMemoryRequest { query: "q".to_string(), n_results: Some(2) };
    assert_eq!(requested_result_count(&defaulted), 5);
    assert_eq!(requested_result_count(&explicit), 2);
}
