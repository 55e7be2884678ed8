use memory_store::models::{Memory, StoreMemoryRequest};
use memory_store::service::build_memory;
use memory_store::storage::{InMemoryStorage, StorageError};

fn make_memory(content: &str, tags: &[&str], embedding: Vec<i64>) -> Memory {
    let request = StoreMemoryRequest {
        content: content.to_string(),
        tags: Some(tags.iter().map(|t| t.to_string()).collect()),
        memory_type: None,
        metadata: None,
    };
    let mut memory = build_memory(request, 1_700_000_000);
    memory.set_embedding(embedding);
    memory
}

#[test]
fn store_accepts_then_rejects_duplicate() {
    let mut storage = InMemoryStorage::new(2);
    let memory = make_memory("hello", &["a"], vec![1_000_000, 0]);
    let hash = memory.content_hash.clone();

    let (accepted, message) = storage.store(&memory).unwrap();
    assert!(accepted);
    assert_eq!(message, format!("Successfully stored memory with hash: {}", hash));

    let again = make_memory("hello", &["a"], vec![1_000_000, 0]);
    let (accepted2, message2) = storage.store(&again).unwrap();
    assert!(!accepted2);
    assert_eq!(message2, "Duplicate content detected");

    assert!(storage.check_duplicate_exists(&hash).unwrap());
}

#[test]
fn store_rejects_missing_or_invalid_embedding() {
    let mut storage = InMemoryStorage::new(2);

    let request = StoreMemoryRequest {
        content: "no vector".to_string(),
        tags: None,
        memory_type: None,
        metadata: None,
    };
    let memory = build_memory(request, 0);
    assert!(matches!(storage.store(&memory), Err(StorageError::InvalidEmbedding(_))));

    let wrong_len = make_memory("short", &[], vec![1_000_000]);
    assert!(matches!(storage.store(&wrong_len), Err(StorageError::InvalidEmbedding(_))));

    let out_of_range = make_memory("big", &[], vec![2_000_000, 0]);
    assert!(matches!(storage.store(&out_of_range), Err(StorageError::InvalidEmbedding(_))));
}

#[test]
fn retrieve_orders_by_relevance_and_truncates() {
    let mut storage = InMemoryStorage::new(2);
    storage.store(&make_memory("east", &[], vec![1_000_000, 0])).unwrap();
    storage.store(&make_memory("north", &[], vec![0, 1_000_000])).unwrap();
    storage.store(&make_memory("diagonal", &[], vec![700_000, 700_000])).unwrap();

    let query: Vec<i64> = vec![1_000_000, 0];
    let top2 = storage.retrieve(&query, 2).unwrap();
    assert_eq!(top2.len(), 2);
    assert!(top2[0].relevance_score >= top2[1].relevance_score);
    assert_eq!(top2[0].memory.content, "east");
    assert_eq!(top2[1].memory.content, "diagonal");

    let all = storage.retrieve(&query, 10).unwrap();
    assert_eq!(all.len(), 3);
    for i in 1..all.len() {
        assert!(all[i - 1].relevance_score >= all[i].relevance_score);
    }
    assert_eq!(all[2].memory.content, "north");

    let none = storage.retrieve(&query, 0).unwrap();
    assert_eq!(none.len(), 0);
}

#[test]
fn retrieve_rejects_bad_query_embedding() {
    let storage = InMemoryStorage::new(2);
    let wrong_len: Vec<i64> = vec![1_000_000];
    assert!(matches!(storage.retrieve(&wrong_len, 5), Err(StorageError::InvalidEmbedding(_))));
    let out_of_range: Vec<i64> = vec![2_000_000, 0];
    assert!(matches!(
        storage.retrieve(&out_of_range, 5),
        Err(StorageError::InvalidEmbedding(_))
    ));
}

#[test]
fn search_by_tag_is_or_and_empty_query_matches_nothing() {
    let mut storage = InMemoryStorage::new(2);
    storage.store(&make_memory("one", &["x", "y"], vec![1_000_000, 0])).unwrap();
    storage.store(&make_memory("two", &["y"], vec![0, 1_000_000])).unwrap();
    storage.store(&make_memory("three", &["z"], vec![700_000, 700_000])).unwrap();

    let empty = storage.search_by_tag(&vec![]).unwrap();
    assert_eq!(empty.len(), 0);

    let xs = storage.search_by_tag(&vec!["x".to_string()]).unwrap();
    assert_eq!(xs.len(), 1);
    assert_eq!(xs[0].content, "one");

    let xz = storage.search_by_tag(&vec!["x".to_string(), "z".to_string()]).unwrap();
    let contents: Vec<&str> = xz.iter().map(|m| m.content.as_str()).collect();
    assert_eq!(contents, vec!["one", "three"]);

    let missing = storage.search_by_tag(&vec!["nope".to_string()]).unwrap();
    assert_eq!(missing.len(), 0);
}

#[test]
fn delete_reports_absence_and_removes() {
    let mut storage = InMemoryStorage::new(2);
    let memory = make_memory("gone soon", &[], vec![1_000_000, 0]);
    let hash = memory.content_hash.clone();

    let (removed, message) = storage.delete(&hash).unwrap();
    assert!(!removed);
    assert_eq!(message, format!("No memory found with hash: {}", hash));

    storage.store(&memory).unwrap();
    let (removed2, message2) = storage.delete(&hash).unwrap();
    assert!(removed2);
    assert_eq!(message2, format!("Successfully deleted memory with hash: {}", hash));
    assert!(!storage.check_duplicate_exists(&hash).unwrap());
}

#[test]
fn sky_scenario() {
    let mut storage = InMemoryStorage::new(3);
    let memory = make_memory("The sky is blue", &["fact", "sky"], vec![1_000_000, 0, 0]);
    let hash = memory.content_hash.clone();

    let (accepted, _) = storage.store(&memory).unwrap();
    assert!(accepted);

    let again = make_memory("The sky is blue", &["fact", "sky"], vec![1_000_000, 0, 0]);
    let (accepted2, message2) = storage.store(&again).unwrap();
    assert!(!accepted2);
    assert!(message2.contains("Duplicate"));

    let found = storage.search_by_tag(&vec!["sky".to_string()]).unwrap();
    assert_eq!(found.len(), 1);
    assert_eq!(found[0].content, "The sky is blue");
    assert_eq!(found[0].content_hash, hash);

    let (removed, _) = storage.delete(&hash).unwrap();
    assert!(removed);
    let (removed2, _) = storage.delete(&hash).unwrap();
    assert!(!removed2);
}

#[test]
fn stored_record_is_kept_unchanged() {
    let mut storage = InMemoryStorage::new(2);
    let request = StoreMemoryRequest {
        content: "kept intact".to_string(),
        tags: Some(vec!["t".to_string()]),
        memory_type: Some("note".to_string()),
        metadata: Some(vec![("k".to_string(), "v".to_string())]),
    };
    let mut memory = build_memory(request, 42);
    memory.set_embedding(vec![1_000_000, 0]);
    storage.store(&memory).unwrap();

    let found = storage.search_by_tag(&vec!["t".to_string()]).unwrap();
    assert_eq!(found.len(), 1);
    assert_eq!(found[0].content, "kept intact");
    assert_eq!(found[0].memory_type.as_deref(), Some("note"));
    assert_eq!(found[0].timestamp_seconds, 42);
    assert_eq!(found[0].metadata, vec![("k".to_string(), "v".to_string())]);
    assert_eq!(found[0].embedding.as_deref(), Some(&[1_000_000, 0][..]));
}

// the backend abstraction: callers can hold any backend behind the
// capability trait
fn exists_via_trait<S: memory_store::storage::MemoryStorage>(
    storage: &S,
    hash: &str,
) -> bool {
    storage.check_duplicate_exists(hash).unwrap()
}

#[test]
fn trait_object_view_of_the_backend() {
    let mut storage = InMemoryStorage::new(2);
    let memory = make_memory("behind the trait", &[], vec![1_000_000, 0]);
    let hash = memory.content_hash.clone();
    assert!(!exists_via_trait(&storage, &hash));
    memory_store::storage::MemoryStorage::store(&mut storage, &memory).unwrap();
    assert!(exists_via_trait(&storage, &hash));
}
