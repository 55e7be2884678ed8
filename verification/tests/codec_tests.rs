use memory_store::codec::{
    build_add_request, build_create_collection_request, build_ids_request, build_query_request,
    build_tag_filter, build_tag_search_request, collection_exists, decode_exists_response,
    decode_get_response, decode_query_response, format_metadata, parse_metadata, JsonValue,
};
use memory_store::models::{Memory, StoreMemoryRequest};
use memory_store::service::build_memory;

fn obj(fields: Vec<(&str, JsonValue)>) -> JsonValue {
    JsonValue::Obj(fields.into_iter().map(|(k, v)| (k.to_string(), v)).collect())
}

fn arr(items: Vec<JsonValue>) -> JsonValue {
    JsonValue::Arr(items)
}

fn s(text: &str) -> JsonValue {
    JsonValue::Str(text.to_string())
}

fn sample_memory() -> Memory {
    let request = StoreMemoryRequest {
        content: "The sky is blue".to_string(),
        tags: Some(vec!["fact".to_string(), "sky".to_string()]),
        memory_type: Some("observation".to_string()),
        metadata: Some(vec![("source".to_string(), "test".to_string())]),
    };
    let mut memory = build_memory(request, 1_700_000_000);
    memory.set_embedding(vec![250_000, -750_000]);
    memory
}

#[test]
fn metadata_round_trip_restores_every_field() {
    let memory = sample_memory();
    let fields = format_metadata(&memory);
    let decoded = parse_metadata(
        &memory.content_hash,
        &memory.content,
        &fields,
        memory.embedding.clone(),
        0,
    );
    assert_eq!(decoded.content, memory.content);
    assert_eq!(decoded.content_hash, memory.content_hash);
    assert_eq!(decoded.tags, memory.tags);
    assert_eq!(decoded.memory_type, memory.memory_type);
    assert_eq!(decoded.timestamp_seconds, memory.timestamp_seconds);
    assert_eq!(decoded.metadata, memory.metadata);
    assert_eq!(decoded.embedding, memory.embedding);
}

#[test]
fn format_metadata_prefixes_user_keys() {
    let memory = sample_memory();
    let fields = format_metadata(&memory);
    let keys: Vec<&str> = fields.iter().map(|(k, _)| k.as_str()).collect();
    assert_eq!(
        keys,
        vec!["content_hash", "timestamp_seconds", "memory_type", "tags", "metadata_source"]
    );
    match &fields[1].1 {
        JsonValue::Int(n) => assert_eq!(*n, 1_700_000_000),
        other => panic!("timestamp field had the wrong shape: {:?}", shape_name(other)),
    }
}

fn shape_name(v: &JsonValue) -> &'static str {
    match v {
        JsonValue::Null => "null",
        JsonValue::Bool(_) => "bool",
        JsonValue::Int(_) => "int",
        JsonValue::Micros(_) => "micros",
        JsonValue::Str(_) => "str",
        JsonValue::Arr(_) => "arr",
        JsonValue::Obj(_) => "obj",
    }
}

#[test]
fn parse_metadata_ignores_unprefixed_fields_and_falls_back() {
    let fields = vec![
        ("unrelated".to_string(), s("ignored")),
        ("metadata_kept".to_string(), s("yes")),
        ("metadata_wrong_shape".to_string(), JsonValue::Int(1)),
    ];
    let memory = parse_metadata("h", "body", &fields, None, 777);
    assert_eq!(memory.metadata, vec![("kept".to_string(), "yes".to_string())]);
    assert_eq!(memory.timestamp_seconds, 777);
    assert_eq!(memory.tags, Vec::<String>::new());
    assert_eq!(memory.memory_type, None);
}

#[test]
fn exists_response_reads_ids_array() {
    assert!(decode_exists_response(&obj(vec![("ids", arr(vec![s("h")]))])));
    assert!(!decode_exists_response(&obj(vec![("ids", arr(vec![]))])));
    assert!(!decode_exists_response(&obj(vec![("other", arr(vec![s("h")]))])));
    assert!(!decode_exists_response(&s("not an object")));
}

#[test]
fn collection_listing_is_searched_by_name() {
    let listing = arr(vec![
        obj(vec![("name", s("alpha"))]),
        obj(vec![("name", s("memory_collection"))]),
    ]);
    assert!(collection_exists(&listing, "memory_collection"));
    assert!(!collection_exists(&listing, "beta"));
    assert!(!collection_exists(&s("bad shape"), "alpha"));
}

#[test]
fn ids_request_holds_the_hash() {
    match build_ids_request("abc123") {
        JsonValue::Obj(fields) => {
            assert_eq!(fields.len(), 1);
            assert_eq!(fields[0].0, "ids");
            match &fields[0].1 {
                JsonValue::Arr(items) => match &items[0] {
                    JsonValue::Str(h) => assert_eq!(h, "abc123"),
                    _ => panic!("id was not a string"),
                },
                _ => panic!("ids was not an array"),
            }
        }
        _ => panic!("request was not an object"),
    }
}

#[test]
fn create_collection_request_configures_cosine() {
    match build_create_collection_request("mc") {
        JsonValue::Obj(fields) => {
            assert_eq!(fields[0].0, "name");
            match &fields[1].1 {
                JsonValue::Obj(inner) => {
                    assert_eq!(inner[0].0, "hnsw:space");
                    match &inner[0].1 {
                        JsonValue::Str(v) => assert_eq!(v, "cosine"),
                        _ => panic!("distance metric was not a string"),
                    }
                }
                _ => panic!("metadata was not an object"),
            }
        }
        _ => panic!("request was not an object"),
    }
}

#[test]
fn add_request_carries_all_four_batches() {
    let memory = sample_memory();
    let embedding = memory.embedding.clone().unwrap();
    match build_add_request(&memory, &embedding) {
        JsonValue::Obj(fields) => {
            let keys: Vec<&str> = fields.iter().map(|(k, _)| k.as_str()).collect();
            assert_eq!(keys, vec!["ids", "embeddings", "metadatas", "documents"]);
            match &fields[1].1 {
                JsonValue::Arr(embs) => match &embs[0] {
                    JsonValue::Arr(comps) => {
                        assert!(matches!(comps[0], JsonValue::Micros(250_000)));
                        assert!(matches!(comps[1], JsonValue::Micros(-750_000)));
                    }
                    _ => panic!("embedding was not an array"),
                },
                _ => panic!("embeddings was not an array"),
            }
        }
        _ => panic!("request was not an object"),
    }
}

#[test]
fn query_request_names_count_and_fields() {
    match build_query_request(&vec![1_000_000], 5) {
        JsonValue::Obj(fields) => {
            assert_eq!(fields[0].0, "query_embeddings");
            assert_eq!(fields[1].0, "n_results");
            assert!(matches!(fields[1].1, JsonValue::Int(5)));
            assert_eq!(fields[2].0, format!("incl{}", "ude"));
        }
        _ => panic!("request was not an object"),
    }
}

#[test]
fn tag_filter_uses_or_only_for_several_tags() {
    match build_tag_filter(&vec!["x".to_string()]) {
        JsonValue::Obj(fields) => assert_eq!(fields[0].0, "$contains"),
        _ => panic!("single-tag filter was not an object"),
    }
    match build_tag_filter(&vec!["x".to_string(), "y".to_string()]) {
        JsonValue::Obj(fields) => {
            assert_eq!(fields[0].0, "$or");
            match &fields[0].1 {
                JsonValue::Arr(conds) => assert_eq!(conds.len(), 2),
                _ => panic!("$or did not hold an array"),
            }
        }
        _ => panic!("multi-tag filter was not an object"),
    }
}

#[test]
fn tag_search_request_wraps_the_filter() {
    let filter = build_tag_filter(&vec!["x".to_string()]);
    match build_tag_search_request(filter) {
        JsonValue::Obj(fields) => {
            assert_eq!(fields[0].0, "where");
            assert_eq!(fields[1].0, format!("incl{}", "ude"));
        }
        _ => panic!("request was not an object"),
    }
}

#[test]
fn get_response_decodes_records_and_skips_malformed() {
    let resp = obj(vec![
        ("ids", arr(vec![s("h1"), JsonValue::Int(7), s("h3")])),
        ("documents", arr(vec![s("one"), s("two"), s("three")])),
        (
            "metadatas",
            arr(vec![
                obj(vec![("timestamp_seconds", JsonValue::Int(11))]),
                obj(vec![]),
                obj(vec![("metadata_k", s("v"))]),
            ]),
        ),
        (
            "embeddings",
            arr(vec![
                arr(vec![JsonValue::Micros(1), JsonValue::Micros(2)]),
                arr(vec![]),
                s("not an array"),
            ]),
        ),
    ]);
    let records = decode_get_response(&resp, 99);
    assert_eq!(records.len(), 2);
    assert_eq!(records[0].content_hash, "h1");
    assert_eq!(records[0].content, "one");
    assert_eq!(records[0].timestamp_seconds, 11);
    assert_eq!(records[0].embedding.as_deref(), Some(&[1, 2][..]));
    assert_eq!(records[1].content_hash, "h3");
    assert_eq!(records[1].timestamp_seconds, 99);
    assert_eq!(records[1].metadata, vec![("k".to_string(), "v".to_string())]);
    assert_eq!(records[1].embedding, None);
}

#[test]
fn get_response_of_wrong_shape_is_empty() {
    assert_eq!(decode_get_response(&s("nope"), 0).len(), 0);
    let missing = obj(vec![("ids", arr(vec![s("h")]))]);
    assert_eq!(decode_get_response(&missing, 0).len(), 0);
}

#[test]
fn query_response_scores_are_one_minus_distance() {
    let resp = obj(vec![
        ("ids", arr(vec![arr(vec![s("h1"), s("h2")])])),
        ("documents", arr(vec![arr(vec![s("one"), s("two")])])),
        ("metadatas", arr(vec![arr(vec![obj(vec![]), obj(vec![])])])),
        (
            "distances",
            arr(vec![arr(vec![JsonValue::Micros(250_000), JsonValue::Int(1)])]),
        ),
    ]);
    let results = decode_query_response(&resp, 5);
    assert_eq!(results.len(), 2);
    assert_eq!(results[0].memory.content_hash, "h1");
    assert_eq!(results[0].relevance_score, 750_000);
    // an integral distance of 1 is a full unit away: score 0
    assert_eq!(results[1].relevance_score, 0);
    assert_eq!(results[1].memory.timestamp_seconds, 5);
}

#[test]
fn query_response_skips_entries_without_a_distance() {
    let resp = obj(vec![
        ("ids", arr(vec![arr(vec![s("h1"), s("h2")])])),
        ("documents", arr(vec![arr(vec![s("one"), s("two")])])),
        ("metadatas", arr(vec![arr(vec![obj(vec![]), obj(vec![])])])),
        ("distances", arr(vec![arr(vec![s("not a number"), JsonValue::Micros(0)])])),
    ]);
    let results = decode_query_response(&resp, 0);
    assert_eq!(results.len(), 1);
    assert_eq!(results[0].memory.content_hash, "h2");
    assert_eq!(results[0].relevance_score, 1_000_000);
}
