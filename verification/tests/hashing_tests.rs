use memory_store::hashing::{content_hash_hex, generate_content_hash};

fn md(pairs: &[(&str, &str)]) -> Vec<(String, String)> {
    pairs.iter().map(|(k, v)| (k.to_string(), v.to_string())).collect()
}

#[test]
fn hash_is_lowercase_hex_of_fixed_width() {
    let h = generate_content_hash("abc", &md(&[]));
    assert_eq!(h.len(), 64);
    assert!(h.chars().all(|c| c.is_ascii_hexdigit() && !c.is_ascii_uppercase()));
}

#[test]
fn hash_exact_value_for_plain_content() {
    // SHA-256 of the normalized content followed by the empty canonical
    // metadata serialization `{}`
    let h = generate_content_hash("abc", &md(&[]));
    assert_eq!(h, "98f50e6bf7b9a0dce0cdde1f0ce07a62e0266188e6b69d202dbfcfb9946e7b2c");
}

#[test]
fn hash_exact_value_with_metadata() {
    let h = generate_content_hash("abc", &md(&[("b", "2"), ("a", "1")]));
    assert_eq!(h, "aa0d26a56df3d6a8983d76871550afd3147f9a8e4906e85e194e0698b5970cf4");
}

#[test]
fn hash_normalization_invariance() {
    let raw = generate_content_hash("  The Sky  ", &md(&[]));
    let normalized = generate_content_hash("the sky", &md(&[]));
    assert_eq!(raw, normalized);
    assert_eq!(raw, "40f128bfcd802540fc5490bab1aecc167b4648b774b83d49496561319deebf7f");
}

#[test]
fn hash_ignores_reserved_key_values() {
    let base = generate_content_hash("note", &md(&[("kind", "fact")]));
    let with_ts1 = generate_content_hash("note", &md(&[("kind", "fact"), ("timestamp", "1")]));
    let with_ts2 = generate_content_hash("note", &md(&[("timestamp", "2"), ("kind", "fact")]));
    let with_all = generate_content_hash(
        "note",
        &md(&[
            ("content_hash", "xyz"),
            ("kind", "fact"),
            ("embedding", "[1,2]"),
            ("timestamp", "99"),
        ]),
    );
    assert_eq!(base, with_ts1);
    assert_eq!(base, with_ts2);
    assert_eq!(base, with_all);
}

#[test]
fn hash_permutation_invariance() {
    let a = generate_content_hash("abc", &md(&[("a", "1"), ("b", "2"), ("c", "3")]));
    let b = generate_content_hash("abc", &md(&[("c", "3"), ("a", "1"), ("b", "2")]));
    let c = generate_content_hash("abc", &md(&[("b", "2"), ("c", "3"), ("a", "1")]));
    assert_eq!(a, b);
    assert_eq!(a, c);
}

#[test]
fn hash_depends_on_content_and_metadata() {
    let a = generate_content_hash("abc", &md(&[]));
    let b = generate_content_hash("abd", &md(&[]));
    let c = generate_content_hash("abc", &md(&[("k", "v")]));
    assert_ne!(a, b);
    assert_ne!(a, c);
}

#[test]
fn byte_level_hash_agrees_with_string_hash() {
    let pairs: Vec<(Vec<u8>, Vec<u8>)> =
        vec![(b"b".to_vec(), b"2".to_vec()), (b"a".to_vec(), b"1".to_vec())];
    let h_bytes = content_hash_hex(&b"abc".to_vec(), pairs);
    let h_str = generate_content_hash("abc", &md(&[("b", "2"), ("a", "1")]));
    assert_eq!(h_bytes, h_str);
}

#[test]
fn hash_escapes_metadata_delimiters() {
    // a key holding quotes and a backslash must not collide with a
    // differently split pair
    let a = generate_content_hash("x", &md(&[("k\"", "v")]));
    let b = generate_content_hash("x", &md(&[("k", "\"v")]));
    assert_ne!(a, b);
}
