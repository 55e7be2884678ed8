//! The wire codec of the remote vector-collection backend.
//!
//! The remote protocol is JSON-bodied HTTP; this module does all the
//! marshaling on a JSON tree of plain values (`JsonValue`), so that the
//! encoding of a memory into a flat string-keyed metadata map and the
//! decoding of responses back into records are verified. Numbers that
//! the wire carries as floating point (distances, embedding components)
//! are held in fixed-point millionths (`JsonValue::Micros`); the HTTP
//! layer converts at the boundary.
use vstd::prelude::*;
use vstd::string::StrSliceExecFns;
use vstd::string::StringExecFns;

use crate::models::{Memory, MemoryQueryResult, MemoryView, QueryResultView, strings_view};
use crate::storage::{memories_view, results_view};

verus! {

/// A JSON value of the remote protocol. Integral numbers are `Int`;
/// fractional numbers are `Micros`, fixed point in millionths.
pub enum JsonValue {
    Null,
    Bool(bool),
    Int(i64),
    Micros(i64),
    Str(String),
    Arr(Vec<JsonValue>),
    Obj(Vec<(String, JsonValue)>),
}

/// `v` is the JSON string `s`.
pub open spec fn is_str(v: JsonValue, s: Seq<char>) -> bool {
    v matches JsonValue::Str(x) && x@ == s
}

/// `v` is the JSON integer `n`.
pub open spec fn is_int(v: JsonValue, n: i64) -> bool {
    v matches JsonValue::Int(x) && x == n
}

/// `v` is an array holding exactly the strings `ss`.
pub open spec fn is_str_arr(v: JsonValue, ss: Seq<Seq<char>>) -> bool {
    &&& v matches JsonValue::Arr(items)
    &&& items@.len() == ss.len()
    &&& forall|i: int| 0 <= i < ss.len() ==> is_str(#[trigger] items@[i], ss[i])
}

/// First value stored under `key`, scanning in order.
pub open spec fn lookup(fields: Seq<(String, JsonValue)>, key: Seq<char>) -> Option<JsonValue>
    decreases fields.len(),
{
    if fields.len() == 0 {
        None
    } else if fields[0].0@ == key {
        Some(fields[0].1)
    } else {
        lookup(fields.drop_first(), key)
    }
}

/// Index of the first field whose key is `key`.
fn find_field(fields: &Vec<(String, JsonValue)>, key: &String) -> (r: Option<usize>)
    ensures
        match r {
            Some(i) => i < fields@.len() && fields@[i as int].0@ == key@ && lookup(
                fields@,
                key@,
            ) == Some(fields@[i as int].1),
            None => lookup(fields@, key@) is None,
        },
{
    let mut i: usize = 0;
    proof {
        assert(fields@.skip(0) =~= fields@);
    }
    while i < fields.len()
        invariant
            i <= fields@.len(),
            lookup(fields@, key@) == lookup(fields@.skip(i as int), key@),
            forall|j: int| 0 <= j < i ==> (#[trigger] fields@[j]).0@ != key@,
        decreases fields@.len() - i,
    {
        if fields[i].0 == *key {
            proof {
                let s = fields@.skip(i as int);
                assert(s[0] == fields@[i as int]);
                assert(lookup(s, key@) == Some(fields@[i as int].1));
            }
            return Some(i);
        }
        proof {
            let s = fields@.skip(i as int);
            assert(s[0] == fields@[i as int]);
            assert(s.drop_first() =~= fields@.skip(i + 1 as int));
        }
        i = i + 1;
    }
    proof {
        assert(fields@.skip(fields@.len() as int).len() == 0);
    }
    None
}

/// The key under which a user metadata key `k` travels on the wire.
pub open spec fn prefixed_key(k: Seq<char>) -> Seq<char> {
    "metadata_"@ + k
}

/// Whether a wire key carries the user-metadata prefix.
pub open spec fn has_meta_prefix(k: Seq<char>) -> bool {
    k.len() >= 9 && k.take(9) == "metadata_"@
}

/// The user key a prefixed wire key stands for.
pub open spec fn stripped_key(k: Seq<char>) -> Seq<char> {
    k.skip(9)
}

/// The exact wire form of a memory's metadata: `content_hash` and
/// `timestamp_seconds` as their own fields, the optional `memory_type`,
/// the tags as a string array, and each user metadata key re-prefixed.
pub open spec fn is_encoding_of(fields: Seq<(String, JsonValue)>, m: MemoryView) -> bool {
    let base: int = if m.memory_type is Some {
        4
    } else {
        3
    };
    &&& fields.len() == base + m.metadata.len()
    &&& fields[0].0@ == "content_hash"@
    &&& is_str(fields[0].1, m.content_hash)
    &&& fields[1].0@ == "timestamp_seconds"@
    &&& is_int(fields[1].1, m.timestamp_seconds)
    &&& (m.memory_type is Some ==> fields[2].0@ == "memory_type"@ && is_str(
        fields[2].1,
        m.memory_type->0,
    ))
    &&& fields[base - 1].0@ == "tags"@
    &&& is_str_arr(fields[base - 1].1, m.tags)
    &&& forall|i: int|
        0 <= i < m.metadata.len() ==> fields[base + i].0@ == prefixed_key(
            (#[trigger] m.metadata[i]).0,
        ) && is_str(fields[base + i].1, m.metadata[i].1)
}

/// Formats a memory's metadata for the remote collection.
pub fn format_metadata(memory: &Memory) -> (r: Vec<(String, JsonValue)>)
    ensures
        is_encoding_of(r@, memory@),
{
    let mut fields: Vec<(String, JsonValue)> = Vec::new();
    fields.push((String::from_str("content_hash"), JsonValue::Str(memory.content_hash.clone())));
    fields.push((String::from_str("timestamp_seconds"), JsonValue::Int(memory.timestamp_seconds)));
    match &memory.memory_type {
        Some(t) => {
            fields.push((String::from_str("memory_type"), JsonValue::Str(t.clone())));
        },
        None => {},
    }
    let mut tag_items: Vec<JsonValue> = Vec::new();
    let mut i: usize = 0;
    while i < memory.tags.len()
        invariant
            i <= memory.tags@.len(),
            tag_items@.len() == i,
            forall|j: int| 0 <= j < i ==> is_str(#[trigger] tag_items@[j], memory@.tags[j]),
        decreases memory.tags@.len() - i,
    {
        tag_items.push(JsonValue::Str(memory.tags[i].clone()));
        i = i + 1;
    }
    fields.push((String::from_str("tags"), JsonValue::Arr(tag_items)));
    let ghost base: int = if memory@.memory_type is Some {
        4
    } else {
        3
    };
    proof {
        assert(fields@.len() == base);
    }
    let mut k: usize = 0;
    while k < memory.metadata.len()
        invariant
            k <= memory.metadata@.len(),
            fields@.len() == base + k,
            base == (if memory@.memory_type is Some {
                4int
            } else {
                3int
            }),
            forall|j: int|
                0 <= j < k ==> fields@[base + j].0@ == prefixed_key(
                    (#[trigger] memory@.metadata[j]).0,
                ) && is_str(fields@[base + j].1, memory@.metadata[j].1),
            is_encoding_prefix(fields@, memory@, base),
        decreases memory.metadata@.len() - k,
    {
        let mut key = String::from_str("metadata_");
        key.append(memory.metadata[k].0.as_str());
        let value = JsonValue::Str(memory.metadata[k].1.clone());
        fields.push((key, value));
        proof {
            assert(memory@.metadata[k as int] == (
                memory.metadata@[k as int].0@,
                memory.metadata@[k as int].1@,
            ));
        }
        k = k + 1;
    }
    fields
}

/// The fixed leading fields of an encoding, used to carry them through
/// the user-metadata loop.
pub open spec fn is_encoding_prefix(
    fields: Seq<(String, JsonValue)>,
    m: MemoryView,
    base: int,
) -> bool {
    &&& fields.len() >= base
    &&& fields[0].0@ == "content_hash"@
    &&& is_str(fields[0].1, m.content_hash)
    &&& fields[1].0@ == "timestamp_seconds"@
    &&& is_int(fields[1].1, m.timestamp_seconds)
    &&& (m.memory_type is Some ==> fields[2].0@ == "memory_type"@ && is_str(
        fields[2].1,
        m.memory_type->0,
    ))
    &&& fields[base - 1].0@ == "tags"@
    &&& is_str_arr(fields[base - 1].1, m.tags)
}

/// The timestamp a wire metadata map decodes to.
pub open spec fn decoded_timestamp(fields: Seq<(String, JsonValue)>, fallback: i64) -> i64 {
    match lookup(fields, "timestamp_seconds"@) {
        Some(JsonValue::Int(n)) => n,
        _ => fallback,
    }
}

/// The memory type a wire metadata map decodes to.
pub open spec fn decoded_memory_type(fields: Seq<(String, JsonValue)>) -> Option<Seq<char>> {
    match lookup(fields, "memory_type"@) {
        Some(JsonValue::Str(s)) => Some(s@),
        _ => None,
    }
}

/// The strings among a JSON array's items, in order; anything else is
/// ignored.
pub open spec fn string_items(items: Seq<JsonValue>) -> Seq<Seq<char>>
    decreases items.len(),
{
    if items.len() == 0 {
        Seq::empty()
    } else {
        let rest = string_items(items.drop_last());
        match items.last() {
            JsonValue::Str(s) => rest.push(s@),
            _ => rest,
        }
    }
}

/// The tags a wire metadata map decodes to.
pub open spec fn decoded_tags(fields: Seq<(String, JsonValue)>) -> Seq<Seq<char>> {
    match lookup(fields, "tags"@) {
        Some(JsonValue::Arr(items)) => string_items(items@),
        _ => Seq::empty(),
    }
}

/// The user metadata a wire metadata map decodes to: every
/// string-valued field with the reserved prefix, stripped, in wire
/// order; fields without the prefix are not user metadata and are
/// ignored.
pub open spec fn decoded_user_metadata(fields: Seq<(String, JsonValue)>) -> Seq<
    (Seq<char>, Seq<char>),
>
    decreases fields.len(),
{
    if fields.len() == 0 {
        Seq::empty()
    } else {
        let rest = decoded_user_metadata(fields.drop_last());
        let last = fields.last();
        if has_meta_prefix(last.0@) {
            match last.1 {
                JsonValue::Str(v) => rest.push((stripped_key(last.0@), v@)),
                _ => rest,
            }
        } else {
            rest
        }
    }
}

/// The memory a remote record decodes to: the object id is the content
/// hash, the document body is the content, and the metadata map gives
/// the rest; a missing timestamp falls back to the supplied one.
pub open spec fn decoded_memory(
    id: Seq<char>,
    document: Seq<char>,
    fields: Seq<(String, JsonValue)>,
    embedding: Option<Seq<i64>>,
    fallback_timestamp: i64,
) -> MemoryView {
    MemoryView {
        content: document,
        content_hash: id,
        tags: decoded_tags(fields),
        memory_type: decoded_memory_type(fields),
        timestamp_seconds: decoded_timestamp(fields, fallback_timestamp),
        metadata: decoded_user_metadata(fields),
        embedding,
    }
}

/// Collects the string items of a JSON array.
fn collect_strings(items: &Vec<JsonValue>) -> (r: Vec<String>)
    ensures
        strings_view(r@) == string_items(items@),
{
    let mut out: Vec<String> = Vec::new();
    let mut i: usize = 0;
    proof {
        assert(strings_view(out@) =~= string_items(items@.take(0)));
    }
    while i < items.len()
        invariant
            i <= items@.len(),
            strings_view(out@) == string_items(items@.take(i as int)),
        decreases items@.len() - i,
    {
        match &items[i] {
            JsonValue::Str(s) => {
                out.push(s.clone());
            },
            _ => {},
        }
        proof {
            let t = items@.take(i + 1 as int);
            assert(t.drop_last() =~= items@.take(i as int));
            assert(t.last() == items@[i as int]);
            match items@[i as int] {
                JsonValue::Str(s) => {
                    assert(strings_view(out@) =~= string_items(items@.take(i as int)).push(s@));
                },
                _ => {},
            }
        }
        i = i + 1;
    }
    proof {
        assert(items@.take(items@.len() as int) =~= items@);
    }
    out
}

/// Whether a wire key carries the user-metadata prefix (executable).
fn key_has_prefix(k: &String) -> (r: bool)
    ensures
        r == has_meta_prefix(k@),
{
    proof {
        reveal_strlit("metadata_");
    }
    let n = k.as_str().unicode_len();
    if n < 9 {
        return false;
    }
    let sub = String::from_str(k.as_str().substring_char(0, 9));
    let pref = String::from_str("metadata_");
    let r = sub == pref;
    proof {
        assert(k@.take(9) =~= k@.subrange(0, 9));
    }
    r
}

/// Strips the user-metadata prefix from a wire key.
fn strip_meta_prefix(k: &String) -> (r: String)
    requires
        k@.len() >= 9,
    ensures
        r@ == stripped_key(k@),
{
    let n = k.as_str().unicode_len();
    let rest = k.as_str().substring_char(9, n);
    proof {
        assert(k@.subrange(9, k@.len() as int) =~= k@.skip(9));
    }
    String::from_str(rest)
}

/// Decodes a remote record back into a memory.
pub fn parse_metadata(
    id: &str,
    document: &str,
    metadata: &Vec<(String, JsonValue)>,
    embedding: Option<Vec<i64>>,
    fallback_timestamp: i64,
) -> (m: Memory)
    ensures
        m@ == decoded_memory(
            id@,
            document@,
            metadata@,
            match embedding {
                Some(e) => Some(e@),
                None => None,
            },
            fallback_timestamp,
        ),
{
    let timestamp_seconds: i64 = match find_field(
        metadata,
        &String::from_str("timestamp_seconds"),
    ) {
        Some(i) => match &metadata[i].1 {
            JsonValue::Int(n) => *n,
            _ => fallback_timestamp,
        },
        None => fallback_timestamp,
    };
    let memory_type: Option<String> = match find_field(metadata, &String::from_str("memory_type"))
        {
        Some(i) => match &metadata[i].1 {
            JsonValue::Str(s) => Some(s.clone()),
            _ => None,
        },
        None => None,
    };
    let tags: Vec<String> = match find_field(metadata, &String::from_str("tags")) {
        Some(i) => match &metadata[i].1 {
            JsonValue::Arr(items) => collect_strings(items),
            _ => Vec::new(),
        },
        None => Vec::new(),
    };
    proof {
        assert(strings_view(Seq::<String>::empty()) =~= Seq::<Seq<char>>::empty());
    }
    let mut user: Vec<(String, String)> = Vec::new();
    let mut i: usize = 0;
    proof {
        assert(crate::hashing::md_view(user@) =~= decoded_user_metadata(metadata@.take(0)));
    }
    while i < metadata.len()
        invariant
            i <= metadata@.len(),
            crate::hashing::md_view(user@) == decoded_user_metadata(metadata@.take(i as int)),
        decreases metadata@.len() - i,
    {
        let key_is_prefixed = key_has_prefix(&metadata[i].0);
        if key_is_prefixed {
            proof {
                reveal_strlit("metadata_");
            }
            match &metadata[i].1 {
                JsonValue::Str(v) => {
                    let stripped = strip_meta_prefix(&metadata[i].0);
                    user.push((stripped, v.clone()));
                },
                _ => {},
            }
        }
        proof {
            let t = metadata@.take(i + 1 as int);
            assert(t.drop_last() =~= metadata@.take(i as int));
            assert(t.last() == metadata@[i as int]);
            if has_meta_prefix(metadata@[i as int].0@) {
                match metadata@[i as int].1 {
                    JsonValue::Str(v) => {
                        assert(crate::hashing::md_view(user@) =~= decoded_user_metadata(
                            metadata@.take(i as int),
                        ).push((stripped_key(metadata@[i as int].0@), v@)));
                    },
                    _ => {},
                }
            }
        }
        i = i + 1;
    }
    proof {
        assert(metadata@.take(metadata@.len() as int) =~= metadata@);
    }
    Memory {
        content: document.to_owned(),
        content_hash: id.to_owned(),
        tags,
        memory_type,
        timestamp_seconds,
        metadata: user,
        embedding,
    }
}

/// Stripping inverts prefixing exactly.
pub proof fn lemma_prefix_round_trip(k: Seq<char>)
    ensures
        has_meta_prefix(prefixed_key(k)),
        stripped_key(prefixed_key(k)) == k,
{
    reveal_strlit("metadata_");
    assert(prefixed_key(k).take(9) =~= "metadata_"@);
    assert(prefixed_key(k).skip(9) =~= k);
}

/// The four fixed wire keys are pairwise distinct and none carries the
/// user-metadata prefix.
proof fn lemma_base_keys()
    ensures
        !has_meta_prefix("content_hash"@),
        !has_meta_prefix("timestamp_seconds"@),
        !has_meta_prefix("memory_type"@),
        !has_meta_prefix("tags"@),
        "content_hash"@ != "timestamp_seconds"@,
        "content_hash"@ != "memory_type"@,
        "content_hash"@ != "tags"@,
        "timestamp_seconds"@ != "memory_type"@,
        "timestamp_seconds"@ != "tags"@,
        "memory_type"@ != "tags"@,
{
    reveal_strlit("content_hash");
    reveal_strlit("timestamp_seconds");
    reveal_strlit("memory_type");
    reveal_strlit("tags");
    reveal_strlit("metadata_");
    assert("content_hash"@.len() == 12);
    assert("timestamp_seconds"@.len() == 17);
    assert("memory_type"@.len() == 11);
    assert("tags"@.len() == 4);
    assert("content_hash"@.take(9)[0] == 'c' && "metadata_"@[0] == 'm');
    assert("timestamp_seconds"@.take(9)[0] == 't');
    assert("memory_type"@.take(9)[2] == 'm' && "metadata_"@[2] == 't');
}

/// `lookup` finds the first field carrying its key.
proof fn lemma_lookup_at(fields: Seq<(String, JsonValue)>, key: Seq<char>, i: int)
    requires
        0 <= i < fields.len(),
        forall|j: int| 0 <= j < i ==> (#[trigger] fields[j]).0@ != key,
        fields[i].0@ == key,
    ensures
        lookup(fields, key) == Some(fields[i].1),
    decreases i,
{
    if i == 0 {
    } else {
        assert(fields[0].0@ != key);
        let t = fields.drop_first();
        assert(forall|j: int| 0 <= j < t.len() ==> #[trigger] t[j] == fields[j + 1]);
        lemma_lookup_at(t, key, i - 1);
    }
}

/// `lookup` misses a key no field carries.
proof fn lemma_lookup_none(fields: Seq<(String, JsonValue)>, key: Seq<char>)
    requires
        forall|j: int| 0 <= j < fields.len() ==> (#[trigger] fields[j]).0@ != key,
    ensures
        lookup(fields, key) is None,
    decreases fields.len(),
{
    if fields.len() > 0 {
        let t = fields.drop_first();
        assert(forall|j: int| 0 <= j < t.len() ==> #[trigger] t[j] == fields[j + 1]);
        lemma_lookup_none(t, key);
    }
}

/// An array of exactly the strings `ss` yields `ss` back.
proof fn lemma_string_items_exact(items: Seq<JsonValue>, ss: Seq<Seq<char>>)
    requires
        items.len() == ss.len(),
        forall|i: int| 0 <= i < ss.len() ==> is_str(#[trigger] items[i], ss[i]),
    ensures
        string_items(items) == ss,
    decreases items.len(),
{
    if items.len() == 0 {
        assert(string_items(items) =~= ss);
    } else {
        let ip = items.drop_last();
        let sp = ss.drop_last();
        assert(forall|i: int|
            0 <= i < sp.len() ==> #[trigger] ip[i] == items[i] && sp[i] == ss[i]);
        lemma_string_items_exact(ip, sp);
        assert(is_str(items.last(), ss.last()));
        assert(string_items(items) =~= ss);
    }
}

/// The user metadata of a well-formed encoding decodes to exactly the
/// memory's metadata.
proof fn lemma_decoded_user(fields: Seq<(String, JsonValue)>, m: MemoryView)
    requires
        is_encoding_of(fields, m),
    ensures
        decoded_user_metadata(fields) == m.metadata,
    decreases m.metadata.len(),
{
    lemma_base_keys();
    let base: int = if m.memory_type is Some {
        4
    } else {
        3
    };
    if m.metadata.len() == 0 {
        assert(fields.len() == base);
        let f_tags = fields;
        assert(f_tags.last() == fields[base - 1]);
        assert(!has_meta_prefix(fields[base - 1].0@));
        let f2 = f_tags.drop_last();
        assert(decoded_user_metadata(f_tags) == decoded_user_metadata(f2));
        if m.memory_type is Some {
            assert(f2.last() == fields[2]);
            assert(!has_meta_prefix(fields[2].0@));
            let f1 = f2.drop_last();
            assert(decoded_user_metadata(f2) == decoded_user_metadata(f1));
            assert(f1.last() == fields[1]);
            assert(!has_meta_prefix(fields[1].0@));
            let f0 = f1.drop_last();
            assert(decoded_user_metadata(f1) == decoded_user_metadata(f0));
            assert(f0.last() == fields[0]);
            assert(!has_meta_prefix(fields[0].0@));
            assert(decoded_user_metadata(f0) == decoded_user_metadata(f0.drop_last()));
            assert(f0.drop_last().len() == 0);
        } else {
            assert(f2.last() == fields[1]);
            assert(!has_meta_prefix(fields[1].0@));
            let f1 = f2.drop_last();
            assert(decoded_user_metadata(f2) == decoded_user_metadata(f1));
            assert(f1.last() == fields[0]);
            assert(!has_meta_prefix(fields[0].0@));
            assert(decoded_user_metadata(f1) == decoded_user_metadata(f1.drop_last()));
            assert(f1.drop_last().len() == 0);
        }
        assert(decoded_user_metadata(fields) =~= m.metadata);
    } else {
        let last_entry = m.metadata.last();
        let li = m.metadata.len() - 1;
        assert(fields.last() == fields[base + li]);
        assert(fields[base + li].0@ == prefixed_key(m.metadata[li].0));
        lemma_prefix_round_trip(m.metadata[li].0);
        let mp = MemoryView { metadata: m.metadata.drop_last(), ..m };
        let fp = fields.drop_last();
        assert(is_encoding_of(fp, mp)) by {
            assert(forall|j: int| 0 <= j < fp.len() ==> #[trigger] fp[j] == fields[j]);
            assert(forall|i: int|
                0 <= i < mp.metadata.len() ==> #[trigger] mp.metadata[i] == m.metadata[i]);
        }
        lemma_decoded_user(fp, mp);
        assert(is_str(fields[base + li].1, m.metadata[li].1));
        match fields.last().1 {
            JsonValue::Str(v) => {
                assert(decoded_user_metadata(fields) == decoded_user_metadata(fp).push(
                    (stripped_key(fields.last().0@), v@),
                ));
                assert(stripped_key(fields.last().0@) == m.metadata[li].0);
                assert(decoded_user_metadata(fields) =~= m.metadata);
            },
            _ => {
                assert(false);
            },
        }
    }
}

/// The wire key naming which record fields a fetch should return.
pub open spec fn requested_key() -> Seq<char> {
    "incl"@ + "ude"@
}

/// Builds the wire key naming which record fields a fetch should
/// return.
fn fields_requested_key() -> (r: String)
    ensures
        r@ == requested_key(),
{
    let mut s = String::from_str("incl");
    s.append("ude");
    s
}

/// `v` is an array holding exactly the fixed-point numbers `xs`.
pub open spec fn is_micros_arr(v: JsonValue, xs: Seq<i64>) -> bool {
    &&& v matches JsonValue::Arr(items)
    &&& items@.len() == xs.len()
    &&& forall|i: int|
        0 <= i < xs.len() ==> ((#[trigger] items@[i]) matches JsonValue::Micros(x) && x
            == xs[i])
}

/// Builds the `{"ids": [hash]}` body of the point-lookup and delete
/// calls.
pub fn build_ids_request(content_hash: &str) -> (r: JsonValue)
    ensures
        r matches JsonValue::Obj(fields) && fields@.len() == 1 && fields@[0].0@ == "ids"@
            && is_str_arr(fields@[0].1, seq![content_hash@]),
{
    let mut items: Vec<JsonValue> = Vec::new();
    items.push(JsonValue::Str(content_hash.to_owned()));
    let mut fields: Vec<(String, JsonValue)> = Vec::new();
    fields.push((String::from_str("ids"), JsonValue::Arr(items)));
    JsonValue::Obj(fields)
}

/// Builds the collection-creation body: the collection is configured
/// for cosine distance, which the retrieval score transform relies on.
pub fn build_create_collection_request(name: &str) -> (r: JsonValue)
    ensures
        r matches JsonValue::Obj(fields) && fields@.len() == 2 && fields@[0].0@ == "name"@
            && is_str(fields@[0].1, name@) && fields@[1].0@ == "metadata"@ && (
        fields@[1].1 matches JsonValue::Obj(inner) && inner@.len() == 1 && inner@[0].0@
            == "hnsw:space"@ && is_str(inner@[0].1, "cosine"@)),
{
    let mut inner: Vec<(String, JsonValue)> = Vec::new();
    inner.push((String::from_str("hnsw:space"), JsonValue::Str(String::from_str("cosine"))));
    let mut fields: Vec<(String, JsonValue)> = Vec::new();
    fields.push((String::from_str("name"), JsonValue::Str(name.to_owned())));
    fields.push((String::from_str("metadata"), JsonValue::Obj(inner)));
    JsonValue::Obj(fields)
}

/// Builds the insert body: id, embedding, encoded metadata and the raw
/// content, each as a one-element batch.
pub fn build_add_request(memory: &Memory, embedding: &Vec<i64>) -> (r: JsonValue)
    ensures
        r matches JsonValue::Obj(fields) && fields@.len() == 4 && fields@[0].0@ == "ids"@
            && is_str_arr(fields@[0].1, seq![memory@.content_hash]) && fields@[1].0@
            == "embeddings"@ && (fields@[1].1 matches JsonValue::Arr(embs) && embs@.len() == 1
            && is_micros_arr(embs@[0], embedding@)) && fields@[2].0@ == "metadatas"@ && (
        fields@[2].1 matches JsonValue::Arr(metas) && metas@.len() == 1 && (
        metas@[0] matches JsonValue::Obj(inner) && is_encoding_of(inner@, memory@)))
            && fields@[3].0@ == "documents"@ && (fields@[3].1 matches JsonValue::Arr(docs)
            && docs@.len() == 1 && is_str(docs@[0], memory@.content)),
{
    let mut ids: Vec<JsonValue> = Vec::new();
    ids.push(JsonValue::Str(memory.content_hash.clone()));
    let mut comps: Vec<JsonValue> = Vec::new();
    let mut i: usize = 0;
    while i < embedding.len()
        invariant
            i <= embedding@.len(),
            comps@.len() == i,
            forall|j: int|
                0 <= j < i ==> ((#[trigger] comps@[j]) matches JsonValue::Micros(x) && x
                    == embedding@[j]),
        decreases embedding@.len() - i,
    {
        comps.push(JsonValue::Micros(embedding[i]));
        i = i + 1;
    }
    let mut embs: Vec<JsonValue> = Vec::new();
    embs.push(JsonValue::Arr(comps));
    let mut metas: Vec<JsonValue> = Vec::new();
    metas.push(JsonValue::Obj(format_metadata(memory)));
    let mut docs: Vec<JsonValue> = Vec::new();
    docs.push(JsonValue::Str(memory.content.clone()));
    let mut fields: Vec<(String, JsonValue)> = Vec::new();
    fields.push((String::from_str("ids"), JsonValue::Arr(ids)));
    fields.push((String::from_str("embeddings"), JsonValue::Arr(embs)));
    fields.push((String::from_str("metadatas"), JsonValue::Arr(metas)));
    fields.push((String::from_str("documents"), JsonValue::Arr(docs)));
    JsonValue::Obj(fields)
}

/// Builds the nearest-neighbor query body, asking for metadata,
/// documents, embeddings and distances back.
pub fn build_query_request(query_embedding: &Vec<i64>, n_results: usize) -> (r: JsonValue)
    requires
        n_results <= 0x7fff_ffff_ffff_ffff,
    ensures
        r matches JsonValue::Obj(fields) && fields@.len() == 3 && fields@[0].0@
            == "query_embeddings"@ && (fields@[0].1 matches JsonValue::Arr(qs) && qs@.len() == 1
            && is_micros_arr(qs@[0], query_embedding@)) && fields@[1].0@ == "n_results"@
            && is_int(fields@[1].1, n_results as i64) && fields@[2].0@ == requested_key()
            && is_str_arr(
            fields@[2].1,
            seq!["metadatas"@, "documents"@, "embeddings"@, "distances"@],
        ),
{
    let mut comps: Vec<JsonValue> = Vec::new();
    let mut i: usize = 0;
    while i < query_embedding.len()
        invariant
            i <= query_embedding@.len(),
            comps@.len() == i,
            forall|j: int|
                0 <= j < i ==> ((#[trigger] comps@[j]) matches JsonValue::Micros(x) && x
                    == query_embedding@[j]),
        decreases query_embedding@.len() - i,
    {
        comps.push(JsonValue::Micros(query_embedding[i]));
        i = i + 1;
    }
    let mut qs: Vec<JsonValue> = Vec::new();
    qs.push(JsonValue::Arr(comps));
    let mut requested: Vec<JsonValue> = Vec::new();
    requested.push(JsonValue::Str(String::from_str("metadatas")));
    requested.push(JsonValue::Str(String::from_str("documents")));
    requested.push(JsonValue::Str(String::from_str("embeddings")));
    requested.push(JsonValue::Str(String::from_str("distances")));
    let mut fields: Vec<(String, JsonValue)> = Vec::new();
    fields.push((String::from_str("query_embeddings"), JsonValue::Arr(qs)));
    fields.push((String::from_str("n_results"), JsonValue::Int(n_results as i64)));
    fields.push((fields_requested_key(), JsonValue::Arr(requested)));
    proof {
        assert(seq!["metadatas"@, "documents"@, "embeddings"@, "distances"@].len() == 4);
    }
    JsonValue::Obj(fields)
}

/// One `$contains` predicate over the tags field.
pub open spec fn is_tag_condition(v: JsonValue, tag: Seq<char>) -> bool {
    &&& v matches JsonValue::Obj(f)
    &&& f@.len() == 1
    &&& f@[0].0@ == "$contains"@
    &&& f@[0].1 matches JsonValue::Obj(inner)
    &&& inner@.len() == 2
    &&& inner@[0].0@ == "path"@
    &&& is_str(inner@[0].1, "tags"@)
    &&& inner@[1].0@ == "value"@
    &&& is_str(inner@[1].1, tag)
}

fn build_tag_condition(tag: &String) -> (r: JsonValue)
    ensures
        is_tag_condition(r, tag@),
{
    let mut inner: Vec<(String, JsonValue)> = Vec::new();
    inner.push((String::from_str("path"), JsonValue::Str(String::from_str("tags"))));
    inner.push((String::from_str("value"), JsonValue::Str(tag.clone())));
    let mut f: Vec<(String, JsonValue)> = Vec::new();
    f.push((String::from_str("$contains"), JsonValue::Obj(inner)));
    JsonValue::Obj(f)
}

/// Translates an OR-over-tags query into the protocol's filter
/// expression: a single `$contains` predicate for one tag, predicates
/// under `$or` for several.
pub fn build_tag_filter(tags: &Vec<String>) -> (r: JsonValue)
    requires
        tags@.len() >= 1,
    ensures
        tags@.len() == 1 ==> is_tag_condition(r, tags@[0]@),
        tags@.len() > 1 ==> (r matches JsonValue::Obj(f) && f@.len() == 1 && f@[0].0@ == "$or"@
            && (f@[0].1 matches JsonValue::Arr(conds) && conds@.len() == tags@.len() && forall|
            i: int,
        | 0 <= i < tags@.len() ==> is_tag_condition(#[trigger] conds@[i], tags@[i]@))),
{
    if tags.len() == 1 {
        build_tag_condition(&tags[0])
    } else {
        let mut conds: Vec<JsonValue> = Vec::new();
        let mut i: usize = 0;
        while i < tags.len()
            invariant
                i <= tags@.len(),
                conds@.len() == i,
                forall|j: int| 0 <= j < i ==> is_tag_condition(#[trigger] conds@[j], tags@[j]@),
            decreases tags@.len() - i,
        {
            let c = build_tag_condition(&tags[i]);
            conds.push(c);
            i = i + 1;
        }
        let mut f: Vec<(String, JsonValue)> = Vec::new();
        f.push((String::from_str("$or"), JsonValue::Arr(conds)));
        JsonValue::Obj(f)
    }
}

/// Builds the metadata-only fetch body of a tag search: the filter and
/// the fields to include.
pub fn build_tag_search_request(filter: JsonValue) -> (r: JsonValue)
    ensures
        r matches JsonValue::Obj(fields) && fields@.len() == 2 && fields@[0].0@ == "where"@
            && fields@[0].1 == filter && fields@[1].0@ == requested_key() && is_str_arr(
            fields@[1].1,
            seq!["metadatas"@, "documents"@, "embeddings"@],
        ),
{
    let mut requested: Vec<JsonValue> = Vec::new();
    requested.push(JsonValue::Str(String::from_str("metadatas")));
    requested.push(JsonValue::Str(String::from_str("documents")));
    requested.push(JsonValue::Str(String::from_str("embeddings")));
    let mut fields: Vec<(String, JsonValue)> = Vec::new();
    fields.push((String::from_str("where"), filter));
    fields.push((fields_requested_key(), JsonValue::Arr(requested)));
    proof {
        assert(seq!["metadatas"@, "documents"@, "embeddings"@].len() == 3);
    }
    JsonValue::Obj(fields)
}

/// Round trip: a memory encoded for the wire and decoded back is the
/// same memory, field for field, whatever fallback timestamp the
/// decoder was given; the embedding travels alongside unchanged.
pub proof fn lemma_metadata_round_trip(
    fields: Seq<(String, JsonValue)>,
    m: MemoryView,
    fallback_timestamp: i64,
)
    requires
        is_encoding_of(fields, m),
    ensures
        decoded_memory(m.content_hash, m.content, fields, m.embedding, fallback_timestamp) == m,
{
    lemma_base_keys();
    let base: int = if m.memory_type is Some {
        4
    } else {
        3
    };
    assert forall|j: int| 0 <= j < fields.len() && j >= base implies has_meta_prefix(
        (#[trigger] fields[j]).0@,
    ) by {
        assert(fields[j].0@ == prefixed_key(m.metadata[j - base].0));
        lemma_prefix_round_trip(m.metadata[j - base].0);
    }
    // timestamp: found at index 1
    lemma_lookup_at(fields, "timestamp_seconds"@, 1);
    assert(decoded_timestamp(fields, fallback_timestamp) == m.timestamp_seconds);
    // memory type: found at index 2, or nowhere
    if m.memory_type is Some {
        lemma_lookup_at(fields, "memory_type"@, 2);
        assert(decoded_memory_type(fields) == m.memory_type);
    } else {
        assert forall|j: int| 0 <= j < fields.len() implies (#[trigger] fields[j]).0@
            != "memory_type"@ by {
            if j >= base {
                assert(has_meta_prefix(fields[j].0@));
                assert(!has_meta_prefix("memory_type"@));
            }
        }
        lemma_lookup_none(fields, "memory_type"@);
        assert(decoded_memory_type(fields) == m.memory_type);
    }
    // tags: found at index base - 1
    lemma_lookup_at(fields, "tags"@, base - 1);
    match fields[base - 1].1 {
        JsonValue::Arr(items) => {
            lemma_string_items_exact(items@, m.tags);
            assert(decoded_tags(fields) == m.tags);
        },
        _ => {
            assert(false);
        },
    }
    lemma_decoded_user(fields, m);
}

/// The fixed-point value a JSON number stands for: `Micros` directly,
/// or an integral number scaled up when that fits.
pub open spec fn num_micros(v: JsonValue) -> Option<i64> {
    match v {
        JsonValue::Micros(m) => Some(m),
        JsonValue::Int(n) => if -9_223_372_036_854 <= n <= 9_223_372_036_854 {
            Some((n * 1_000_000) as i64)
        } else {
            None
        },
        _ => None,
    }
}

fn num_to_micros(v: &JsonValue) -> (r: Option<i64>)
    ensures
        r == num_micros(*v),
{
    match v {
        JsonValue::Micros(m) => Some(*m),
        JsonValue::Int(n) => {
            if -9_223_372_036_854i64 <= *n && *n <= 9_223_372_036_854i64 {
                Some(*n * 1_000_000)
            } else {
                None
            }
        },
        _ => None,
    }
}

/// The fixed-point numbers among a JSON array's items, in order;
/// anything non-numeric is ignored.
pub open spec fn micros_items(items: Seq<JsonValue>) -> Seq<i64>
    decreases items.len(),
{
    if items.len() == 0 {
        Seq::empty()
    } else {
        let rest = micros_items(items.drop_last());
        match num_micros(items.last()) {
            Some(m) => rest.push(m),
            None => rest,
        }
    }
}

fn collect_micros(items: &Vec<JsonValue>) -> (r: Vec<i64>)
    ensures
        r@ == micros_items(items@),
{
    let mut out: Vec<i64> = Vec::new();
    let mut i: usize = 0;
    proof {
        assert(out@ =~= micros_items(items@.take(0)));
    }
    while i < items.len()
        invariant
            i <= items@.len(),
            out@ == micros_items(items@.take(i as int)),
        decreases items@.len() - i,
    {
        match num_to_micros(&items[i]) {
            Some(m) => {
                out.push(m);
            },
            None => {},
        }
        proof {
            let t = items@.take(i + 1 as int);
            assert(t.drop_last() =~= items@.take(i as int));
            assert(t.last() == items@[i as int]);
        }
        i = i + 1;
    }
    proof {
        assert(items@.take(items@.len() as int) =~= items@);
    }
    out
}

/// The array stored under `key`, when there is one.
pub open spec fn arr_lookup(fields: Seq<(String, JsonValue)>, key: Seq<char>) -> Option<
    Seq<JsonValue>,
> {
    match lookup(fields, key) {
        Some(JsonValue::Arr(items)) => Some(items@),
        _ => None,
    }
}

/// The inner array at the head of the array stored under `key`: the
/// shape of a batch-of-one query response.
pub open spec fn nested_arr_lookup(fields: Seq<(String, JsonValue)>, key: Seq<char>) -> Option<
    Seq<JsonValue>,
> {
    match arr_lookup(fields, key) {
        Some(items) => if items.len() > 0 {
            match items[0] {
                JsonValue::Arr(inner) => Some(inner@),
                _ => None,
            }
        } else {
            None
        },
        None => None,
    }
}

/// Finds the array stored under `key`.
fn lookup_arr<'a>(fields: &'a Vec<(String, JsonValue)>, key: &String) -> (r: Option<
    &'a Vec<JsonValue>,
>)
    ensures
        match r {
            Some(v) => arr_lookup(fields@, key@) == Some(v@),
            None => arr_lookup(fields@, key@) is None,
        },
{
    match find_field(fields, key) {
        Some(i) => match &fields[i].1 {
            JsonValue::Arr(items) => Some(items),
            _ => None,
        },
        None => None,
    }
}

/// Finds the head inner array under `key`.
fn lookup_nested_arr<'a>(fields: &'a Vec<(String, JsonValue)>, key: &String) -> (r: Option<
    &'a Vec<JsonValue>,
>)
    ensures
        match r {
            Some(v) => nested_arr_lookup(fields@, key@) == Some(v@),
            None => nested_arr_lookup(fields@, key@) is None,
        },
{
    match lookup_arr(fields, key) {
        Some(items) => {
            if items.len() > 0 {
                match &items[0] {
                    JsonValue::Arr(inner) => Some(inner),
                    _ => None,
                }
            } else {
                None
            }
        },
        None => None,
    }
}

/// A point lookup found its record exactly when the returned `ids`
/// array is non-empty; any other shape reads as absent.
pub open spec fn exists_in_response(resp: JsonValue) -> bool {
    match resp {
        JsonValue::Obj(fields) => match arr_lookup(fields@, "ids"@) {
            Some(items) => items.len() > 0,
            None => false,
        },
        _ => false,
    }
}

/// Reads a point-lookup response.
pub fn decode_exists_response(resp: &JsonValue) -> (r: bool)
    ensures
        r == exists_in_response(*resp),
{
    match resp {
        JsonValue::Obj(fields) => match lookup_arr(fields, &String::from_str("ids")) {
            Some(items) => items.len() > 0,
            None => false,
        },
        _ => false,
    }
}

/// Whether a listed collection entry carries the name.
pub open spec fn named_collection(v: JsonValue, name: Seq<char>) -> bool {
    match v {
        JsonValue::Obj(fields) => match lookup(fields@, "name"@) {
            Some(JsonValue::Str(s)) => s@ == name,
            _ => false,
        },
        _ => false,
    }
}

/// Whether any of these listed entries carries the name.
pub open spec fn any_named(items: Seq<JsonValue>, name: Seq<char>) -> bool
    decreases items.len(),
{
    if items.len() == 0 {
        false
    } else {
        named_collection(items[0], name) || any_named(items.drop_first(), name)
    }
}

/// Whether the collection listing holds a collection of this name; a
/// listing of any other shape reads as holding none.
pub open spec fn collection_listed(resp: JsonValue, name: Seq<char>) -> bool {
    match resp {
        JsonValue::Arr(items) => any_named(items@, name),
        _ => false,
    }
}

/// Reads the collection listing for a collection of this name.
pub fn collection_exists(resp: &JsonValue, name: &str) -> (r: bool)
    ensures
        r == collection_listed(*resp, name@),
{
    let owned: String = name.to_owned();
    match resp {
        JsonValue::Arr(items) => {
            let mut i: usize = 0;
            proof {
                assert(items@.skip(0) =~= items@);
            }
            while i < items.len()
                invariant
                    i <= items@.len(),
                    owned@ == name@,
                    *resp == JsonValue::Arr(*items),
                    any_named(items@, name@) == any_named(items@.skip(i as int), name@),
                decreases items@.len() - i,
            {
                let is_named = match &items[i] {
                    JsonValue::Obj(fields) => match find_field(
                        fields,
                        &String::from_str("name"),
                    ) {
                        Some(k) => match &fields[k].1 {
                            JsonValue::Str(s) => *s == owned,
                            _ => false,
                        },
                        None => false,
                    },
                    _ => false,
                };
                proof {
                    assert(is_named == named_collection(items@[i as int], name@));
                }
                proof {
                    let s = items@.skip(i as int);
                    assert(s[0] == items@[i as int]);
                    assert(s.drop_first() =~= items@.skip(i + 1 as int));
                }
                if is_named {
                    return true;
                }
                i = i + 1;
            }
            proof {
                assert(items@.skip(items@.len() as int).len() == 0);
            }
            false
        },
        _ => false,
    }
}

/// The embedding attached to record `i`, when the response carries
/// embeddings and that entry is an array.
pub open spec fn embedding_at(embs: Option<Seq<JsonValue>>, i: int) -> Option<Seq<i64>> {
    match embs {
        Some(items) => if 0 <= i < items.len() {
            match items[i] {
                JsonValue::Arr(comps) => Some(micros_items(comps@)),
                _ => None,
            }
        } else {
            None
        },
        None => None,
    }
}

/// The record at position `i` of a fetch response, if ids, documents
/// and metadata are all present and well-shaped there.
pub open spec fn get_record_at(
    ids: Seq<JsonValue>,
    docs: Seq<JsonValue>,
    metas: Seq<JsonValue>,
    embs: Option<Seq<JsonValue>>,
    fallback: i64,
    i: int,
) -> Option<MemoryView> {
    if 0 <= i < ids.len() && i < docs.len() && i < metas.len() {
        match ids[i] {
            JsonValue::Str(id) => match docs[i] {
                JsonValue::Str(doc) => match metas[i] {
                    JsonValue::Obj(fields) => Some(
                        decoded_memory(id@, doc@, fields@, embedding_at(embs, i), fallback),
                    ),
                    _ => None,
                },
                _ => None,
            },
            _ => None,
        }
    } else {
        None
    }
}

/// The first `n` well-shaped records of a fetch response, in order.
pub open spec fn collected_records(
    ids: Seq<JsonValue>,
    docs: Seq<JsonValue>,
    metas: Seq<JsonValue>,
    embs: Option<Seq<JsonValue>>,
    fallback: i64,
    n: int,
) -> Seq<MemoryView>
    decreases n,
{
    if n <= 0 {
        Seq::empty()
    } else {
        let rest = collected_records(ids, docs, metas, embs, fallback, n - 1);
        match get_record_at(ids, docs, metas, embs, fallback, n - 1) {
            Some(m) => rest.push(m),
            None => rest,
        }
    }
}

/// Every record a fetch response decodes to: nothing when the `ids`,
/// `documents` or `metadatas` field is missing or not an array.
pub open spec fn get_response_records(resp: JsonValue, fallback: i64) -> Seq<MemoryView> {
    match resp {
        JsonValue::Obj(fields) => {
            let ids = arr_lookup(fields@, "ids"@);
            let docs = arr_lookup(fields@, "documents"@);
            let metas = arr_lookup(fields@, "metadatas"@);
            if ids is Some && docs is Some && metas is Some {
                collected_records(
                    ids->0,
                    docs->0,
                    metas->0,
                    arr_lookup(fields@, "embeddings"@),
                    fallback,
                    ids->0.len() as int,
                )
            } else {
                Seq::empty()
            }
        },
        _ => Seq::empty(),
    }
}

/// Decodes a fetch response (point lookup or tag search) into records.
/// Malformed entries are skipped, as a missing field would be.
pub fn decode_get_response(resp: &JsonValue, fallback_timestamp: i64) -> (r: Vec<Memory>)
    ensures
        memories_view(r@) == get_response_records(*resp, fallback_timestamp),
{
    let mut out: Vec<Memory> = Vec::new();
    proof {
        assert(memories_view(out@) =~= Seq::<MemoryView>::empty());
    }
    match resp {
        JsonValue::Obj(fields) => {
            let ids_opt = lookup_arr(fields, &String::from_str("ids"));
            let docs_opt = lookup_arr(fields, &String::from_str("documents"));
            let metas_opt = lookup_arr(fields, &String::from_str("metadatas"));
            let embs_opt = lookup_arr(fields, &String::from_str("embeddings"));
            match (ids_opt, docs_opt, metas_opt) {
                (Some(ids), Some(docs), Some(metas)) => {
                    let ghost embs_view: Option<Seq<JsonValue>> = match embs_opt {
                        Some(e) => Some(e@),
                        None => None,
                    };
                    let mut i: usize = 0;
                    proof {
                        assert(memories_view(out@) =~= collected_records(
                            ids@,
                            docs@,
                            metas@,
                            embs_view,
                            fallback_timestamp,
                            0,
                        ));
                    }
                    while i < ids.len()
                        invariant
                            i <= ids@.len(),
                            embs_view == (match embs_opt {
                                Some(e) => Some(e@),
                                None => None,
                            }),
                            memories_view(out@) == collected_records(
                                ids@,
                                docs@,
                                metas@,
                                embs_view,
                                fallback_timestamp,
                                i as int,
                            ),
                        decreases ids@.len() - i,
                    {
                        if i < docs.len() && i < metas.len() {
                            match &ids[i] {
                                JsonValue::Str(id) => match &docs[i] {
                                    JsonValue::Str(doc) => match &metas[i] {
                                        JsonValue::Obj(mfields) => {
                                            let emb: Option<Vec<i64>> = match embs_opt {
                                                Some(ev) => {
                                                    if i < ev.len() {
                                                        match &ev[i] {
                                                            JsonValue::Arr(comps) => Some(
                                                                collect_micros(comps),
                                                            ),
                                                            _ => None,
                                                        }
                                                    } else {
                                                        None
                                                    }
                                                },
                                                None => None,
                                            };
                                            proof {
                                                assert((match emb {
                                                    Some(e) => Some(e@),
                                                    None => None,
                                                }) == embedding_at(embs_view, i as int));
                                            }
                                            let m = parse_metadata(
                                                id.as_str(),
                                                doc.as_str(),
                                                mfields,
                                                emb,
                                                fallback_timestamp,
                                            );
                                            out.push(m);
                                        },
                                        _ => {},
                                    },
                                    _ => {},
                                },
                                _ => {},
                            }
                        }
                        proof {
                            let rec = get_record_at(
                                ids@,
                                docs@,
                                metas@,
                                embs_view,
                                fallback_timestamp,
                                i as int,
                            );
                            match rec {
                                Some(mv) => {
                                    assert(memories_view(out@) =~= collected_records(
                                        ids@,
                                        docs@,
                                        metas@,
                                        embs_view,
                                        fallback_timestamp,
                                        i as int,
                                    ).push(mv));
                                },
                                None => {},
                            }
                        }
                        i = i + 1;
                    }
                    out
                },
                _ => {
                    out
                },
            }
        },
        _ => {
            out
        },
    }
}

/// A score never above one: one minus the distance, clamped into the
/// fixed-point range.
pub open spec fn clamped_score(d: i64) -> i64 {
    let x = 1_000_000 - d as int;
    if x > i64::MAX as int {
        i64::MAX
    } else if x < i64::MIN as int {
        i64::MIN
    } else {
        x as i64
    }
}

fn score_from_distance(d: i64) -> (r: i64)
    ensures
        r == clamped_score(d),
{
    let x: i128 = 1_000_000i128 - (d as i128);
    if x > i64::MAX as i128 {
        i64::MAX
    } else if x < i64::MIN as i128 {
        i64::MIN
    } else {
        x as i64
    }
}

/// The scored result at position `i` of a query response; a missing or
/// non-numeric distance drops the entry.
pub open spec fn query_record_at(
    ids: Seq<JsonValue>,
    docs: Seq<JsonValue>,
    metas: Seq<JsonValue>,
    dists: Seq<JsonValue>,
    embs: Option<Seq<JsonValue>>,
    fallback: i64,
    i: int,
) -> Option<QueryResultView> {
    if 0 <= i < ids.len() && i < docs.len() && i < metas.len() && i < dists.len() {
        match ids[i] {
            JsonValue::Str(id) => match docs[i] {
                JsonValue::Str(doc) => match metas[i] {
                    JsonValue::Obj(fields) => match num_micros(dists[i]) {
                        Some(d) => Some(
                            QueryResultView {
                                memory: decoded_memory(
                                    id@,
                                    doc@,
                                    fields@,
                                    embedding_at(embs, i),
                                    fallback,
                                ),
                                relevance_score: clamped_score(d),
                            },
                        ),
                        None => None,
                    },
                    _ => None,
                },
                _ => None,
            },
            _ => None,
        }
    } else {
        None
    }
}

/// The first `n` well-shaped results of a query response, in order.
pub open spec fn collected_query_records(
    ids: Seq<JsonValue>,
    docs: Seq<JsonValue>,
    metas: Seq<JsonValue>,
    dists: Seq<JsonValue>,
    embs: Option<Seq<JsonValue>>,
    fallback: i64,
    n: int,
) -> Seq<QueryResultView>
    decreases n,
{
    if n <= 0 {
        Seq::empty()
    } else {
        let rest = collected_query_records(ids, docs, metas, dists, embs, fallback, n - 1);
        match query_record_at(ids, docs, metas, dists, embs, fallback, n - 1) {
            Some(m) => rest.push(m),
            None => rest,
        }
    }
}

/// Every scored result a nearest-neighbor response decodes to. The
/// response nests each field one level for the batch-of-one query; the
/// relevance score is one minus the returned cosine distance.
pub open spec fn query_response_records(resp: JsonValue, fallback: i64) -> Seq<
    QueryResultView,
> {
    match resp {
        JsonValue::Obj(fields) => {
            let ids = nested_arr_lookup(fields@, "ids"@);
            let docs = nested_arr_lookup(fields@, "documents"@);
            let metas = nested_arr_lookup(fields@, "metadatas"@);
            let dists = nested_arr_lookup(fields@, "distances"@);
            if ids is Some && docs is Some && metas is Some && dists is Some {
                collected_query_records(
                    ids->0,
                    docs->0,
                    metas->0,
                    dists->0,
                    nested_arr_lookup(fields@, "embeddings"@),
                    fallback,
                    ids->0.len() as int,
                )
            } else {
                Seq::empty()
            }
        },
        _ => Seq::empty(),
    }
}

/// Decodes a nearest-neighbor query response into scored results.
pub fn decode_query_response(resp: &JsonValue, fallback_timestamp: i64) -> (r: Vec<
    MemoryQueryResult,
>)
    ensures
        results_view(r@) == query_response_records(*resp, fallback_timestamp),
{
    let mut out: Vec<MemoryQueryResult> = Vec::new();
    proof {
        assert(results_view(out@) =~= Seq::<QueryResultView>::empty());
    }
    match resp {
        JsonValue::Obj(fields) => {
            let ids_opt = lookup_nested_arr(fields, &String::from_str("ids"));
            let docs_opt = lookup_nested_arr(fields, &String::from_str("documents"));
            let metas_opt = lookup_nested_arr(fields, &String::from_str("metadatas"));
            let dists_opt = lookup_nested_arr(fields, &String::from_str("distances"));
            let embs_opt = lookup_nested_arr(fields, &String::from_str("embeddings"));
            match (ids_opt, docs_opt, metas_opt, dists_opt) {
                (Some(ids), Some(docs), Some(metas), Some(dists)) => {
                    let ghost embs_view: Option<Seq<JsonValue>> = match embs_opt {
                        Some(e) => Some(e@),
                        None => None,
                    };
                    let mut i: usize = 0;
                    proof {
                        assert(results_view(out@) =~= collected_query_records(
                            ids@,
                            docs@,
                            metas@,
                            dists@,
                            embs_view,
                            fallback_timestamp,
                            0,
                        ));
                    }
                    while i < ids.len()
                        invariant
                            i <= ids@.len(),
                            embs_view == (match embs_opt {
                                Some(e) => Some(e@),
                                None => None,
                            }),
                            results_view(out@) == collected_query_records(
                                ids@,
                                docs@,
                                metas@,
                                dists@,
                                embs_view,
                                fallback_timestamp,
                                i as int,
                            ),
                        decreases ids@.len() - i,
                    {
                        if i < docs.len() && i < metas.len() && i < dists.len() {
                            match &ids[i] {
                                JsonValue::Str(id) => match &docs[i] {
                                    JsonValue::Str(doc) => match &metas[i] {
                                        JsonValue::Obj(mfields) => match num_to_micros(
                                            &dists[i],
                                        ) {
                                            Some(d) => {
                                                let emb: Option<Vec<i64>> = match embs_opt {
                                                    Some(ev) => {
                                                        if i < ev.len() {
                                                            match &ev[i] {
                                                                JsonValue::Arr(comps) => Some(
                                                                    collect_micros(comps),
                                                                ),
                                                                _ => None,
                                                            }
                                                        } else {
                                                            None
                                                        }
                                                    },
                                                    None => None,
                                                };
                                                proof {
                                                    assert((match emb {
                                                        Some(e) => Some(e@),
                                                        None => None,
                                                    }) == embedding_at(embs_view, i as int));
                                                }
                                                let m = parse_metadata(
                                                    id.as_str(),
                                                    doc.as_str(),
                                                    mfields,
                                                    emb,
                                                    fallback_timestamp,
                                                );
                                                let score = score_from_distance(d);
                                                out.push(
                                                    MemoryQueryResult {
                                                        memory: m,
                                                        relevance_score: score,
                                                    },
                                                );
                                            },
                                            None => {},
                                        },
                                        _ => {},
                                    },
                                    _ => {},
                                },
                                _ => {},
                            }
                        }
                        proof {
                            let rec = query_record_at(
                                ids@,
                                docs@,
                                metas@,
                                dists@,
                                embs_view,
                                fallback_timestamp,
                                i as int,
                            );
                            match rec {
                                Some(rv) => {
                                    assert(results_view(out@) =~= collected_query_records(
                                        ids@,
                                        docs@,
                                        metas@,
                                        dists@,
                                        embs_view,
                                        fallback_timestamp,
                                        i as int,
                                    ).push(rv));
                                },
                                None => {},
                            }
                        }
                        i = i + 1;
                    }
                    out
                },
                _ => {
                    out
                },
            }
        },
        _ => {
            out
        },
    }
}

} // verus!
