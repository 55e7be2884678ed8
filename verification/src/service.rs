//! The caller-facing operations' pure core: building a record from a
//! store request, rendering result listings, and the remote endpoint
//! paths. The transport that carries requests in and responses out is
//! the host program's business.
use vstd::prelude::*;
use vstd::string::StringExecFns;

use crate::hashing::{content_hash_of, generate_content_hash, hex_char_of, md_view};
use crate::models::{Memory, MemoryQueryResult, MemoryView, QueryResultView, StoreMemoryRequest,
    strings_view};
use crate::storage::{memories_view, results_view};

verus! {

/// Builds the memory a store request describes: the identity hash is
/// derived from the content and metadata, the timestamp is fixed at
/// creation, and the embedding is left to be computed.
pub fn build_memory(request: StoreMemoryRequest, timestamp_seconds: i64) -> (m: Memory)
    ensures
        m@.content == request.content@,
        m@.content_hash == content_hash_of(
            request.content@,
            md_view(
                match request.metadata {
                    Some(md) => md@,
                    None => Seq::empty(),
                },
            ),
        ),
        m@.tags == strings_view(
            match request.tags {
                Some(t) => t@,
                None => Seq::empty(),
            },
        ),
        m@.memory_type == (match request.memory_type {
            Some(t) => Some(t@),
            None => None::<Seq<char>>,
        }),
        m@.timestamp_seconds == timestamp_seconds,
        m@.metadata == md_view(
            match request.metadata {
                Some(md) => md@,
                None => Seq::empty(),
            },
        ),
        m@.embedding is None,
{
    let metadata: Vec<(String, String)> = match request.metadata {
        Some(md) => md,
        None => Vec::new(),
    };
    let content_hash = generate_content_hash(request.content.as_str(), &metadata);
    let tags: Vec<String> = match request.tags {
        Some(t) => t,
        None => Vec::new(),
    };
    proof {
        assert(md_view(Seq::<(String, String)>::empty()) =~= Seq::<(Seq<char>, Seq<char>)>::empty());
        assert(strings_view(Seq::<String>::empty()) =~= Seq::<Seq<char>>::empty());
    }
    Memory {
        content: request.content,
        content_hash,
        tags,
        memory_type: request.memory_type,
        timestamp_seconds,
        metadata,
        embedding: None,
    }
}

/// How many results a retrieval request asks for: the stated count, or
/// five when it leaves the count open.
pub fn requested_result_count(request: &crate::models::RetrieveMemoryRequest) -> (n: usize)
    ensures
        n == (match request.n_results {
            Some(k) => k,
            None => 5,
        }),
{
    match request.n_results {
        Some(k) => k,
        None => 5,
    }
}

/// The decimal rendering of a number.
pub open spec fn dec_chars(n: nat) -> Seq<char>
    decreases n,
{
    if n < 10 {
        seq![hex_char_of(n as u8)]
    } else {
        dec_chars(n / 10).push(hex_char_of((n % 10) as u8))
    }
}

/// Appends the decimal rendering of `n`.
pub fn push_decimal(s: &mut String, n: u64)
    ensures
        final(s)@ == old(s)@ + dec_chars(n as nat),
    decreases n,
{
    if n < 10 {
        crate::hashing::push_hex_char(s, n as u8);
        proof {
            assert(old(s)@ + dec_chars(n as nat) =~= old(s)@.push(hex_char_of(n as u8)));
        }
    } else {
        push_decimal(s, n / 10);
        crate::hashing::push_hex_char(s, (n % 10) as u8);
        proof {
            assert(old(s)@ + dec_chars(n as nat) =~= (old(s)@ + dec_chars((n / 10) as nat)).push(
                hex_char_of((n % 10) as u8),
            ));
        }
    }
}

/// The four-decimal-place rendering of a fixed-point score: sign,
/// integer part, and the first four fractional digits. A score at the
/// very bottom of the range is shown at the magnitude of the top.
pub open spec fn score_chars(micros: i64) -> Seq<char> {
    let m: int = if micros == i64::MIN {
        i64::MAX as int
    } else if micros < 0 {
        -(micros as int)
    } else {
        micros as int
    };
    let sign: Seq<char> = if micros < 0 {
        seq!['-']
    } else {
        Seq::empty()
    };
    sign + dec_chars((m / 1_000_000) as nat) + seq!['.'] + seq![
        hex_char_of(((m / 100_000) % 10) as u8),
        hex_char_of(((m / 10_000) % 10) as u8),
        hex_char_of(((m / 1_000) % 10) as u8),
        hex_char_of(((m / 100) % 10) as u8),
    ]
}

/// Appends the four-decimal-place rendering of a fixed-point score.
#[verifier::rlimit(50)]
pub fn push_score(s: &mut String, micros: i64)
    ensures
        final(s)@ == old(s)@ + score_chars(micros),
{
    let m: i64 = if micros == i64::MIN {
        i64::MAX
    } else if micros < 0 {
        -micros
    } else {
        micros
    };
    if micros < 0 {
        s.append("-");
        proof {
            reveal_strlit("-");
            assert("-"@ =~= seq!['-']);
        }
    }
    push_decimal(s, (m / 1_000_000) as u64);
    s.append(".");
    proof {
        reveal_strlit(".");
        assert("."@ =~= seq!['.']);
    }
    crate::hashing::push_hex_char(s, ((m / 100_000) % 10) as u8);
    crate::hashing::push_hex_char(s, ((m / 10_000) % 10) as u8);
    crate::hashing::push_hex_char(s, ((m / 1_000) % 10) as u8);
    crate::hashing::push_hex_char(s, ((m / 100) % 10) as u8);
    proof {
        assert(s@ =~= old(s)@ + score_chars(micros));
    }
}

/// A tag list as it is shown: quoted, comma-separated, in brackets.
pub open spec fn quoted(t: Seq<char>) -> Seq<char> {
    seq!['"'] + t + seq!['"']
}

pub open spec fn tags_listing(tags: Seq<Seq<char>>) -> Seq<char>
    decreases tags.len(),
{
    if tags.len() == 0 {
        Seq::empty()
    } else if tags.len() == 1 {
        quoted(tags[0])
    } else {
        tags_listing(tags.drop_last()) + ", "@ + quoted(tags.last())
    }
}

/// Appends `["a", "b"]` for the tags.
pub fn push_tags(s: &mut String, tags: &Vec<String>)
    ensures
        final(s)@ == old(s)@ + seq!['['] + tags_listing(strings_view(tags@)) + seq![']'],
{
    s.append("[");
    proof {
        reveal_strlit("[");
        assert(s@ =~= old(s)@ + seq!['[']);
        assert(tags_listing(strings_view(tags@).take(0)) =~= Seq::<char>::empty());
        assert(s@ =~= old(s)@ + seq!['['] + tags_listing(strings_view(tags@).take(0)));
    }
    let mut i: usize = 0;
    while i < tags.len()
        invariant
            i <= tags@.len(),
            s@ == old(s)@ + seq!['['] + tags_listing(strings_view(tags@).take(i as int)),
        decreases tags@.len() - i,
    {
        if i > 0 {
            s.append(", ");
        }
        s.append("\"");
        s.append(tags[i].as_str());
        s.append("\"");
        proof {
            reveal_strlit(", ");
            reveal_strlit("\"");
            let sv = strings_view(tags@);
            let t = sv.take(i + 1 as int);
            assert(t.drop_last() =~= sv.take(i as int));
            assert(t.last() == sv[i as int]);
            assert("\""@ =~= seq!['"']);
            if i == 0 {
                assert(t.len() == 1);
                assert(t[0] == sv[i as int]);
                assert(tags_listing(sv.take(0)) =~= Seq::<char>::empty());
                assert(s@ =~= old(s)@ + seq!['['] + quoted(sv[i as int]));
                assert(tags_listing(t) == quoted(t[0]));
            } else {
                assert(t.len() > 1);
                assert(s@ =~= old(s)@ + seq!['['] + (tags_listing(sv.take(i as int)) + ", "@
                    + quoted(sv[i as int])));
            }
            assert(s@ =~= old(s)@ + seq!['['] + tags_listing(sv.take(i + 1 as int)));
        }
        i = i + 1;
    }
    s.append("]");
    proof {
        reveal_strlit("]");
        assert(strings_view(tags@).take(tags@.len() as int) =~= strings_view(tags@));
        assert(s@ =~= old(s)@ + seq!['['] + tags_listing(strings_view(tags@)) + seq![']']);
    }
}

/// One block of a retrieval listing.
pub open spec fn retrieve_entry_chars(r: QueryResultView, number: nat) -> Seq<char> {
    "Memory "@ + dec_chars(number) + ":\nContent: "@ + r.memory.content + "\nHash: "@
        + r.memory.content_hash + "\nScore: "@ + score_chars(r.relevance_score) + "\nTags: ["@
        + tags_listing(r.memory.tags) + "]\n---"@
}

/// The numbered blocks of a retrieval listing, joined by newlines.
pub open spec fn retrieve_entries_chars(results: Seq<QueryResultView>) -> Seq<char>
    decreases results.len(),
{
    if results.len() == 0 {
        Seq::empty()
    } else if results.len() == 1 {
        retrieve_entry_chars(results[0], 1)
    } else {
        retrieve_entries_chars(results.drop_last()) + "\n"@ + retrieve_entry_chars(
            results.last(),
            results.len(),
        )
    }
}

/// The full text answering a retrieval: a count line and one block per
/// result, or a fixed line when nothing matched.
pub open spec fn retrieve_response_chars(results: Seq<QueryResultView>) -> Seq<char> {
    if results.len() == 0 {
        "No matching memories found"@
    } else {
        "Found "@ + dec_chars(results.len() as nat) + " memories:\n"@ + retrieve_entries_chars(
            results,
        )
    }
}

/// Appends one block of a retrieval listing.
#[verifier::rlimit(100)]
fn push_retrieve_entry(s: &mut String, result: &MemoryQueryResult, number: u64)
    ensures
        final(s)@ == old(s)@ + retrieve_entry_chars(result@, number as nat),
{
    s.append("Memory ");
    push_decimal(s, number);
    s.append(":\nContent: ");
    s.append(result.memory.content.as_str());
    s.append("\nHash: ");
    s.append(result.memory.content_hash.as_str());
    s.append("\nScore: ");
    push_score(s, result.relevance_score);
    s.append("\nTags: ");
    push_tags(s, &result.memory.tags);
    s.append("\n---");
    proof {
        reveal_strlit("Memory ");
        reveal_strlit(":\nContent: ");
        reveal_strlit("\nHash: ");
        reveal_strlit("\nScore: ");
        reveal_strlit("\nTags: ");
        reveal_strlit("\nTags: [");
        reveal_strlit("\n---");
        reveal_strlit("]\n---");
        assert("\nTags: ["@ =~= "\nTags: "@ + seq!['[']);
        assert("]\n---"@ =~= seq![']'] + "\n---"@);
        assert(s@ =~= old(s)@ + retrieve_entry_chars(result@, number as nat));
    }
}

/// Renders the response text of a retrieval.
#[verifier::rlimit(100)]
pub fn format_retrieve_results(results: &Vec<MemoryQueryResult>) -> (r: String)
    ensures
        r@ == retrieve_response_chars(results_view(results@)),
{
    if results.len() == 0 {
        return String::from_str("No matching memories found");
    }
    let mut s = String::from_str("Found ");
    proof {
        reveal_strlit("Found ");
    }
    push_decimal(&mut s, results.len() as u64);
    s.append(" memories:\n");
    proof {
        reveal_strlit(" memories:\n");
    }
    let ghost head = s@;
    let ghost rv = results_view(results@);
    proof {
        assert(retrieve_entries_chars(rv.take(0)) =~= Seq::<char>::empty());
        assert(s@ =~= head + retrieve_entries_chars(rv.take(0)));
    }
    let mut i: usize = 0;
    while i < results.len()
        invariant
            i <= results@.len(),
            rv == results_view(results@),
            head == "Found "@ + dec_chars(results@.len() as nat) + " memories:\n"@,
            s@ == head + retrieve_entries_chars(rv.take(i as int)),
        decreases results@.len() - i,
    {
        if i > 0 {
            s.append("\n");
        }
        let ghost entry_start = s@;
        push_retrieve_entry(&mut s, &results[i], (i + 1) as u64);
        proof {
            reveal_strlit("\n");
            let t = rv.take(i + 1 as int);
            assert(t.drop_last() =~= rv.take(i as int));
            assert(t.last() == rv[i as int]);
            assert(rv[i as int] == results@[i as int]@);
            if i == 0 {
                assert(t.len() == 1);
                assert(t[0] == rv[i as int]);
                assert(entry_start =~= head);
                assert(retrieve_entries_chars(t) == retrieve_entry_chars(t[0], 1));
            } else {
                assert(t.len() > 1);
                assert(entry_start =~= head + retrieve_entries_chars(rv.take(i as int)) + "\n"@);
            }
            assert(s@ =~= head + retrieve_entries_chars(rv.take(i + 1 as int)));
        }
        i = i + 1;
    }
    proof {
        assert(rv.take(rv.len() as int) =~= rv);
    }
    s
}

/// One block of a tag-search listing.
pub open spec fn search_entry_chars(m: MemoryView, number: nat) -> Seq<char> {
    "Memory "@ + dec_chars(number) + ":\nContent: "@ + m.content + "\nHash: "@ + m.content_hash
        + "\nTags: ["@ + tags_listing(m.tags) + "]\n---"@
}

/// The numbered blocks of a tag-search listing, joined by newlines.
pub open spec fn search_entries_chars(memories: Seq<MemoryView>) -> Seq<char>
    decreases memories.len(),
{
    if memories.len() == 0 {
        Seq::empty()
    } else if memories.len() == 1 {
        search_entry_chars(memories[0], 1)
    } else {
        search_entries_chars(memories.drop_last()) + "\n"@ + search_entry_chars(
            memories.last(),
            memories.len(),
        )
    }
}

/// The full text answering a tag search: the count and the queried
/// tags, then one block per memory, or a fixed line when nothing
/// matched.
pub open spec fn search_response_chars(
    memories: Seq<MemoryView>,
    tags: Seq<Seq<char>>,
) -> Seq<char> {
    if memories.len() == 0 {
        "No memories found with the specified tags"@
    } else {
        "Found "@ + dec_chars(memories.len() as nat) + " memories with tags ["@ + tags_listing(
            tags,
        ) + "]:\n"@ + search_entries_chars(memories)
    }
}

/// Appends one block of a tag-search listing.
#[verifier::rlimit(100)]
fn push_search_entry(s: &mut String, memory: &Memory, number: u64)
    ensures
        final(s)@ == old(s)@ + search_entry_chars(memory@, number as nat),
{
    s.append("Memory ");
    push_decimal(s, number);
    s.append(":\nContent: ");
    s.append(memory.content.as_str());
    s.append("\nHash: ");
    s.append(memory.content_hash.as_str());
    s.append("\nTags: ");
    push_tags(s, &memory.tags);
    s.append("\n---");
    proof {
        reveal_strlit("Memory ");
        reveal_strlit(":\nContent: ");
        reveal_strlit("\nHash: ");
        reveal_strlit("\nTags: ");
        reveal_strlit("\nTags: [");
        reveal_strlit("\n---");
        reveal_strlit("]\n---");
        assert("\nTags: ["@ =~= "\nTags: "@ + seq!['[']);
        assert("]\n---"@ =~= seq![']'] + "\n---"@);
        assert(s@ =~= old(s)@ + search_entry_chars(memory@, number as nat));
    }
}

/// Renders the response text of a tag search.
#[verifier::rlimit(100)]
pub fn format_search_results(memories: &Vec<Memory>, tags: &Vec<String>) -> (r: String)
    ensures
        r@ == search_response_chars(memories_view(memories@), strings_view(tags@)),
{
    if memories.len() == 0 {
        return String::from_str("No memories found with the specified tags");
    }
    let mut s = String::from_str("Found ");
    proof {
        reveal_strlit("Found ");
    }
    push_decimal(&mut s, memories.len() as u64);
    s.append(" memories with tags ");
    push_tags(&mut s, tags);
    s.append(":\n");
    proof {
        reveal_strlit(" memories with tags ");
        reveal_strlit(" memories with tags [");
        reveal_strlit(":\n");
        reveal_strlit("]:\n");
        assert(" memories with tags ["@ =~= " memories with tags "@ + seq!['[']);
        assert("]:\n"@ =~= seq![']'] + ":\n"@);
    }
    let ghost head = s@;
    let ghost mv = memories_view(memories@);
    proof {
        assert(search_entries_chars(mv.take(0)) =~= Seq::<char>::empty());
        assert(s@ =~= head + search_entries_chars(mv.take(0)));
        assert(head =~= "Found "@ + dec_chars(memories@.len() as nat) + " memories with tags ["@
            + tags_listing(strings_view(tags@)) + "]:\n"@);
    }
    let mut i: usize = 0;
    while i < memories.len()
        invariant
            i <= memories@.len(),
            mv == memories_view(memories@),
            head == "Found "@ + dec_chars(memories@.len() as nat) + " memories with tags ["@
                + tags_listing(strings_view(tags@)) + "]:\n"@,
            s@ == head + search_entries_chars(mv.take(i as int)),
        decreases memories@.len() - i,
    {
        if i > 0 {
            s.append("\n");
        }
        let ghost entry_start = s@;
        push_search_entry(&mut s, &memories[i], (i + 1) as u64);
        proof {
            reveal_strlit("\n");
            let t = mv.take(i + 1 as int);
            assert(t.drop_last() =~= mv.take(i as int));
            assert(t.last() == mv[i as int]);
            assert(mv[i as int] == memories@[i as int]@);
            if i == 0 {
                assert(t.len() == 1);
                assert(t[0] == mv[i as int]);
                assert(entry_start =~= head);
                assert(search_entries_chars(t) == search_entry_chars(t[0], 1));
            } else {
                assert(t.len() > 1);
                assert(entry_start =~= head + search_entries_chars(mv.take(i as int)) + "\n"@);
            }
            assert(s@ =~= head + search_entries_chars(mv.take(i + 1 as int)));
        }
        i = i + 1;
    }
    proof {
        assert(mv.take(mv.len() as int) =~= mv);
    }
    s
}

/// The server's self-description, naming the embedding model in use
/// and its vector size.
pub fn build_server_instructions(model_name: &str, embedding_size: usize) -> (r: String)
    ensures
        r@
            == "This server provides memory storage and retrieval functionality. Use 'store_memory' to store new memories, 'retrieve_memory' for semantic search, 'search_by_tag' to find memories by tags, and 'delete_memory' to remove memories. Currently using "@
            + model_name@ + " embedding model (size "@ + dec_chars(embedding_size as nat)
            + ")."@,
{
    let mut s = String::from_str(
        "This server provides memory storage and retrieval functionality. Use 'store_memory' to store new memories, 'retrieve_memory' for semantic search, 'search_by_tag' to find memories by tags, and 'delete_memory' to remove memories. Currently using ",
    );
    s.append(model_name);
    s.append(" embedding model (size ");
    push_decimal(&mut s, embedding_size as u64);
    s.append(").");
    proof {
        reveal_strlit(
            "This server provides memory storage and retrieval functionality. Use 'store_memory' to store new memories, 'retrieve_memory' for semantic search, 'search_by_tag' to find memories by tags, and 'delete_memory' to remove memories. Currently using ",
        );
        reveal_strlit(" embedding model (size ");
        reveal_strlit(").");
    }
    s
}

/// The endpoint listing and creating collections.
pub fn collections_path() -> (r: String)
    ensures
        r@ == "/api/v1/collections"@,
{
    String::from_str("/api/v1/collections")
}

/// The endpoint of one collection action (`get`, `add`, `query`,
/// `delete`).
pub fn collection_action_path(collection: &str, action: &str) -> (r: String)
    ensures
        r@ == "/api/v1/collections/"@ + collection@ + "/"@ + action@,
{
    let mut s = String::from_str("/api/v1/collections/");
    s.append(collection);
    s.append("/");
    s.append(action);
    s
}

} // verus!
