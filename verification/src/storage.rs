//! The in-process storage backend: a keyed table of memories with
//! duplicate suppression, exact-scan similarity ranking, tag search and
//! delete-by-hash.
//!
//! The table is modeled as a map from content hash to memory view; every
//! operation's contract is stated against that map, through the
//! transition functions `store_transition` and `delete_transition`.
use vstd::multiset::Multiset;
use vstd::prelude::*;
use vstd::string::StringExecFns;

use crate::models::{Memory, MemoryQueryResult, MemoryView, QueryResultView, strings_view};
use crate::similarity::{
    cosine_similarity, similarity, valid_component, valid_embedding, MAX_EMBEDDING_LEN,
};

verus! {

/// Failures of a storage backend. Duplicate and not-found conditions
/// are not errors: they are reported in the success value of `store`
/// and `delete`.
#[derive(Debug)]
pub enum StorageError {
    /// The remote client could not be reached or answered abnormally.
    ClientError(String),
    /// A duplicate hash surfaced as an error by a remote backend.
    DuplicateError(String),
    /// A memory was not found where one was required.
    NotFoundError(String),
    /// A wire payload could not be read as the expected shape.
    SerializationError(String),
    /// The backend failed to carry out an operation.
    OperationFailed(String),
    /// A record's embedding is missing, of the wrong length, or holds
    /// an out-of-range component.
    InvalidEmbedding(String),
    /// Any other failure.
    Other(String),
}

impl StorageError {
    /// The human-readable message carried by the error.
    pub fn message(&self) -> (r: &String)
        ensures
            match self {
                StorageError::ClientError(m) => r == m,
                StorageError::DuplicateError(m) => r == m,
                StorageError::NotFoundError(m) => r == m,
                StorageError::SerializationError(m) => r == m,
                StorageError::OperationFailed(m) => r == m,
                StorageError::InvalidEmbedding(m) => r == m,
                StorageError::Other(m) => r == m,
            },
    {
        match self {
            StorageError::ClientError(m) => m,
            StorageError::DuplicateError(m) => m,
            StorageError::NotFoundError(m) => m,
            StorageError::SerializationError(m) => m,
            StorageError::OperationFailed(m) => m,
            StorageError::InvalidEmbedding(m) => m,
            StorageError::Other(m) => m,
        }
    }
}

/// The abstract state of a backend: content hash to stored memory.
pub type TableView = Map<Seq<char>, MemoryView>;

/// The table represented by a sequence of records, later records
/// winning on (excluded) key collisions.
pub open spec fn table_view(s: Seq<Memory>) -> TableView
    decreases s.len(),
{
    if s.len() == 0 {
        Map::empty()
    } else {
        table_view(s.drop_last()).insert(s.last()@.content_hash, s.last()@)
    }
}

/// No two records share a content hash.
pub open spec fn unique_hashes(s: Seq<Memory>) -> bool {
    forall|i: int, j: int|
        0 <= i < j < s.len() ==> (#[trigger] s[i])@.content_hash != (#[trigger] s[j])@.content_hash
}

/// A memory as a backend keeps it: embedding present, of the
/// configured size, with bounded components.
pub open spec fn embedding_ok_for(m: MemoryView, size: usize) -> bool {
    &&& m.embedding is Some
    &&& m.embedding->0.len() == size
    &&& valid_embedding(m.embedding->0)
}

/// What `store` does to the abstract table: reject on a known hash,
/// insert otherwise.
pub open spec fn store_transition(t: TableView, m: MemoryView) -> (TableView, bool) {
    if t.contains_key(m.content_hash) {
        (t, false)
    } else {
        (t.insert(m.content_hash, m), true)
    }
}

/// What `delete` does to the abstract table: remove a known hash,
/// report absence otherwise.
pub open spec fn delete_transition(t: TableView, h: Seq<char>) -> (TableView, bool) {
    if t.contains_key(h) {
        (t.remove(h), true)
    } else {
        (t, false)
    }
}

/// Storing the same memory twice: the first call is accepted, the
/// second is rejected, and the table holds exactly that one record for
/// the hash throughout.
pub proof fn lemma_store_duplicate_rejected(t: TableView, m: MemoryView)
    requires
        !t.contains_key(m.content_hash),
    ensures
        ({
            let (t1, accepted1) = store_transition(t, m);
            let (t2, accepted2) = store_transition(t1, m);
            &&& accepted1
            &&& !accepted2
            &&& t2 == t1
            &&& t1.contains_key(m.content_hash)
            &&& t1[m.content_hash] == m
        }),
{
}

/// Deleting a hash that was never stored reports absence and changes
/// nothing; deleting right after a successful store removes the record,
/// and the hash no longer exists afterwards.
pub proof fn lemma_delete_round_trip(t: TableView, m: MemoryView)
    requires
        !t.contains_key(m.content_hash),
    ensures
        ({
            let (t0, removed0) = delete_transition(t, m.content_hash);
            let (t1, accepted1) = store_transition(t, m);
            let (t2, removed2) = delete_transition(t1, m.content_hash);
            &&& !removed0
            &&& t0 == t
            &&& accepted1
            &&& removed2
            &&& !t2.contains_key(m.content_hash)
            &&& t2 == t
        }),
{
    let (t1, accepted1) = store_transition(t, m);
    let (t2, removed2) = delete_transition(t1, m.content_hash);
    assert(t2 =~= t);
}

/// Relates the record table to its map view: a key is present exactly
/// when some record carries it.
pub proof fn lemma_table_contains(s: Seq<Memory>, h: Seq<char>)
    ensures
        table_view(s).contains_key(h) <==> exists|i: int|
            0 <= i < s.len() && (#[trigger] s[i])@.content_hash == h,
    decreases s.len(),
{
    if s.len() > 0 {
        lemma_table_contains(s.drop_last(), h);
        let dl = s.drop_last();
        if s.last()@.content_hash == h {
            assert(s[s.len() - 1]@.content_hash == h);
        } else if table_view(dl).contains_key(h) {
            let i = choose|i: int| 0 <= i < dl.len() && (#[trigger] dl[i])@.content_hash == h;
            assert(s[i]@.content_hash == h);
        } else if exists|i: int| 0 <= i < s.len() && (#[trigger] s[i])@.content_hash == h {
            let i = choose|i: int| 0 <= i < s.len() && (#[trigger] s[i])@.content_hash == h;
            assert(i < s.len() - 1);
            assert(dl[i]@.content_hash == h);
        }
    }
}

/// With unique hashes, each record is the table's value at its hash.
pub proof fn lemma_table_index(s: Seq<Memory>, i: int)
    requires
        unique_hashes(s),
        0 <= i < s.len(),
    ensures
        table_view(s).contains_key(s[i]@.content_hash),
        table_view(s)[s[i]@.content_hash] == s[i]@,
    decreases s.len(),
{
    let dl = s.drop_last();
    assert(unique_hashes(dl)) by {
        assert(forall|p: int, q: int|
            0 <= p < q < dl.len() ==> dl[p] == s[p] && dl[q] == s[q]);
    }
    if i == s.len() - 1 {
    } else {
        lemma_table_index(dl, i);
        assert(s[i] == dl[i]);
        assert(s.last()@.content_hash != s[i]@.content_hash);
    }
}

/// Removing record `i` removes exactly its hash from the table.
pub proof fn lemma_table_remove(s: Seq<Memory>, i: int)
    requires
        unique_hashes(s),
        0 <= i < s.len(),
    ensures
        table_view(s.remove(i)) == table_view(s).remove(s[i]@.content_hash),
    decreases s.len(),
{
    let dl = s.drop_last();
    let h = s[i]@.content_hash;
    assert(unique_hashes(dl)) by {
        assert(forall|p: int, q: int|
            0 <= p < q < dl.len() ==> dl[p] == s[p] && dl[q] == s[q]);
    }
    if i == s.len() - 1 {
        assert(s.remove(i) =~= dl);
        lemma_table_contains(dl, h);
        assert(!table_view(dl).contains_key(h)) by {
            if exists|k: int| 0 <= k < dl.len() && (#[trigger] dl[k])@.content_hash == h {
                let k = choose|k: int|
                    0 <= k < dl.len() && (#[trigger] dl[k])@.content_hash == h;
                assert(s[k]@.content_hash == s[i]@.content_hash);
            }
        }
        assert(table_view(dl).insert(h, s.last()@).remove(h) =~= table_view(dl));
    } else {
        let r = s.remove(i);
        assert(r.drop_last() =~= dl.remove(i));
        assert(r.last() == s.last());
        lemma_table_remove(dl, i);
        assert(table_view(r) == table_view(dl.remove(i)).insert(
            s.last()@.content_hash,
            s.last()@,
        ));
        assert(s.last()@.content_hash != h);
        assert(table_view(dl).remove(h).insert(s.last()@.content_hash, s.last()@)
            =~= table_view(dl).insert(s.last()@.content_hash, s.last()@).remove(h));
    }
}

/// The in-process backend: records in insertion order, keyed by their
/// content hash.
pub struct InMemoryStorage {
    memories: Vec<Memory>,
    embedding_size: usize,
}

impl View for InMemoryStorage {
    type V = TableView;

    closed spec fn view(&self) -> TableView {
        table_view(self.memories@)
    }
}

impl InMemoryStorage {
    /// The backend invariant: a sane embedding size, unique hashes, and
    /// every stored record carrying a valid embedding of that size.
    pub closed spec fn wf(&self) -> bool {
        &&& 1 <= self.embedding_size <= MAX_EMBEDDING_LEN
        &&& unique_hashes(self.memories@)
        &&& forall|i: int|
            0 <= i < self.memories@.len() ==> embedding_ok_for(
                (#[trigger] self.memories@[i])@,
                self.embedding_size,
            )
    }

    /// The fixed embedding length this backend accepts.
    pub closed spec fn spec_embedding_size(&self) -> usize {
        self.embedding_size
    }

    /// The records in insertion order, as views.
    pub closed spec fn records(&self) -> Seq<MemoryView> {
        self.memories@.map_values(|m: Memory| m@)
    }

    /// Creates an empty backend accepting embeddings of length `size`.
    pub fn new(embedding_size: usize) -> (r: InMemoryStorage)
        requires
            1 <= embedding_size <= MAX_EMBEDDING_LEN,
        ensures
            r.wf(),
            r@ == Map::<Seq<char>, MemoryView>::empty(),
            r.spec_embedding_size() == embedding_size,
            r.records() == Seq::<MemoryView>::empty(),
    {
        let r = InMemoryStorage { memories: Vec::new(), embedding_size };
        proof {
            assert(r.records() =~= Seq::<MemoryView>::empty());
        }
        r
    }

    /// Returns the index of the record carrying `hash`, if any.
    fn find_index(&self, hash: &String) -> (r: Option<usize>)
        ensures
            match r {
                Some(i) => i < self.memories@.len() && self.memories@[i as int]@.content_hash
                    == hash@,
                None => !self@.contains_key(hash@),
            },
    {
        let mut i: usize = 0;
        while i < self.memories.len()
            invariant
                i <= self.memories@.len(),
                forall|j: int|
                    0 <= j < i ==> (#[trigger] self.memories@[j])@.content_hash != hash@,
            decreases self.memories@.len() - i,
        {
            if self.memories[i].content_hash == *hash {
                return Some(i);
            }
            i = i + 1;
        }
        proof {
            lemma_table_contains(self.memories@, hash@);
        }
        None
    }

    /// Reports whether a memory with this hash is already stored. This
    /// backend cannot fail here; the result is always `Ok`.
    pub fn check_duplicate_exists(&self, content_hash: &str) -> (r: Result<
        bool,
        StorageError,
    >)
        ensures
            r matches Ok(b) && b == self@.contains_key(content_hash@),
    {
        let owned: String = content_hash.to_owned();
        match self.find_index(&owned) {
            Some(i) => {
                proof {
                    lemma_table_contains(self.memories@, content_hash@);
                }
                Ok(true)
            },
            None => Ok(false),
        }
    }

    /// Stores a memory under its content hash. A record whose hash is
    /// already present is rejected (`accepted == false`) and nothing
    /// changes; a record without a valid embedding of the configured
    /// size is an error. Otherwise the record is inserted as given.
    pub fn store(&mut self, memory: &Memory) -> (r: Result<(bool, String), StorageError>)
        requires
            old(self).wf(),
        ensures
            final(self).wf(),
            final(self).spec_embedding_size() == old(self).spec_embedding_size(),
            match r {
                Ok((accepted, message)) => {
                    &&& embedding_ok_for(memory@, old(self).spec_embedding_size())
                    &&& (final(self)@, accepted) == store_transition(old(self)@, memory@)
                    &&& if old(self)@.contains_key(memory@.content_hash) {
                        &&& !accepted
                        &&& final(self)@ == old(self)@
                        &&& final(self).records() == old(self).records()
                        &&& message@ == "Duplicate content detected"@
                    } else {
                        &&& accepted
                        &&& final(self)@ == old(self)@.insert(memory@.content_hash, memory@)
                        &&& final(self).records() == old(self).records().push(memory@)
                        &&& message@ == "Successfully stored memory with hash: "@
                            + memory@.content_hash
                    }
                },
                Err(e) => {
                    &&& !embedding_ok_for(memory@, old(self).spec_embedding_size())
                    &&& final(self)@ == old(self)@
                    &&& final(self).records() == old(self).records()
                    &&& e is InvalidEmbedding
                },
            },
    {
        let valid = match &memory.embedding {
            None => false,
            Some(e) => e.len() == self.embedding_size && components_in_range(e),
        };
        if !valid {
            return Err(
                StorageError::InvalidEmbedding(
                    String::from_str("embedding missing, of the wrong length, or out of range"),
                ),
            );
        }
        match self.find_index(&memory.content_hash) {
            Some(i) => {
                proof {
                    lemma_table_contains(self.memories@, memory@.content_hash);
                }
                Ok((false, String::from_str("Duplicate content detected")))
            },
            None => {
                let ghost s0 = self.memories@;
                let stored = memory.duplicate();
                self.memories.push(stored);
                proof {
                    assert(self.memories@.drop_last() =~= s0);
                    assert(unique_hashes(self.memories@)) by {
                        lemma_table_contains(s0, memory@.content_hash);
                        assert(forall|j: int|
                            0 <= j < s0.len() ==> (#[trigger] s0[j])@.content_hash
                                != memory@.content_hash);
                        assert(forall|j: int|
                            0 <= j < s0.len() ==> self.memories@[j] == s0[j]);
                    }
                    assert(self.records() =~= old(self).records().push(memory@));
                    assert(forall|j: int|
                        0 <= j < s0.len() ==> self.memories@[j] == s0[j]);
                }
                let mut message = String::from_str("Successfully stored memory with hash: ");
                message.append(memory.content_hash.as_str());
                Ok((true, message))
            },
        }
    }

    /// Deletes the memory carrying `content_hash`. An absent hash is
    /// reported (`removed == false`), not an error.
    pub fn delete(&mut self, content_hash: &str) -> (r: Result<(bool, String), StorageError>)
        requires
            old(self).wf(),
        ensures
            final(self).wf(),
            final(self).spec_embedding_size() == old(self).spec_embedding_size(),
            match r {
                Ok((removed, message)) => {
                    &&& (final(self)@, removed) == delete_transition(old(self)@, content_hash@)
                    &&& if old(self)@.contains_key(content_hash@) {
                        &&& removed
                        &&& final(self)@ == old(self)@.remove(content_hash@)
                        &&& message@ == "Successfully deleted memory with hash: "@
                            + content_hash@
                    } else {
                        &&& !removed
                        &&& final(self)@ == old(self)@
                        &&& message@ == "No memory found with hash: "@ + content_hash@
                    }
                },
                Err(_) => false,
            },
    {
        let owned: String = content_hash.to_owned();
        match self.find_index(&owned) {
            Some(i) => {
                let ghost s0 = self.memories@;
                proof {
                    lemma_table_index(s0, i as int);
                    lemma_table_remove(s0, i as int);
                }
                self.memories.remove(i);
                proof {
                    let r = self.memories@;
                    assert(r =~= s0.remove(i as int));
                    assert forall|p: int| 0 <= p < r.len() implies #[trigger] r[p] == (if p
                        < i as int {
                        s0[p]
                    } else {
                        s0[p + 1]
                    }) by {}
                    assert forall|p: int, q: int| 0 <= p < q < r.len() implies (
                    #[trigger] r[p])@.content_hash != (#[trigger] r[q])@.content_hash by {
                        let p0 = if p < i as int {
                            p
                        } else {
                            p + 1
                        };
                        let q0 = if q < i as int {
                            q
                        } else {
                            q + 1
                        };
                        assert(r[p] == s0[p0] && r[q] == s0[q0]);
                        assert(0 <= p0 < q0 < s0.len());
                    }
                    assert forall|p: int| 0 <= p < r.len() implies embedding_ok_for(
                        (#[trigger] r[p])@,
                        self.embedding_size,
                    ) by {
                        let p0 = if p < i as int {
                            p
                        } else {
                            p + 1
                        };
                        assert(r[p] == s0[p0]);
                    }
                }
                let mut message = String::from_str("Successfully deleted memory with hash: ");
                message.append(content_hash);
                Ok((true, message))
            },
            None => {
                let mut message = String::from_str("No memory found with hash: ");
                message.append(content_hash);
                Ok((false, message))
            },
        }
    }
}

/// View of owned query results.
pub open spec fn results_view(s: Seq<MemoryQueryResult>) -> Seq<QueryResultView> {
    s.map_values(|r: MemoryQueryResult| r@)
}

/// View of owned memories.
pub open spec fn memories_view(s: Seq<Memory>) -> Seq<MemoryView> {
    s.map_values(|m: Memory| m@)
}

/// The scored candidates of a query: every record paired with its
/// fixed-point cosine similarity to the query embedding.
pub open spec fn scored_view(records: Seq<MemoryView>, q: Seq<i64>) -> Seq<QueryResultView> {
    records.map_values(
        |m: MemoryView|
            QueryResultView { memory: m, relevance_score: similarity(q, m.embedding->0) as i64 },
    )
}

/// Relevance scores never increase along the sequence.
pub open spec fn sorted_desc(s: Seq<QueryResultView>) -> bool {
    forall|i: int, j: int|
        0 <= i < j < s.len() ==> (#[trigger] s[i]).relevance_score >= (
        #[trigger] s[j]).relevance_score
}

/// Sorts query results by relevance, highest first.
fn sort_results(v: Vec<MemoryQueryResult>) -> (r: Vec<MemoryQueryResult>)
    ensures
        sorted_desc(results_view(r@)),
        results_view(r@).to_multiset() =~= results_view(v@).to_multiset(),
{
    broadcast use vstd::seq_lib::group_to_multiset_ensures;
    broadcast use vstd::multiset::group_multiset_axioms;

    let ghost orig = results_view(v@);
    let mut rest = v;
    let mut out: Vec<MemoryQueryResult> = Vec::new();
    proof {
        assert(results_view(out@) =~= Seq::<QueryResultView>::empty());
        assert(Seq::<QueryResultView>::empty().to_multiset() =~= Multiset::<
            QueryResultView,
        >::empty());
        assert(results_view(out@).to_multiset().add(results_view(rest@).to_multiset())
            =~= orig.to_multiset());
    }
    while rest.len() > 0
        invariant
            sorted_desc(results_view(out@)),
            results_view(out@).to_multiset().add(results_view(rest@).to_multiset())
                =~= orig.to_multiset(),
        decreases rest.len(),
    {
        let ghost rest0 = results_view(rest@);
        let x = rest.remove(0);
        proof {
            broadcast use vstd::seq_lib::group_to_multiset_ensures;
            broadcast use vstd::multiset::group_multiset_axioms;

            assert(rest0.len() > 0);
            assert(results_view(rest@) =~= rest0.remove(0));
            assert(rest0.remove(0).to_multiset() =~= rest0.to_multiset().remove(rest0[0]));
            assert(rest0[0] == x@);
            assert(rest0.to_multiset().count(rest0[0]) > 0) by {
                assert(rest0.contains(rest0[0]));
            }
        }
        let mut j: usize = 0;
        while j < out.len() && out[j].relevance_score >= x.relevance_score
            invariant
                j <= out.len(),
                forall|k: int|
                    0 <= k < j ==> (#[trigger] results_view(out@)[k]).relevance_score
                        >= x@.relevance_score,
            decreases out.len() - j,
        {
            j = j + 1;
        }
        let ghost out0 = results_view(out@);
        let ghost jj = j as int;
        proof {
            assert(jj == out0.len() || out0[jj].relevance_score < x@.relevance_score);
        }
        out.insert(j, x);
        proof {
            broadcast use vstd::seq_lib::group_to_multiset_ensures;
            broadcast use vstd::multiset::group_multiset_axioms;

            let t = results_view(out@);
            assert(t =~= out0.insert(jj, x@));
            assert(sorted_desc(t)) by {
                assert forall|p: int, q: int| 0 <= p < q < t.len() implies (
                #[trigger] t[p]).relevance_score >= (#[trigger] t[q]).relevance_score by {
                    if p < jj && q == jj {
                        assert(t[p] == out0[p]);
                    } else if p < jj && q > jj {
                        assert(t[p] == out0[p] && t[q] == out0[q - 1]);
                        if p < q - 1 {
                            assert(out0[p].relevance_score >= out0[q - 1].relevance_score);
                        }
                    } else if p == jj && q > jj {
                        assert(t[p] == x@ && t[q] == out0[q - 1]);
                        if jj < q - 1 {
                            assert(out0[jj].relevance_score >= out0[q - 1].relevance_score);
                        }
                    } else if p > jj {
                        assert(t[p] == out0[p - 1] && t[q] == out0[q - 1]);
                    } else {
                        assert(t[p] == out0[p] && t[q] == out0[q]);
                    }
                }
            }
            assert(t.to_multiset() =~= out0.to_multiset().insert(x@));
            assert(t.to_multiset().add(results_view(rest@).to_multiset()) =~= orig.to_multiset());
        }
    }
    proof {
        assert(results_view(rest@) =~= Seq::<QueryResultView>::empty());
        assert(Seq::<QueryResultView>::empty().to_multiset() =~= Multiset::<
            QueryResultView,
        >::empty());
        assert(results_view(out@).to_multiset() =~= orig.to_multiset());
    }
    out
}

/// A record matches a tag query when at least one of its tags is in
/// the query set; an empty query set matches nothing.
pub open spec fn tag_match(m: MemoryView, tags: Seq<Seq<char>>) -> bool {
    exists|i: int| 0 <= i < m.tags.len() && tags.contains(#[trigger] m.tags[i])
}

/// The records matching a tag query, in table order.
pub open spec fn tag_filter(records: Seq<MemoryView>, tags: Seq<Seq<char>>) -> Seq<MemoryView> {
    records.filter(|m: MemoryView| tag_match(m, tags))
}

/// Whether a memory carries at least one of the query tags.
fn has_matching_tag(m: &Memory, tags: &Vec<String>) -> (r: bool)
    ensures
        r == tag_match(m@, strings_view(tags@)),
{
    let mut i: usize = 0;
    while i < m.tags.len()
        invariant
            i <= m.tags@.len(),
            forall|p: int| 0 <= p < i ==> !strings_view(tags@).contains(#[trigger] m@.tags[p]),
        decreases m.tags@.len() - i,
    {
        let mut j: usize = 0;
        while j < tags.len()
            invariant
                i < m.tags@.len(),
                j <= tags@.len(),
                forall|q: int| 0 <= q < j ==> strings_view(tags@)[q] != m@.tags[i as int],
            decreases tags@.len() - j,
        {
            if m.tags[i] == tags[j] {
                proof {
                    assert(strings_view(tags@)[j as int] == m@.tags[i as int]);
                    assert(strings_view(tags@).contains(m@.tags[i as int]));
                }
                return true;
            }
            j = j + 1;
        }
        proof {
            assert(!strings_view(tags@).contains(m@.tags[i as int])) by {
                if strings_view(tags@).contains(m@.tags[i as int]) {
                    let target = m@.tags[i as int];
                    let q = choose|q: int|
                        0 <= q < strings_view(tags@).len() && strings_view(tags@)[q] == target;
                    assert(strings_view(tags@)[q] != m@.tags[i as int]);
                }
            }
        }
        i = i + 1;
    }
    false
}

impl InMemoryStorage {
    /// Ranks every stored record by cosine similarity to the query
    /// embedding and returns the `n_results` most relevant, highest
    /// first. A query embedding of the wrong length or with
    /// out-of-range components is rejected.
    #[verifier::rlimit(100)]
    pub fn retrieve(&self, query_embedding: &Vec<i64>, n_results: usize) -> (r: Result<
        Vec<MemoryQueryResult>,
        StorageError,
    >)
        requires
            self.wf(),
        ensures
            match r {
                Ok(res) => {
                    &&& query_embedding@.len() == self.spec_embedding_size()
                    &&& valid_embedding(query_embedding@)
                    &&& res@.len() == if n_results as int <= self.records().len() {
                        n_results as int
                    } else {
                        self.records().len() as int
                    }
                    &&& sorted_desc(results_view(res@))
                    &&& forall|i: int|
                        0 <= i < res@.len() ==> scored_view(
                            self.records(),
                            query_embedding@,
                        ).contains(#[trigger] res@[i]@)
                    &&& exists|rest: Seq<QueryResultView>|
                        {
                            &&& #[trigger] (results_view(res@) + rest).to_multiset()
                                == scored_view(self.records(), query_embedding@).to_multiset()
                            &&& forall|k: int|
                                0 <= k < rest.len() ==> res@.len() == 0 || (
                                #[trigger] rest[k]).relevance_score <= results_view(
                                    res@,
                                ).last().relevance_score
                        }
                },
                Err(e) => {
                    &&& !(query_embedding@.len() == self.spec_embedding_size()
                        && valid_embedding(query_embedding@))
                    &&& e is InvalidEmbedding
                },
            },
    {
        if query_embedding.len() != self.embedding_size || !components_in_range(
            query_embedding,
        ) {
            return Err(
                StorageError::InvalidEmbedding(
                    String::from_str("query embedding of the wrong length or out of range"),
                ),
            );
        }
        let ghost q = query_embedding@;
        let ghost recs = self.records();
        let mut cands: Vec<MemoryQueryResult> = Vec::new();
        let mut i: usize = 0;
        proof {
            assert(results_view(cands@) =~= scored_view(recs.take(0), q));
        }
        while i < self.memories.len()
            invariant
                i <= self.memories@.len(),
                self.wf(),
                q == query_embedding@,
                recs == self.records(),
                q.len() == self.spec_embedding_size(),
                valid_embedding(q),
                results_view(cands@) == scored_view(recs.take(i as int), q),
            decreases self.memories@.len() - i,
        {
            let m = &self.memories[i];
            proof {
                assert(embedding_ok_for(self.memories@[i as int]@, self.embedding_size));
            }
            match &m.embedding {
                Some(e) => {
                    let score = cosine_similarity(query_embedding, e);
                    proof {
                        crate::similarity::lemma_similarity_bound(q, e@);
                    }
                    let copy = m.duplicate();
                    cands.push(MemoryQueryResult { memory: copy, relevance_score: score });
                    proof {
                        assert(recs.take(i + 1 as int) =~= recs.take(i as int).push(
                            recs[i as int],
                        ));
                        assert(recs[i as int] == self.memories@[i as int]@);
                        assert(scored_view(recs.take(i as int).push(recs[i as int]), q)
                            =~= scored_view(recs.take(i as int), q).push(
                            QueryResultView {
                                memory: recs[i as int],
                                relevance_score: similarity(
                                    q,
                                    recs[i as int].embedding->0,
                                ) as i64,
                            },
                        ));
                        assert(results_view(cands@) =~= scored_view(recs.take(i as int), q).push(
                            QueryResultView {
                                memory: recs[i as int],
                                relevance_score: similarity(
                                    q,
                                    recs[i as int].embedding->0,
                                ) as i64,
                            },
                        ));
                    }
                },
                None => {
                    proof {
                        assert(false);
                    }
                },
            }
            i = i + 1;
        }
        proof {
            assert(recs.take(recs.len() as int) =~= recs);
        }
        let mut sorted = sort_results(cands);
        let ghost full = results_view(sorted@);
        let n: usize = if n_results <= sorted.len() {
            n_results
        } else {
            sorted.len()
        };
        sorted.truncate(n);
        proof {
            broadcast use vstd::seq_lib::group_to_multiset_ensures;
            broadcast use vstd::multiset::group_multiset_axioms;

            assert(full.len() == recs.len()) by {
                assert(full.to_multiset().len() == full.len());
                assert(scored_view(recs, q).to_multiset().len() == scored_view(recs, q).len());
            }
            let res_v = results_view(sorted@);
            assert(res_v =~= full.take(n as int)) by {
                assert(forall|k: int|
                    0 <= k < n ==> #[trigger] results_view(sorted@)[k] == full[k]);
            }
            let rest = full.skip(n as int);
            assert(res_v + rest =~= full);
            assert((res_v + rest).to_multiset() == scored_view(recs, q).to_multiset());
            assert forall|k: int| 0 <= k < rest.len() implies res_v.len() == 0 || (
            #[trigger] rest[k]).relevance_score <= res_v.last().relevance_score by {
                if res_v.len() > 0 {
                    assert(rest[k] == full[n + k]);
                    assert(res_v.last() == full[n - 1]);
                    assert(full[n - 1].relevance_score >= full[n + k].relevance_score);
                }
            }
            assert forall|i2: int| 0 <= i2 < sorted@.len() implies scored_view(recs, q).contains(
                #[trigger] sorted@[i2]@,
            ) by {
                assert(sorted@[i2]@ == full[i2]);
                assert(full.contains(full[i2]));
                assert(full.to_multiset().count(full[i2]) > 0);
                assert(scored_view(recs, q).to_multiset().count(full[i2]) > 0);
                assert(scored_view(recs, q).contains(full[i2]));
            }
            // the skipped tail witnesses the top-of-the-ranking clause
            assert(exists|rest2: Seq<QueryResultView>|
                {
                    &&& #[trigger] (results_view(sorted@) + rest2).to_multiset() == scored_view(
                        recs,
                        q,
                    ).to_multiset()
                    &&& forall|k: int|
                        0 <= k < rest2.len() ==> results_view(sorted@).len() == 0 || (
                        #[trigger] rest2[k]).relevance_score <= results_view(
                            sorted@,
                        ).last().relevance_score
                }) by {
                assert((results_view(sorted@) + rest).to_multiset() == scored_view(
                    recs,
                    q,
                ).to_multiset());
            }
            assert(sorted_desc(results_view(sorted@))) by {
                assert forall|p: int, p2: int| 0 <= p < p2 < results_view(sorted@).len() implies (
                #[trigger] results_view(sorted@)[p]).relevance_score >= (
                #[trigger] results_view(sorted@)[p2]).relevance_score by {
                    assert(results_view(sorted@)[p] == full[p]);
                    assert(results_view(sorted@)[p2] == full[p2]);
                }
            }
            assert(sorted@.len() == n);
        }
        Ok(sorted)
    }

    /// Returns, in table order, every memory that carries at least one
    /// of the query tags; an empty query returns nothing. This backend
    /// cannot fail here; the result is always `Ok`.
    pub fn search_by_tag(&self, tags: &Vec<String>) -> (r: Result<Vec<Memory>, StorageError>)
        requires
            self.wf(),
        ensures
            match r {
                Ok(res) => {
                    &&& memories_view(res@) == tag_filter(self.records(), strings_view(tags@))
                    &&& tags@.len() == 0 ==> res@.len() == 0
                },
                Err(_) => false,
            },
    {
        let ghost recs = self.records();
        let ghost qtags = strings_view(tags@);
        let mut out: Vec<Memory> = Vec::new();
        let mut i: usize = 0;
        proof {
            reveal(Seq::filter);
            assert(memories_view(out@) =~= tag_filter(recs.take(0), qtags));
        }
        while i < self.memories.len()
            invariant
                i <= self.memories@.len(),
                recs == self.records(),
                qtags == strings_view(tags@),
                memories_view(out@) == tag_filter(recs.take(i as int), qtags),
                qtags.len() == 0 ==> out@.len() == 0,
            decreases self.memories@.len() - i,
        {
            let m = &self.memories[i];
            let is_match = has_matching_tag(m, tags);
            if is_match {
                let copy = m.duplicate();
                out.push(copy);
            }
            proof {
                reveal(Seq::filter);
                let t = recs.take(i + 1 as int);
                let pred = |mv: MemoryView| tag_match(mv, qtags);
                assert(t.len() == i + 1);
                assert(t.drop_last() =~= recs.take(i as int));
                assert(t.last() == recs[i as int]);
                assert(recs[i as int] == self.memories@[i as int]@);
                if is_match {
                    assert(pred(t.last()));
                    assert(t.filter(pred) == t.drop_last().filter(pred).push(t.last()));
                    assert(memories_view(out@) =~= tag_filter(recs.take(i as int), qtags).push(
                        recs[i as int],
                    ));
                } else {
                    assert(!pred(t.last()));
                    assert(t.filter(pred) == t.drop_last().filter(pred));
                }
            }
            i = i + 1;
        }
        proof {
            assert(recs.take(recs.len() as int) =~= recs);
        }
        Ok(out)
    }
}

/// Every component within the fixed-point bound.
fn components_in_range(e: &Vec<i64>) -> (r: bool)
    ensures
        r == forall|i: int| 0 <= i < e@.len() ==> valid_component(#[trigger] e@[i]),
{
    let mut i: usize = 0;
    while i < e.len()
        invariant
            i <= e@.len(),
            forall|j: int| 0 <= j < i ==> valid_component(#[trigger] e@[j]),
        decreases e@.len() - i,
    {
        let x = e[i];
        if x < -1_000_000 || x > 1_000_000 {
            proof {
                assert(!valid_component(e@[i as int]));
            }
            return false;
        }
        i = i + 1;
    }
    true
}

/// The capability every storage backend offers, stated against the
/// abstract hash-to-record table: duplicate-suppressed store, ranked
/// retrieval bounded by the requested count, OR-over-tags search, and
/// delete-by-hash. Backends are interchangeable behind this contract.
pub trait MemoryStorage: Sized {
    /// The abstract table the backend holds.
    spec fn table(&self) -> TableView;

    /// The backend's invariant.
    spec fn inv(&self) -> bool;

    /// Reports whether a memory with this hash is stored.
    fn check_duplicate_exists(&self, content_hash: &str) -> (r: Result<bool, StorageError>)
        requires
            self.inv(),
        ensures
            r matches Ok(b) ==> b == self.table().contains_key(content_hash@),
    ;

    /// Stores a memory under its content hash, rejecting a duplicate.
    fn store(&mut self, memory: &Memory) -> (r: Result<(bool, String), StorageError>)
        requires
            old(self).inv(),
        ensures
            final(self).inv(),
            match r {
                Ok((accepted, message)) => {
                    &&& (final(self).table(), accepted) == store_transition(
                        old(self).table(),
                        memory@,
                    )
                    &&& !accepted ==> message@ == "Duplicate content detected"@
                },
                Err(_) => final(self).table() == old(self).table(),
            },
    ;

    /// Returns at most `n_results` stored memories with their
    /// relevance to the query, most relevant first.
    fn retrieve(&self, query_embedding: &Vec<i64>, n_results: usize) -> (r: Result<
        Vec<MemoryQueryResult>,
        StorageError,
    >)
        requires
            self.inv(),
        ensures
            r matches Ok(res) ==> res@.len() <= n_results && sorted_desc(results_view(res@)),
    ;

    /// Returns the memories carrying at least one of the query tags;
    /// an empty query matches nothing.
    fn search_by_tag(&self, tags: &Vec<String>) -> (r: Result<Vec<Memory>, StorageError>)
        requires
            self.inv(),
        ensures
            r matches Ok(res) ==> {
                &&& forall|i: int|
                    0 <= i < res@.len() ==> tag_match(
                        (#[trigger] res@[i])@,
                        strings_view(tags@),
                    )
                &&& tags@.len() == 0 ==> res@.len() == 0
            },
    ;

    /// Deletes the memory carrying `content_hash`; absence is reported,
    /// not an error.
    fn delete(&mut self, content_hash: &str) -> (r: Result<(bool, String), StorageError>)
        requires
            old(self).inv(),
        ensures
            final(self).inv(),
            match r {
                Ok((removed, _)) => (final(self).table(), removed) == delete_transition(
                    old(self).table(),
                    content_hash@,
                ),
                Err(_) => final(self).table() == old(self).table(),
            },
    ;
}

impl MemoryStorage for InMemoryStorage {
    open spec fn table(&self) -> TableView {
        self@
    }

    open spec fn inv(&self) -> bool {
        self.wf()
    }

    fn check_duplicate_exists(&self, content_hash: &str) -> (r: Result<bool, StorageError>) {
        InMemoryStorage::check_duplicate_exists(self, content_hash)
    }

    fn store(&mut self, memory: &Memory) -> (r: Result<(bool, String), StorageError>) {
        InMemoryStorage::store(self, memory)
    }

    fn retrieve(&self, query_embedding: &Vec<i64>, n_results: usize) -> (r: Result<
        Vec<MemoryQueryResult>,
        StorageError,
    >) {
        InMemoryStorage::retrieve(self, query_embedding, n_results)
    }

    fn search_by_tag(&self, tags: &Vec<String>) -> (r: Result<Vec<Memory>, StorageError>) {
        let r = InMemoryStorage::search_by_tag(self, tags);
        proof {
            broadcast use vstd::seq_lib::group_filter_ensures;

            match &r {
                Ok(res) => {
                    let filtered = tag_filter(self.records(), strings_view(tags@));
                    assert forall|i: int| 0 <= i < res@.len() implies tag_match(
                        (#[trigger] res@[i])@,
                        strings_view(tags@),
                    ) by {
                        assert(memories_view(res@)[i] == res@[i]@);
                        assert(filtered[i] == memories_view(res@)[i]);
                        self.records().lemma_filter_pred(
                            |m: MemoryView| tag_match(m, strings_view(tags@)),
                            i,
                        );
                    }
                },
                Err(_) => {},
            }
        }
        r
    }

    fn delete(&mut self, content_hash: &str) -> (r: Result<(bool, String), StorageError>) {
        InMemoryStorage::delete(self, content_hash)
    }
}

} // verus!
