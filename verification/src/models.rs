//! The data model: a stored memory, a scored query result, and the
//! request shapes of the caller-facing operations.
use vstd::prelude::*;

use crate::hashing::md_view;

verus! {

/// Mathematical view of a sequence of strings.
pub open spec fn strings_view(s: Seq<String>) -> Seq<Seq<char>> {
    s.map_values(|t: String| t@)
}

/// A stored content unit: raw text, its identity hash, labels, free
/// metadata, a creation timestamp, and (once computed) an embedding in
/// fixed-point millionths.
pub struct Memory {
    pub content: String,
    pub content_hash: String,
    pub tags: Vec<String>,
    pub memory_type: Option<String>,
    pub timestamp_seconds: i64,
    pub metadata: Vec<(String, String)>,
    pub embedding: Option<Vec<i64>>,
}

/// Mathematical view of a memory.
pub ghost struct MemoryView {
    pub content: Seq<char>,
    pub content_hash: Seq<char>,
    pub tags: Seq<Seq<char>>,
    pub memory_type: Option<Seq<char>>,
    pub timestamp_seconds: i64,
    pub metadata: Seq<(Seq<char>, Seq<char>)>,
    pub embedding: Option<Seq<i64>>,
}

impl View for Memory {
    type V = MemoryView;

    open spec fn view(&self) -> MemoryView {
        MemoryView {
            content: self.content@,
            content_hash: self.content_hash@,
            tags: strings_view(self.tags@),
            memory_type: match self.memory_type {
                Some(t) => Some(t@),
                None => None,
            },
            timestamp_seconds: self.timestamp_seconds,
            metadata: md_view(self.metadata@),
            embedding: match self.embedding {
                Some(e) => Some(e@),
                None => None,
            },
        }
    }
}

impl Memory {
    /// Attaches a computed embedding, leaving every other field as it
    /// was.
    pub fn set_embedding(&mut self, embedding: Vec<i64>)
        ensures
            final(self)@ == (MemoryView { embedding: Some(embedding@), ..old(self)@ }),
    {
        self.embedding = Some(embedding);
    }

    /// An exact copy, field by field.
    pub fn duplicate(&self) -> (r: Memory)
        ensures
            r@ == self@,
    {
        let content = self.content.clone();
        let content_hash = self.content_hash.clone();
        let mut tags: Vec<String> = Vec::new();
        let mut i: usize = 0;
        while i < self.tags.len()
            invariant
                i <= self.tags.len(),
                tags@ == self.tags@.take(i as int),
            decreases self.tags.len() - i,
        {
            tags.push(self.tags[i].clone());
            proof {
                assert(self.tags@.take(i + 1 as int) =~= self.tags@.take(i as int).push(
                    self.tags@[i as int],
                ));
            }
            i = i + 1;
        }
        let memory_type = match &self.memory_type {
            Some(t) => Some(t.clone()),
            None => None,
        };
        let mut metadata: Vec<(String, String)> = Vec::new();
        let mut j: usize = 0;
        while j < self.metadata.len()
            invariant
                j <= self.metadata.len(),
                metadata@ == self.metadata@.take(j as int),
            decreases self.metadata.len() - j,
        {
            metadata.push((self.metadata[j].0.clone(), self.metadata[j].1.clone()));
            proof {
                assert(self.metadata@[j as int] == (
                    self.metadata@[j as int].0,
                    self.metadata@[j as int].1,
                ));
                assert(self.metadata@.take(j + 1 as int) =~= self.metadata@.take(j as int).push(
                    self.metadata@[j as int],
                ));
            }
            j = j + 1;
        }
        let embedding = match &self.embedding {
            Some(e) => {
                let mut copy: Vec<i64> = Vec::new();
                let mut k: usize = 0;
                while k < e.len()
                    invariant
                        k <= e.len(),
                        copy@ == e@.take(k as int),
                    decreases e.len() - k,
                {
                    copy.push(e[k]);
                    proof {
                        assert(e@.take(k + 1 as int) =~= e@.take(k as int).push(e@[k as int]));
                    }
                    k = k + 1;
                }
                proof {
                    assert(e@.take(e@.len() as int) =~= e@);
                }
                Some(copy)
            },
            None => None,
        };
        proof {
            assert(self.tags@.take(self.tags@.len() as int) =~= self.tags@);
            assert(self.metadata@.take(self.metadata@.len() as int) =~= self.metadata@);
        }
        let r = Memory {
            content,
            content_hash,
            tags,
            memory_type,
            timestamp_seconds: self.timestamp_seconds,
            metadata,
            embedding,
        };
        r
    }
}

/// A memory paired with its relevance to a query: the fixed-point
/// cosine similarity of the query embedding and the memory's embedding,
/// in millionths; higher is more relevant.
pub struct MemoryQueryResult {
    pub memory: Memory,
    pub relevance_score: i64,
}

/// Mathematical view of a query result.
pub ghost struct QueryResultView {
    pub memory: MemoryView,
    pub relevance_score: i64,
}

impl View for MemoryQueryResult {
    type V = QueryResultView;

    open spec fn view(&self) -> QueryResultView {
        QueryResultView { memory: self.memory@, relevance_score: self.relevance_score }
    }
}

/// Request to store a new memory.
pub struct StoreMemoryRequest {
    pub content: String,
    pub tags: Option<Vec<String>>,
    pub memory_type: Option<String>,
    pub metadata: Option<Vec<(String, String)>>,
}

/// Request to retrieve the memories most similar to a query.
pub struct RetrieveMemoryRequest {
    pub query: String,
    pub n_results: Option<usize>,
}

/// Request to find the memories carrying at least one of some tags.
pub struct SearchByTagRequest {
    pub tags: Vec<String>,
}

/// Request to delete a memory by its identity hash.
pub struct DeleteMemoryRequest {
    pub content_hash: String,
}

} // verus!
