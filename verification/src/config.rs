//! Configuration model: which backend and which embedding collaborator
//! to run, and the pure parsing decisions behind the environment-driven
//! settings. Reading the environment itself is left to the host
//! program; this module only decides what the setting strings mean.
use vstd::prelude::*;
use vstd::string::StrSliceExecFns;
use vstd::string::StringExecFns;
use vstd::utf8::encode_utf8;

use crate::text::{ascii_lower, bytes_eq, lower_bytes};

verus! {

/// Storage backend options.
#[derive(Clone, Copy, Debug, PartialEq, Eq, Structural)]
pub enum StorageBackend {
    /// In-process storage (no persistence).
    InMemory,
    /// Remote vector-collection storage.
    ChromaDB,
}

impl Default for StorageBackend {
    fn default() -> (r: Self)
        ensures
            r == StorageBackend::InMemory,
    {
        StorageBackend::InMemory
    }
}

/// Embedding collaborator options.
#[derive(Clone, Copy, Debug, PartialEq, Eq, Structural)]
pub enum EmbeddingModel {
    /// Deterministic placeholder vectors (for testing).
    Dummy,
    /// A trained-model inference pipeline.
    Onnx,
}

impl Default for EmbeddingModel {
    fn default() -> (r: Self)
        ensures
            r == EmbeddingModel::Dummy,
    {
        EmbeddingModel::Dummy
    }
}

impl StorageBackend {
    /// The backend a setting string selects: `chromadb` (ASCII
    /// case-insensitively) picks the remote backend, anything else the
    /// in-process one.
    pub fn from_name(name: &str) -> (r: StorageBackend)
        ensures
            r == (if lower_bytes(encode_utf8(name@)) == encode_utf8("chromadb"@) {
                StorageBackend::ChromaDB
            } else {
                StorageBackend::InMemory
            }),
    {
        let bytes = name.as_bytes_vec();
        let lowered = ascii_lower(&bytes);
        let target = "chromadb".as_bytes_vec();
        if bytes_eq(&lowered, &target) {
            StorageBackend::ChromaDB
        } else {
            StorageBackend::InMemory
        }
    }
}

impl EmbeddingModel {
    /// The collaborator a setting string selects: `onnx` (ASCII
    /// case-insensitively) picks the model pipeline, anything else the
    /// placeholder.
    pub fn from_name(name: &str) -> (r: EmbeddingModel)
        ensures
            r == (if lower_bytes(encode_utf8(name@)) == encode_utf8("onnx"@) {
                EmbeddingModel::Onnx
            } else {
                EmbeddingModel::Dummy
            }),
    {
        let bytes = name.as_bytes_vec();
        let lowered = ascii_lower(&bytes);
        let target = "onnx".as_bytes_vec();
        if bytes_eq(&lowered, &target) {
            EmbeddingModel::Onnx
        } else {
            EmbeddingModel::Dummy
        }
    }
}

/// The resolved configuration of the store.
pub struct Config {
    pub storage_backend: StorageBackend,
    pub chroma_db_path: String,
    pub chroma_db_url: Option<String>,
    pub chroma_collection_name: String,
    pub embedding_model: EmbeddingModel,
    pub embedding_model_path: Option<String>,
    pub embedding_size: usize,
    pub log_level: String,
}

impl Default for Config {
    /// The defaults used before any setting is read: in-process
    /// storage, placeholder embeddings of 384 components, the
    /// `memory_collection` collection.
    fn default() -> (r: Config)
        ensures
            r.storage_backend == StorageBackend::InMemory,
            r.chroma_db_path@ == Seq::<char>::empty(),
            r.chroma_db_url is None,
            r.chroma_collection_name@ == "memory_collection"@,
            r.embedding_model == EmbeddingModel::Dummy,
            r.embedding_model_path is None,
            r.embedding_size == 384,
            r.log_level@ == "info"@,
    {
        Config {
            storage_backend: StorageBackend::InMemory,
            chroma_db_path: String::new(),
            chroma_db_url: None,
            chroma_collection_name: String::from_str("memory_collection"),
            embedding_model: EmbeddingModel::Dummy,
            embedding_model_path: None,
            embedding_size: 384,
            log_level: String::from_str("info"),
        }
    }
}

/// Whether every character is an ASCII digit (and there is at least
/// one).
pub open spec fn all_digits(s: Seq<char>) -> bool {
    s.len() > 0 && forall|i: int| 0 <= i < s.len() ==> 48 <= (#[trigger] s[i]) as u32 <= 57
}

/// The number a digit string denotes.
pub open spec fn decimal_value(s: Seq<char>) -> int
    decreases s.len(),
{
    if s.len() == 0 {
        0
    } else {
        decimal_value(s.drop_last()) * 10 + (s.last() as u32 - 48)
    }
}

/// Digit strings denote non-negative values that only grow with more
/// digits.
pub proof fn lemma_decimal_grows(s: Seq<char>, i: int)
    requires
        0 <= i <= s.len(),
        forall|j: int| 0 <= j < s.len() ==> 48 <= (#[trigger] s[j]) as u32 <= 57,
    ensures
        0 <= decimal_value(s.take(i)) <= decimal_value(s),
    decreases s.len() - i,
{
    if i == s.len() {
        assert(s.take(i) =~= s);
        lemma_decimal_nonneg(s);
    } else {
        lemma_decimal_grows(s, i + 1);
        let t = s.take(i + 1);
        assert(t.drop_last() =~= s.take(i));
        assert(t.last() == s[i]);
        lemma_decimal_nonneg(s.take(i));
        assert(decimal_value(s.take(i)) <= decimal_value(s.take(i)) * 10 + (s[i] as u32 - 48))
            by (nonlinear_arith)
            requires
                decimal_value(s.take(i)) >= 0,
                48 <= s[i] as u32 <= 57,
        ;
    }
}

pub proof fn lemma_decimal_nonneg(s: Seq<char>)
    requires
        forall|j: int| 0 <= j < s.len() ==> 48 <= (#[trigger] s[j]) as u32 <= 57,
    ensures
        decimal_value(s) >= 0,
    decreases s.len(),
{
    if s.len() > 0 {
        let t = s.drop_last();
        assert(forall|j: int| 0 <= j < t.len() ==> t[j] == s[j]);
        lemma_decimal_nonneg(t);
    }
}

/// Parses a decimal setting value: `Some` exactly for non-empty digit
/// strings whose value fits a `usize`.
pub fn parse_usize(s: &str) -> (r: Option<usize>)
    ensures
        match r {
            Some(n) => all_digits(s@) && n as int == decimal_value(s@),
            None => !(all_digits(s@) && decimal_value(s@) <= usize::MAX as int),
        },
{
    let n = s.unicode_len();
    if n == 0 {
        return None;
    }
    let mut acc: usize = 0;
    let mut i: usize = 0;
    proof {
        assert(decimal_value(s@.take(0)) == 0);
    }
    while i < n
        invariant
            i <= n,
            n == s@.len(),
            forall|j: int| 0 <= j < i ==> 48 <= (#[trigger] s@[j]) as u32 <= 57,
            acc as int == decimal_value(s@.take(i as int)),
        decreases n - i,
    {
        let c = s.get_char(i);
        let code = c as u32;
        if code < 48 || code > 57 {
            proof {
                assert(!all_digits(s@));
            }
            return None;
        }
        let d = (code - 48) as usize;
        proof {
            let t = s@.take(i + 1 as int);
            assert(t.drop_last() =~= s@.take(i as int));
            assert(t.last() == s@[i as int]);
        }
        if acc > (usize::MAX - d) / 10 {
            // the value no longer fits, and further digits only grow it
            proof {
                let big = decimal_value(s@.take(i + 1 as int));
                assert(big == acc as int * 10 + d);
                assert(acc as int * 10 + d > usize::MAX as int) by (nonlinear_arith)
                    requires
                        acc as int > (usize::MAX as int - d) / 10,
                        0 <= d <= 9,
                        usize::MAX as int >= 9,
                ;
                if all_digits(s@) {
                    lemma_decimal_grows(s@, i + 1 as int);
                }
            }
            return None;
        }
        proof {
            assert(acc as int * 10 + d <= usize::MAX as int) by (nonlinear_arith)
                requires
                    acc as int <= (usize::MAX as int - d) / 10,
                    0 <= d <= 9,
            ;
        }
        acc = acc * 10 + d;
        i = i + 1;
    }
    proof {
        assert(s@.take(s@.len() as int) =~= s@);
    }
    Some(acc)
}

} // verus!
