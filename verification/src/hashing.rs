//! The content-identity hash: normalized content bytes plus a canonical
//! serialization of the non-volatile metadata, digested with SHA-256 and
//! rendered as lowercase hex.
//!
//! Canonicalization sorts the metadata entries under a fixed total order
//! before serializing them, so the hash never depends on the insertion
//! order of the metadata map, and it filters out the reserved volatile
//! keys (`timestamp`, `content_hash`, `embedding`) so the hash never
//! depends on their values.
use vstd::multiset::Multiset;
use vstd::prelude::*;
use vstd::relations::{sorted_by, total_ordering};
use vstd::seq_lib::lemma_multiset_commutative;
use vstd::utf8::encode_utf8;

use vstd::string::StrSliceExecFns;
use vstd::string::StringExecFns;

use crate::text::{
    ascii_lower, bytes_eq, lemma_lex_antisym, lemma_lex_refl, lemma_lex_total, lemma_lex_trans,
    lex_le, lex_leq, normalize_bytes, trim_ascii,
};

verus! {

/// A metadata entry as a pair of byte sequences (key, value).
pub type EntryBytes = (Seq<u8>, Seq<u8>);

/// View of an owned byte pair.
pub open spec fn pv(p: (Vec<u8>, Vec<u8>)) -> EntryBytes {
    (p.0@, p.1@)
}

/// View of a sequence of owned byte pairs.
pub open spec fn pairs_view(s: Seq<(Vec<u8>, Vec<u8>)>) -> Seq<EntryBytes> {
    s.map_values(|p: (Vec<u8>, Vec<u8>)| pv(p))
}

/// The fixed total order on metadata entries: by key, ties broken by
/// value, each compared lexicographically byte-wise.
pub open spec fn pair_leq(a: EntryBytes, b: EntryBytes) -> bool {
    if a.0 == b.0 {
        lex_leq(a.1, b.1)
    } else {
        lex_leq(a.0, b.0)
    }
}

/// `pair_leq` as a first-class relation, for the sorting lemmas.
pub open spec fn pair_leq_fn() -> spec_fn(EntryBytes, EntryBytes) -> bool {
    |a: EntryBytes, b: EntryBytes| pair_leq(a, b)
}

pub proof fn lemma_pair_refl(a: EntryBytes)
    ensures
        pair_leq(a, a),
{
    lemma_lex_refl(a.1);
}

pub proof fn lemma_pair_antisym(a: EntryBytes, b: EntryBytes)
    requires
        pair_leq(a, b),
        pair_leq(b, a),
    ensures
        a == b,
{
    if a.0 == b.0 {
        lemma_lex_antisym(a.1, b.1);
    } else {
        lemma_lex_antisym(a.0, b.0);
    }
}

pub proof fn lemma_pair_trans(a: EntryBytes, b: EntryBytes, c: EntryBytes)
    requires
        pair_leq(a, b),
        pair_leq(b, c),
    ensures
        pair_leq(a, c),
{
    if a.0 == b.0 && b.0 == c.0 {
        lemma_lex_trans(a.1, b.1, c.1);
    } else if a.0 == b.0 {
        // keys: a.0 == b.0 != c.0, so the comparison of a and c is on keys
    } else if b.0 == c.0 {
        // keys: a.0 != b.0 == c.0
    } else {
        if a.0 == c.0 {
            lemma_lex_trans(a.0, b.0, c.0);
            lemma_lex_antisym(a.0, b.0);
        } else {
            lemma_lex_trans(a.0, b.0, c.0);
        }
    }
}

pub proof fn lemma_pair_total(a: EntryBytes, b: EntryBytes)
    ensures
        pair_leq(a, b) || pair_leq(b, a),
{
    if a.0 == b.0 {
        lemma_lex_total(a.1, b.1);
    } else {
        lemma_lex_total(a.0, b.0);
    }
}

pub proof fn lemma_pair_total_ordering()
    ensures
        total_ordering(pair_leq_fn()),
{
    let leq = pair_leq_fn();
    assert forall|a: EntryBytes| #[trigger] leq(a, a) by {
        lemma_pair_refl(a);
    }
    assert forall|a: EntryBytes, b: EntryBytes| #[trigger] leq(a, b) && #[trigger] leq(b, a)
        implies a == b by {
        lemma_pair_antisym(a, b);
    }
    assert forall|a: EntryBytes, b: EntryBytes, c: EntryBytes|
        #[trigger] leq(a, b) && #[trigger] leq(b, c) implies leq(a, c) by {
        lemma_pair_trans(a, b, c);
    }
    assert forall|a: EntryBytes, b: EntryBytes| true implies #[trigger] leq(a, b) || #[trigger] leq(
        b,
        a,
    ) by {
        lemma_pair_total(a, b);
    }
}

/// Executable comparison under the canonical entry order.
pub fn pair_le(a: &(Vec<u8>, Vec<u8>), b: &(Vec<u8>, Vec<u8>)) -> (r: bool)
    ensures
        r == pair_leq(pv(*a), pv(*b)),
{
    if bytes_eq(&a.0, &b.0) {
        lex_le(&a.1, &b.1)
    } else {
        lex_le(&a.0, &b.0)
    }
}

/// Inserting `x` into a sorted sequence at position `j` (every element
/// before `j` is at most `x`, and the element at `j`, if any, is not)
/// keeps it sorted and adds exactly `x` to its multiset.
pub proof fn lemma_sorted_insert(s: Seq<EntryBytes>, x: EntryBytes, j: int)
    requires
        sorted_by(s, pair_leq_fn()),
        0 <= j <= s.len(),
        forall|k: int| 0 <= k < j ==> pair_leq(#[trigger] s[k], x),
        j == s.len() || !pair_leq(s[j], x),
    ensures
        sorted_by(s.insert(j, x), pair_leq_fn()),
        s.insert(j, x).to_multiset() =~= s.to_multiset().insert(x),
{
    broadcast use vstd::seq_lib::group_to_multiset_ensures;

    let leq = pair_leq_fn();
    let t = s.insert(j, x);
    if j < s.len() {
        lemma_pair_total(s[j], x);
        assert(pair_leq(x, s[j]));
    }
    assert forall|p: int, q: int| 0 <= p < q < t.len() implies #[trigger] leq(t[p], t[q]) by {
        if p < j && q < j {
            assert(t[p] == s[p] && t[q] == s[q]);
        } else if p < j && q == j {
            assert(t[p] == s[p] && t[q] == x);
        } else if p < j && q > j {
            assert(t[p] == s[p] && t[q] == s[q - 1]);
            if p == q - 1 {
            } else {
                assert(leq(s[p], s[q - 1]));
            }
        } else if p == j {
            assert(t[p] == x);
            assert(t[q] == s[q - 1]);
            assert(j <= q - 1);
            if j == q - 1 {
                assert(pair_leq(x, s[j]));
            } else {
                assert(leq(s[j], s[q - 1]));
                lemma_pair_trans(x, s[j], s[q - 1]);
            }
        } else {
            assert(t[p] == s[p - 1] && t[q] == s[q - 1]);
        }
    }
}

/// Sorts metadata entries under the canonical entry order.
pub fn sort_pairs(v: Vec<(Vec<u8>, Vec<u8>)>) -> (r: Vec<(Vec<u8>, Vec<u8>)>)
    ensures
        sorted_by(pairs_view(r@), pair_leq_fn()),
        pairs_view(r@).to_multiset() =~= pairs_view(v@).to_multiset(),
{
    broadcast use vstd::seq_lib::group_to_multiset_ensures;
    broadcast use vstd::multiset::group_multiset_axioms;

    let ghost orig = pairs_view(v@);
    let mut rest = v;
    let mut out: Vec<(Vec<u8>, Vec<u8>)> = Vec::new();
    proof {
        assert(pairs_view(out@) =~= Seq::<EntryBytes>::empty());
        assert(Seq::<EntryBytes>::empty().to_multiset() =~= Multiset::<EntryBytes>::empty());
        assert(pairs_view(out@).to_multiset().add(pairs_view(rest@).to_multiset())
            =~= orig.to_multiset());
    }
    while rest.len() > 0
        invariant
            sorted_by(pairs_view(out@), pair_leq_fn()),
            pairs_view(out@).to_multiset().add(pairs_view(rest@).to_multiset()) =~= orig.to_multiset(),
        decreases rest.len(),
    {
        let ghost rest0 = pairs_view(rest@);
        let x = rest.remove(0);
        proof {
            broadcast use vstd::seq_lib::group_to_multiset_ensures;
            broadcast use vstd::multiset::group_multiset_axioms;

            assert(rest0.len() > 0);
            assert(pairs_view(rest@) =~= rest0.remove(0));
            assert(rest0.remove(0).to_multiset() =~= rest0.to_multiset().remove(rest0[0]));
            assert(rest0[0] == pv(x));
        }
        let mut j: usize = 0;
        while j < out.len() && pair_le(&out[j], &x)
            invariant
                j <= out.len(),
                forall|k: int| 0 <= k < j ==> pair_leq(#[trigger] pairs_view(out@)[k], pv(x)),
            decreases out.len() - j,
        {
            j = j + 1;
        }
        let ghost out0 = pairs_view(out@);
        proof {
            lemma_sorted_insert(out0, pv(x), j as int);
        }
        out.insert(j, x);
        proof {
            broadcast use vstd::seq_lib::group_to_multiset_ensures;
            broadcast use vstd::multiset::group_multiset_axioms;

            assert(pairs_view(out@) =~= out0.insert(j as int, pv(x)));
            assert(pairs_view(out@).to_multiset() =~= out0.to_multiset().insert(pv(x)));
            assert(rest0.to_multiset().count(rest0[0]) > 0) by {
                assert(rest0.contains(rest0[0]));
            }
            assert(pairs_view(out@).to_multiset().add(pairs_view(rest@).to_multiset())
                =~= out0.to_multiset().add(rest0.to_multiset()));
        }
    }
    proof {
        assert(pairs_view(rest@) =~= Seq::<EntryBytes>::empty());
        assert(Seq::<EntryBytes>::empty().to_multiset() =~= Multiset::<EntryBytes>::empty());
        assert(pairs_view(out@).to_multiset() =~= orig.to_multiset());
    }
    out
}

/// Lowercase hex digit for a nibble, as an ASCII byte.
pub open spec fn hex_nibble_byte(n: u8) -> u8 {
    if n < 10 {
        (48 + n) as u8
    } else {
        (87 + n) as u8
    }
}

/// How one byte is escaped in the canonical metadata serialization:
/// quote and backslash get a backslash, control bytes become `\u00XX`,
/// and everything else stands for itself.
pub open spec fn escape_byte(b: u8) -> Seq<u8> {
    if b == 34 {
        seq![92u8, 34u8]
    } else if b == 92 {
        seq![92u8, 92u8]
    } else if b < 32 {
        seq![92u8, 117u8, 48u8, 48u8, hex_nibble_byte(b / 16), hex_nibble_byte(b % 16)]
    } else {
        seq![b]
    }
}

pub open spec fn escape_bytes(s: Seq<u8>) -> Seq<u8>
    decreases s.len(),
{
    if s.len() == 0 {
        Seq::empty()
    } else {
        escape_bytes(s.drop_last()) + escape_byte(s.last())
    }
}

fn hex_nibble(n: u8) -> (r: u8)
    requires
        n < 16,
    ensures
        r == hex_nibble_byte(n),
{
    if n < 10 {
        48 + n
    } else {
        87 + n
    }
}

/// Appends the escaped form of `s` to `out`.
fn append_escaped(out: &mut Vec<u8>, s: &Vec<u8>)
    ensures
        final(out)@ == old(out)@ + escape_bytes(s@),
{
    let mut i: usize = 0;
    proof {
        assert(old(out)@ + escape_bytes(s@.take(0)) =~= old(out)@);
    }
    while i < s.len()
        invariant
            i <= s.len(),
            out@ == old(out)@ + escape_bytes(s@.take(i as int)),
        decreases s.len() - i,
    {
        let b = s[i];
        if b == 34 {
            out.push(92);
            out.push(34);
        } else if b == 92 {
            out.push(92);
            out.push(92);
        } else if b < 32 {
            out.push(92);
            out.push(117);
            out.push(48);
            out.push(48);
            out.push(hex_nibble(b / 16));
            out.push(hex_nibble(b % 16));
        } else {
            out.push(b);
        }
        proof {
            let t = s@.take(i + 1 as int);
            assert(t.drop_last() =~= s@.take(i as int));
            assert(t.last() == s@[i as int]);
            assert(out@ =~= old(out)@ + escape_bytes(s@.take(i as int)) + escape_byte(
                s@[i as int],
            ));
            assert(out@ =~= old(out)@ + escape_bytes(t));
        }
        i = i + 1;
    }
    proof {
        assert(s@.take(s@.len() as int) =~= s@);
    }
}

/// One serialized metadata entry: `"key":"value"` with both parts
/// escaped.
pub open spec fn entry_bytes(p: EntryBytes) -> Seq<u8> {
    seq![34u8] + escape_bytes(p.0) + seq![34u8, 58u8, 34u8] + escape_bytes(p.1) + seq![34u8]
}

/// Comma-joined serialized entries.
pub open spec fn entries_bytes(s: Seq<EntryBytes>) -> Seq<u8>
    decreases s.len(),
{
    if s.len() == 0 {
        Seq::empty()
    } else if s.len() == 1 {
        entry_bytes(s[0])
    } else {
        entries_bytes(s.drop_last()) + seq![44u8] + entry_bytes(s.last())
    }
}

/// The metadata keys whose values never influence the content hash.
pub open spec fn reserved_key_bytes(k: Seq<u8>) -> bool {
    ||| k == encode_utf8("timestamp"@)
    ||| k == encode_utf8("content_hash"@)
    ||| k == encode_utf8("embedding"@)
}

pub open spec fn keep_entry(p: EntryBytes) -> bool {
    !reserved_key_bytes(p.0)
}

pub open spec fn keep_fn() -> spec_fn(EntryBytes) -> bool {
    |p: EntryBytes| keep_entry(p)
}

/// The canonical serialization of a metadata map: entries sorted under
/// the fixed total order, reserved keys dropped, wrapped in braces.
pub open spec fn canonical_metadata_bytes(md: Seq<EntryBytes>) -> Seq<u8> {
    seq![123u8] + entries_bytes(md.sort_by(pair_leq_fn()).filter(keep_fn())) + seq![125u8]
}

fn is_reserved_key(k: &Vec<u8>) -> (r: bool)
    ensures
        r == reserved_key_bytes(k@),
{
    let ts = "timestamp".as_bytes_vec();
    let ch = "content_hash".as_bytes_vec();
    let em = "embedding".as_bytes_vec();
    bytes_eq(k, &ts) || bytes_eq(k, &ch) || bytes_eq(k, &em)
}

proof fn lemma_entries_push(s: Seq<EntryBytes>, p: EntryBytes)
    ensures
        entries_bytes(s.push(p)) == if s.len() == 0 {
            entry_bytes(p)
        } else {
            entries_bytes(s) + seq![44u8] + entry_bytes(p)
        },
{
    let t = s.push(p);
    assert(t.drop_last() =~= s);
    assert(t.last() == p);
    if s.len() == 0 {
        assert(t.len() == 1);
        assert(t[0] == p);
    }
}

/// Builds the canonical serialization of a metadata map.
pub fn canonical_metadata(metadata: Vec<(Vec<u8>, Vec<u8>)>) -> (r: Vec<u8>)
    ensures
        r@ == canonical_metadata_bytes(pairs_view(metadata@)),
{
    let ghost md = pairs_view(metadata@);
    let sorted = sort_pairs(metadata);
    proof {
        lemma_pair_total_ordering();
        md.lemma_sort_by_ensures(pair_leq_fn());
        vstd::seq_lib::lemma_sorted_unique(
            pairs_view(sorted@),
            md.sort_by(pair_leq_fn()),
            pair_leq_fn(),
        );
        assert(pairs_view(sorted@) == md.sort_by(pair_leq_fn()));
    }
    let ghost sv = pairs_view(sorted@);
    let mut out: Vec<u8> = Vec::new();
    out.push(123);
    let mut kept: usize = 0;
    let mut i: usize = 0;
    proof {
        reveal(Seq::filter);
        assert(sv.take(0).filter(keep_fn()) =~= Seq::<EntryBytes>::empty());
        assert(out@ =~= seq![123u8] + entries_bytes(sv.take(0).filter(keep_fn())));
    }
    while i < sorted.len()
        invariant
            i <= sorted.len(),
            kept <= i,
            sv == pairs_view(sorted@),
            kept == sv.take(i as int).filter(keep_fn()).len(),
            out@ == seq![123u8] + entries_bytes(sv.take(i as int).filter(keep_fn())),
        decreases sorted.len() - i,
    {
        let ghost pre = sv.take(i as int).filter(keep_fn());
        let reserved = is_reserved_key(&sorted[i].0);
        if !reserved {
            if kept > 0 {
                out.push(44);
            }
            out.push(34);
            append_escaped(&mut out, &sorted[i].0);
            out.push(34);
            out.push(58);
            out.push(34);
            append_escaped(&mut out, &sorted[i].1);
            out.push(34);
            kept = kept + 1;
            proof {
                let p = sv[i as int];
                lemma_entries_push(pre, p);
                assert(out@ =~= seq![123u8] + entries_bytes(pre.push(p))) by {
                    assert(entry_bytes(p) =~= seq![34u8] + escape_bytes(p.0) + seq![
                        34u8,
                        58u8,
                        34u8,
                    ] + escape_bytes(p.1) + seq![34u8]);
                    if pre.len() == 0 {
                        assert(out@ =~= seq![123u8] + entries_bytes(pre) + entry_bytes(p));
                        assert(entries_bytes(pre) =~= Seq::<u8>::empty());
                        assert(out@ =~= seq![123u8] + entry_bytes(p));
                    } else {
                        assert(out@ =~= seq![123u8] + (entries_bytes(pre) + seq![44u8]
                            + entry_bytes(p)));
                    }
                }
            }
        }
        proof {
            reveal(Seq::filter);
            let t = sv.take(i + 1 as int);
            let fpred = keep_fn();
            assert(t.len() == i + 1);
            assert(t.drop_last() =~= sv.take(i as int));
            assert(t.last() == sv[i as int]);
            assert(reserved == reserved_key_bytes(sv[i as int].0));
            if keep_entry(sv[i as int]) {
                assert(fpred(t.last()));
                assert(t.filter(fpred) == t.drop_last().filter(fpred).push(t.last()));
                assert(t.filter(fpred) == pre.push(sv[i as int]));
            } else {
                assert(!fpred(t.last()));
                assert(t.filter(fpred) == t.drop_last().filter(fpred));
                assert(t.filter(fpred) == pre);
            }
        }
        i = i + 1;
    }
    out.push(125);
    proof {
        assert(sv.take(sv.len() as int) =~= sv);
        assert(out@ =~= seq![123u8] + entries_bytes(sv.filter(keep_fn())) + seq![125u8]);
    }
    out
}

/// The SHA-256 digest, named: a fixed function of the input bytes.
pub uninterp spec fn sha256_of(input: Seq<u8>) -> Seq<u8>;

/// Relies on sha2::Sha256 through the Digest trait: the digest depends
/// on the input bytes alone and is exactly 32 bytes long.
#[verifier::external_body]
fn sha256(input: &Vec<u8>) -> (r: Vec<u8>)
    ensures
        r@ == sha256_of(input@),
        r@.len() == 32,
{
    let mut h = <sha2::Sha256 as sha2::Digest>::new();
    <sha2::Sha256 as sha2::Digest>::update(&mut h, input.as_slice());
    <sha2::Sha256 as sha2::Digest>::finalize(h).to_vec()
}

/// Lowercase hex digit for a nibble, as a character.
pub open spec fn hex_char_of(n: u8) -> char {
    if n == 0 {
        '0'
    } else if n == 1 {
        '1'
    } else if n == 2 {
        '2'
    } else if n == 3 {
        '3'
    } else if n == 4 {
        '4'
    } else if n == 5 {
        '5'
    } else if n == 6 {
        '6'
    } else if n == 7 {
        '7'
    } else if n == 8 {
        '8'
    } else if n == 9 {
        '9'
    } else if n == 10 {
        'a'
    } else if n == 11 {
        'b'
    } else if n == 12 {
        'c'
    } else if n == 13 {
        'd'
    } else if n == 14 {
        'e'
    } else {
        'f'
    }
}

/// Lowercase hex rendering of a byte sequence, two digits per byte.
pub open spec fn hex_chars(s: Seq<u8>) -> Seq<char>
    decreases s.len(),
{
    if s.len() == 0 {
        Seq::empty()
    } else {
        hex_chars(s.drop_last()) + seq![
            hex_char_of((s.last() / 16) as u8),
            hex_char_of((s.last() % 16) as u8),
        ]
    }
}

pub(crate) fn push_hex_char(s: &mut String, d: u8)
    requires
        d < 16,
    ensures
        final(s)@ == old(s)@.push(hex_char_of(d)),
{
    if d == 0 {
        s.append("0");
        proof {
            reveal_strlit("0");
            assert(old(s)@ + "0"@ =~= old(s)@.push(hex_char_of(0)));
        }
    } else if d == 1 {
        s.append("1");
        proof {
            reveal_strlit("1");
            assert(old(s)@ + "1"@ =~= old(s)@.push(hex_char_of(1)));
        }
    } else if d == 2 {
        s.append("2");
        proof {
            reveal_strlit("2");
            assert(old(s)@ + "2"@ =~= old(s)@.push(hex_char_of(2)));
        }
    } else if d == 3 {
        s.append("3");
        proof {
            reveal_strlit("3");
            assert(old(s)@ + "3"@ =~= old(s)@.push(hex_char_of(3)));
        }
    } else if d == 4 {
        s.append("4");
        proof {
            reveal_strlit("4");
            assert(old(s)@ + "4"@ =~= old(s)@.push(hex_char_of(4)));
        }
    } else if d == 5 {
        s.append("5");
        proof {
            reveal_strlit("5");
            assert(old(s)@ + "5"@ =~= old(s)@.push(hex_char_of(5)));
        }
    } else if d == 6 {
        s.append("6");
        proof {
            reveal_strlit("6");
            assert(old(s)@ + "6"@ =~= old(s)@.push(hex_char_of(6)));
        }
    } else if d == 7 {
        s.append("7");
        proof {
            reveal_strlit("7");
            assert(old(s)@ + "7"@ =~= old(s)@.push(hex_char_of(7)));
        }
    } else if d == 8 {
        s.append("8");
        proof {
            reveal_strlit("8");
            assert(old(s)@ + "8"@ =~= old(s)@.push(hex_char_of(8)));
        }
    } else if d == 9 {
        s.append("9");
        proof {
            reveal_strlit("9");
            assert(old(s)@ + "9"@ =~= old(s)@.push(hex_char_of(9)));
        }
    } else if d == 10 {
        s.append("a");
        proof {
            reveal_strlit("a");
            assert(old(s)@ + "a"@ =~= old(s)@.push(hex_char_of(10)));
        }
    } else if d == 11 {
        s.append("b");
        proof {
            reveal_strlit("b");
            assert(old(s)@ + "b"@ =~= old(s)@.push(hex_char_of(11)));
        }
    } else if d == 12 {
        s.append("c");
        proof {
            reveal_strlit("c");
            assert(old(s)@ + "c"@ =~= old(s)@.push(hex_char_of(12)));
        }
    } else if d == 13 {
        s.append("d");
        proof {
            reveal_strlit("d");
            assert(old(s)@ + "d"@ =~= old(s)@.push(hex_char_of(13)));
        }
    } else if d == 14 {
        s.append("e");
        proof {
            reveal_strlit("e");
            assert(old(s)@ + "e"@ =~= old(s)@.push(hex_char_of(14)));
        }
    } else {
        s.append("f");
        proof {
            reveal_strlit("f");
            assert(old(s)@ + "f"@ =~= old(s)@.push(hex_char_of(15)));
        }
    }
}

/// Renders bytes as lowercase hex.
pub fn bytes_to_hex(bytes: &Vec<u8>) -> (r: String)
    ensures
        r@ == hex_chars(bytes@),
{
    let mut out = String::new();
    let mut i: usize = 0;
    proof {
        assert(hex_chars(bytes@.take(0)) =~= Seq::<char>::empty());
    }
    while i < bytes.len()
        invariant
            i <= bytes.len(),
            out@ == hex_chars(bytes@.take(i as int)),
        decreases bytes.len() - i,
    {
        let b = bytes[i];
        push_hex_char(&mut out, b / 16);
        push_hex_char(&mut out, b % 16);
        proof {
            let t = bytes@.take(i + 1 as int);
            assert(t.drop_last() =~= bytes@.take(i as int));
            assert(t.last() == bytes@[i as int]);
            assert(out@ =~= hex_chars(bytes@.take(i as int)) + seq![
                hex_char_of((bytes@[i as int] / 16) as u8),
                hex_char_of((bytes@[i as int] % 16) as u8),
            ]);
        }
        i = i + 1;
    }
    proof {
        assert(bytes@.take(bytes@.len() as int) =~= bytes@);
    }
    out
}

fn push_all(dst: &mut Vec<u8>, src: &Vec<u8>)
    ensures
        final(dst)@ == old(dst)@ + src@,
{
    let mut i: usize = 0;
    proof {
        assert(old(dst)@ + src@.take(0) =~= old(dst)@);
    }
    while i < src.len()
        invariant
            i <= src.len(),
            dst@ == old(dst)@ + src@.take(i as int),
        decreases src.len() - i,
    {
        dst.push(src[i]);
        proof {
            assert(old(dst)@ + src@.take(i + 1 as int) =~= (old(dst)@ + src@.take(i as int)).push(
                src@[i as int],
            ));
        }
        i = i + 1;
    }
    proof {
        assert(src@.take(src@.len() as int) =~= src@);
    }
}

/// The complete content identity at the byte level: SHA-256 over the
/// normalized content followed by the canonical metadata serialization,
/// rendered as lowercase hex.
pub open spec fn content_hash_of_bytes(content: Seq<u8>, md: Seq<EntryBytes>) -> Seq<char> {
    hex_chars(sha256_of(normalize_bytes(content) + canonical_metadata_bytes(md)))
}

/// Computes the content identity hash from raw content bytes and
/// metadata entries given as byte pairs.
pub fn content_hash_hex(content: &Vec<u8>, metadata: Vec<(Vec<u8>, Vec<u8>)>) -> (r: String)
    ensures
        r@ == content_hash_of_bytes(content@, pairs_view(metadata@)),
{
    let trimmed = trim_ascii(content);
    let mut input = ascii_lower(&trimmed);
    let canon = canonical_metadata(metadata);
    push_all(&mut input, &canon);
    let digest = sha256(&input);
    bytes_to_hex(&digest)
}

/// Char-pair view of owned metadata entries.
pub open spec fn md_view(s: Seq<(String, String)>) -> Seq<(Seq<char>, Seq<char>)> {
    s.map_values(|p: (String, String)| (p.0@, p.1@))
}

/// UTF-8 byte-pair view of char-pair metadata entries.
pub open spec fn md_bytes_view(md: Seq<(Seq<char>, Seq<char>)>) -> Seq<EntryBytes> {
    md.map_values(|p: (Seq<char>, Seq<char>)| (encode_utf8(p.0), encode_utf8(p.1)))
}

/// The content identity of a memory given as text and string metadata.
pub open spec fn content_hash_of(content: Seq<char>, md: Seq<(Seq<char>, Seq<char>)>) -> Seq<
    char,
> {
    content_hash_of_bytes(encode_utf8(content), md_bytes_view(md))
}

/// Derives the deduplication identity of a memory: a deterministic,
/// order-independent hash of the normalized content and the non-volatile
/// metadata.
pub fn generate_content_hash(content: &str, metadata: &Vec<(String, String)>) -> (r: String)
    ensures
        r@ == content_hash_of(content@, md_view(metadata@)),
{
    let content_bytes = content.as_bytes_vec();
    let mut pairs: Vec<(Vec<u8>, Vec<u8>)> = Vec::new();
    let mut i: usize = 0;
    proof {
        assert(pairs_view(pairs@) =~= md_bytes_view(md_view(metadata@.take(0))));
    }
    while i < metadata.len()
        invariant
            i <= metadata.len(),
            pairs_view(pairs@) == md_bytes_view(md_view(metadata@.take(i as int))),
        decreases metadata.len() - i,
    {
        let k = metadata[i].0.as_str().as_bytes_vec();
        let v = metadata[i].1.as_str().as_bytes_vec();
        pairs.push((k, v));
        proof {
            assert(pairs_view(pairs@) =~= md_bytes_view(md_view(metadata@.take(i + 1 as int))))
                by {
                assert(md_view(metadata@.take(i + 1 as int)) =~= md_view(
                    metadata@.take(i as int),
                ).push((metadata@[i as int].0@, metadata@[i as int].1@)));
                assert(md_bytes_view(
                    md_view(metadata@.take(i as int)).push(
                        (metadata@[i as int].0@, metadata@[i as int].1@),
                    ),
                ) =~= md_bytes_view(md_view(metadata@.take(i as int))).push(
                    (
                        encode_utf8(metadata@[i as int].0@),
                        encode_utf8(metadata@[i as int].1@),
                    ),
                ));
            }
        }
        i = i + 1;
    }
    proof {
        assert(metadata@.take(metadata@.len() as int) =~= metadata@);
    }
    content_hash_hex(&content_bytes, pairs)
}

/// Normalization invariance: hashing raw content and hashing its
/// normalized form (whitespace trimmed, case folded) give the same
/// identity, because normalization is idempotent.
pub proof fn lemma_hash_normalization_invariant(content: Seq<u8>, md: Seq<EntryBytes>)
    ensures
        content_hash_of_bytes(content, md) == content_hash_of_bytes(
            crate::text::normalize_bytes(content),
            md,
        ),
{
    crate::text::lemma_normalize_idempotent(content);
}

/// Inserting an element into a sorted sequence at its ordered position.
pub open spec fn sorted_insert(s: Seq<EntryBytes>, p: EntryBytes) -> Seq<EntryBytes>
    decreases s.len(),
{
    if s.len() == 0 {
        seq![p]
    } else if pair_leq(s[0], p) {
        seq![s[0]] + sorted_insert(s.drop_first(), p)
    } else {
        seq![p] + s
    }
}

proof fn lemma_filter_singleton(p: EntryBytes)
    ensures
        seq![p].filter(keep_fn()) == if keep_entry(p) {
            seq![p]
        } else {
            Seq::<EntryBytes>::empty()
        },
{
    reveal(Seq::filter);
    let w = seq![p];
    assert(w.len() == 1);
    assert(w.last() == p);
    assert(w.drop_last() =~= Seq::<EntryBytes>::empty());
    assert(Seq::<EntryBytes>::empty().filter(keep_fn()) =~= Seq::<EntryBytes>::empty());
    if keep_entry(p) {
        assert(w.filter(keep_fn()) =~= Seq::<EntryBytes>::empty().push(p));
        assert(Seq::<EntryBytes>::empty().push(p) =~= w);
    }
}

proof fn lemma_sorted_insert_props(s: Seq<EntryBytes>, p: EntryBytes)
    requires
        sorted_by(s, pair_leq_fn()),
    ensures
        sorted_by(sorted_insert(s, p), pair_leq_fn()),
        sorted_insert(s, p).to_multiset() =~= s.to_multiset().insert(p),
        !keep_entry(p) ==> sorted_insert(s, p).filter(keep_fn()) == s.filter(keep_fn()),
    decreases s.len(),
{
    broadcast use vstd::seq_lib::group_to_multiset_ensures;
    broadcast use vstd::multiset::group_multiset_axioms;

    reveal(Seq::filter);
    let leq = pair_leq_fn();
    let w = sorted_insert(s, p);
    if s.len() == 0 {
        assert(w =~= Seq::<EntryBytes>::empty().push(p));
        assert(Seq::<EntryBytes>::empty().to_multiset() =~= Multiset::<EntryBytes>::empty());
        assert(w.to_multiset() =~= s.to_multiset().insert(p));
        if !keep_entry(p) {
            lemma_filter_singleton(p);
            assert(s.filter(keep_fn()) == s);
            assert(w.filter(keep_fn()) =~= s.filter(keep_fn()));
        }
    } else if pair_leq(s[0], p) {
        let rest = s.drop_first();
        assert(sorted_by(rest, leq)) by {
            assert(forall|i: int, j: int|
                0 <= i < j < rest.len() ==> leq(s[i + 1], s[j + 1]) && rest[i] == s[i + 1]
                    && rest[j] == s[j + 1]);
        }
        lemma_sorted_insert_props(rest, p);
        let wr = sorted_insert(rest, p);
        assert(w =~= seq![s[0]] + wr);
        // every element of `wr` is either `p` or an element of `rest`,
        // so `s[0]` is below all of them
        assert forall|i: int, j: int| 0 <= i < j < w.len() implies #[trigger] leq(
            w[i],
            w[j],
        ) by {
            if i == 0 {
                let x = wr[j - 1];
                assert(wr.contains(x));
                assert(wr.to_multiset().count(x) > 0);
                if x == p {
                    assert(leq(s[0], p));
                } else {
                    assert(rest.to_multiset().insert(p).count(x) > 0);
                    assert(rest.to_multiset().count(x) > 0);
                    assert(rest.contains(x));
                    let k = choose|k: int| 0 <= k < rest.len() && rest[k] == x;
                    assert(rest[k] == s[k + 1]);
                    assert(leq(s[0], s[k + 1]));
                }
            } else {
                assert(w[i] == wr[i - 1] && w[j] == wr[j - 1]);
                assert(leq(wr[i - 1], wr[j - 1]));
            }
        }
        lemma_multiset_commutative(seq![s[0]], wr);
        lemma_multiset_commutative(seq![s[0]], rest);
        assert(s =~= seq![s[0]] + rest);
        assert(seq![s[0]].to_multiset() =~= Multiset::<EntryBytes>::empty().insert(s[0])) by {
            assert(seq![s[0]] =~= Seq::<EntryBytes>::empty().push(s[0]));
            assert(Seq::<EntryBytes>::empty().to_multiset() =~= Multiset::<
                EntryBytes,
            >::empty());
        }
        assert(w.to_multiset() =~= s.to_multiset().insert(p));
        if !keep_entry(p) {
            Seq::filter_distributes_over_add(seq![s[0]], wr, keep_fn());
            Seq::filter_distributes_over_add(seq![s[0]], rest, keep_fn());
            assert(w.filter(keep_fn()) == seq![s[0]].filter(keep_fn()) + wr.filter(keep_fn()));
            assert(s.filter(keep_fn()) == seq![s[0]].filter(keep_fn()) + rest.filter(
                keep_fn(),
            ));
        }
    } else {
        assert(w =~= seq![p] + s);
        lemma_pair_total(s[0], p);
        assert(pair_leq(p, s[0]));
        assert forall|i: int, j: int| 0 <= i < j < w.len() implies #[trigger] leq(
            w[i],
            w[j],
        ) by {
            if i == 0 {
                assert(w[j] == s[j - 1]);
                if j == 1 {
                } else {
                    assert(leq(s[0], s[j - 1]));
                    lemma_pair_trans(p, s[0], s[j - 1]);
                }
            } else {
                assert(w[i] == s[i - 1] && w[j] == s[j - 1]);
            }
        }
        lemma_multiset_commutative(seq![p], s);
        assert(seq![p].to_multiset() =~= Multiset::<EntryBytes>::empty().insert(p)) by {
            assert(seq![p] =~= Seq::<EntryBytes>::empty().push(p));
            assert(Seq::<EntryBytes>::empty().to_multiset() =~= Multiset::<
                EntryBytes,
            >::empty());
        }
        assert(w.to_multiset() =~= s.to_multiset().insert(p));
        if !keep_entry(p) {
            Seq::filter_distributes_over_add(seq![p], s, keep_fn());
            lemma_filter_singleton(p);
            assert(w.filter(keep_fn()) =~= s.filter(keep_fn()));
        }
    }
}

/// Reserved-key invariance: inserting an entry with a reserved key
/// (`timestamp`, `content_hash`, `embedding`) anywhere into the
/// metadata leaves the content hash unchanged.
pub proof fn lemma_hash_ignores_reserved(
    content: Seq<u8>,
    md: Seq<EntryBytes>,
    i: int,
    k: Seq<u8>,
    v: Seq<u8>,
)
    requires
        reserved_key_bytes(k),
        0 <= i <= md.len(),
    ensures
        content_hash_of_bytes(content, md.insert(i, (k, v))) == content_hash_of_bytes(
            content,
            md,
        ),
{
    broadcast use vstd::seq_lib::group_to_multiset_ensures;
    broadcast use vstd::multiset::group_multiset_axioms;

    lemma_pair_total_ordering();
    let leq = pair_leq_fn();
    let p = (k, v);
    let md2 = md.insert(i, p);
    md.lemma_sort_by_ensures(leq);
    md2.lemma_sort_by_ensures(leq);
    let s1 = md.sort_by(leq);
    let s2 = md2.sort_by(leq);
    lemma_sorted_insert_props(s1, p);
    let w = sorted_insert(s1, p);
    assert(md2.to_multiset() =~= md.to_multiset().insert(p));
    assert(w.to_multiset() =~= s2.to_multiset());
    vstd::seq_lib::lemma_sorted_unique(s2, w, leq);
    assert(s2.filter(keep_fn()) == s1.filter(keep_fn()));
}

/// Two sequences with equal multisets still have equal multisets after
/// mapping a function over them.
pub proof fn lemma_map_values_multiset<A, B>(s1: Seq<A>, s2: Seq<A>, f: spec_fn(A) -> B)
    requires
        s1.to_multiset() == s2.to_multiset(),
    ensures
        s1.map_values(f).to_multiset() == s2.map_values(f).to_multiset(),
    decreases s1.len(),
{
    broadcast use vstd::seq_lib::group_to_multiset_ensures;
    broadcast use vstd::multiset::group_multiset_axioms;

    if s1.len() == 0 {
        assert(s1.to_multiset().len() == s1.len());
        assert(s2.to_multiset().len() == s2.len());
        assert(s2.len() == 0);
        assert(s1.map_values(f) =~= s2.map_values(f));
    } else {
        let x = s1.last();
        assert(s1.contains(x));
        assert(s2.to_multiset().count(x) > 0);
        assert(s2.contains(x));
        let j = choose|j: int| 0 <= j < s2.len() && s2[j] == x;
        let s1p = s1.drop_last();
        let s2p = s2.remove(j);
        assert(s1 =~= s1p.push(x));
        assert(s1.to_multiset() =~= s1p.to_multiset().insert(x));
        assert(s2p.to_multiset() =~= s2.to_multiset().remove(x));
        assert(s1p.to_multiset() =~= s2p.to_multiset()) by {
            assert(forall|y: A|
                #[trigger] s1p.to_multiset().count(y) == s1.to_multiset().remove(x).count(y));
        }
        lemma_map_values_multiset(s1p, s2p, f);
        assert(s1.map_values(f) =~= s1p.map_values(f).push(f(x)));
        assert(s1.map_values(f).to_multiset() =~= s1p.map_values(f).to_multiset().insert(f(x)));
        assert(s2p.map_values(f) =~= s2.map_values(f).remove(j));
        assert(s2.map_values(f).remove(j).to_multiset() =~= s2.map_values(f).to_multiset().remove(
            f(x),
        )) by {
            assert(s2.map_values(f)[j] == f(x));
        }
        assert(s2.map_values(f).contains(f(x))) by {
            assert(s2.map_values(f)[j] == f(x));
        }
        assert(s2.map_values(f).to_multiset().count(f(x)) > 0);
        assert(s1.map_values(f).to_multiset() =~= s2.map_values(f).to_multiset());
    }
}

/// Permutation invariance at the byte level: metadata sequences with
/// the same entries in any order hash identically.
pub proof fn lemma_hash_permutation_invariant(
    content: Seq<u8>,
    md1: Seq<EntryBytes>,
    md2: Seq<EntryBytes>,
)
    requires
        md1.to_multiset() == md2.to_multiset(),
    ensures
        content_hash_of_bytes(content, md1) == content_hash_of_bytes(content, md2),
{
    lemma_pair_total_ordering();
    let leq = pair_leq_fn();
    md1.lemma_sort_by_ensures(leq);
    md2.lemma_sort_by_ensures(leq);
    vstd::seq_lib::lemma_sorted_unique(md1.sort_by(leq), md2.sort_by(leq), leq);
}

/// Permutation invariance for string metadata: two metadata maps that
/// are permutations of each other produce the same content hash.
pub proof fn lemma_hash_chars_permutation_invariant(
    content: Seq<char>,
    md1: Seq<(Seq<char>, Seq<char>)>,
    md2: Seq<(Seq<char>, Seq<char>)>,
)
    requires
        md1.to_multiset() == md2.to_multiset(),
    ensures
        content_hash_of(content, md1) == content_hash_of(content, md2),
{
    let f = |p: (Seq<char>, Seq<char>)| (encode_utf8(p.0), encode_utf8(p.1));
    lemma_map_values_multiset(md1, md2, f);
    lemma_hash_permutation_invariant(encode_utf8(content), md_bytes_view(md1), md_bytes_view(md2));
}

} // verus!
