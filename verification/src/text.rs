//! Byte-level text primitives: ASCII whitespace trimming, ASCII case
//! folding, byte-sequence equality and lexicographic ordering.
//!
//! Content identity is computed over raw UTF-8 bytes with byte-wise,
//! locale-independent folding, so everything here works on `Vec<u8>` /
//! `Seq<u8>`.
use vstd::prelude::*;

verus! {

/// True for the ASCII whitespace bytes that content normalization strips
/// from both ends of a memory's text.
pub open spec fn is_ws_byte(b: u8) -> bool {
    b == 32 || b == 9 || b == 10 || b == 13
}

/// Byte-wise ASCII case folding: `A`..`Z` map to `a`..`z`, all other
/// bytes are unchanged.
pub open spec fn lower_byte(b: u8) -> u8 {
    if 65 <= b <= 90 {
        (b + 32) as u8
    } else {
        b
    }
}

/// Lower-cases every byte of `s`, ASCII-wise.
pub open spec fn lower_bytes(s: Seq<u8>) -> Seq<u8> {
    s.map_values(|b: u8| lower_byte(b))
}

/// Drops leading ASCII whitespace.
pub open spec fn trim_front(s: Seq<u8>) -> Seq<u8>
    decreases s.len(),
{
    if s.len() > 0 && is_ws_byte(s[0]) {
        trim_front(s.drop_first())
    } else {
        s
    }
}

/// Drops trailing ASCII whitespace.
pub open spec fn trim_back(s: Seq<u8>) -> Seq<u8>
    decreases s.len(),
{
    if s.len() > 0 && is_ws_byte(s.last()) {
        trim_back(s.drop_last())
    } else {
        s
    }
}

/// Drops ASCII whitespace from both ends.
pub open spec fn trim_bytes(s: Seq<u8>) -> Seq<u8> {
    trim_back(trim_front(s))
}

/// Normalized form of a memory's content bytes: surrounding whitespace
/// stripped, then ASCII case folded.
pub open spec fn normalize_bytes(s: Seq<u8>) -> Seq<u8> {
    lower_bytes(trim_bytes(s))
}

pub fn is_ws(b: u8) -> (r: bool)
    ensures
        r == is_ws_byte(b),
{
    b == 32 || b == 9 || b == 10 || b == 13
}

/// Executable ASCII lower-casing over raw bytes.
pub fn ascii_lower(s: &Vec<u8>) -> (r: Vec<u8>)
    ensures
        r@ == lower_bytes(s@),
{
    let mut out: Vec<u8> = Vec::new();
    let mut i: usize = 0;
    while i < s.len()
        invariant
            i <= s.len(),
            out@ == lower_bytes(s@.take(i as int)),
        decreases s.len() - i,
    {
        let b = s[i];
        let folded: u8 = if 65 <= b && b <= 90 {
            b + 32
        } else {
            b
        };
        out.push(folded);
        proof {
            assert(s@.take(i + 1 as int).map_values(|x: u8| lower_byte(x)) =~= s@.take(
                i as int,
            ).map_values(|x: u8| lower_byte(x)).push(lower_byte(s@[i as int])));
        }
        i = i + 1;
    }
    proof {
        assert(s@.take(s@.len() as int) =~= s@);
    }
    out
}

/// If the first `i` bytes are whitespace and byte `i` (when present) is
/// not, then trimming the front drops exactly those `i` bytes.
pub proof fn lemma_trim_front_skip(s: Seq<u8>, i: int)
    requires
        0 <= i <= s.len(),
        forall|j: int| 0 <= j < i ==> is_ws_byte(s[j]),
        i == s.len() || !is_ws_byte(s[i]),
    ensures
        trim_front(s) == s.skip(i),
    decreases i,
{
    if i == 0 {
        assert(s.skip(0) =~= s);
    } else {
        assert(is_ws_byte(s[0]));
        let t = s.drop_first();
        assert(t =~= s.skip(1));
        lemma_trim_front_skip(t, i - 1);
        assert(t.skip(i - 1) =~= s.skip(i));
    }
}

/// If the bytes from `e` on are whitespace and byte `e - 1` (when
/// present) is not, then trimming the back keeps exactly the first `e`
/// bytes.
pub proof fn lemma_trim_back_take(s: Seq<u8>, e: int)
    requires
        0 <= e <= s.len(),
        forall|j: int| e <= j < s.len() ==> is_ws_byte(s[j]),
        e == 0 || !is_ws_byte(s[e - 1]),
    ensures
        trim_back(s) == s.take(e),
    decreases s.len() - e,
{
    if e == s.len() {
        assert(s.take(e) =~= s);
    } else {
        assert(is_ws_byte(s.last()));
        let t = s.drop_last();
        assert(t =~= s.take(s.len() - 1));
        lemma_trim_back_take(t, e);
        assert(t.take(e) =~= s.take(e));
    }
}

/// Executable trim of surrounding ASCII whitespace.
pub fn trim_ascii(s: &Vec<u8>) -> (r: Vec<u8>)
    ensures
        r@ == trim_bytes(s@),
{
    let mut start: usize = 0;
    while start < s.len() && is_ws(s[start])
        invariant
            start <= s.len(),
            forall|j: int| 0 <= j < start ==> is_ws_byte(s@[j]),
        decreases s.len() - start,
    {
        start = start + 1;
    }
    let mut end: usize = s.len();
    while end > start && is_ws(s[end - 1])
        invariant
            start <= end <= s.len(),
            forall|j: int| end <= j < s.len() ==> is_ws_byte(s@[j]),
        decreases end,
    {
        end = end - 1;
    }
    let mut out: Vec<u8> = Vec::new();
    let mut k: usize = start;
    while k < end
        invariant
            start <= k <= end <= s.len(),
            out@ == s@.subrange(start as int, k as int),
        decreases end - k,
    {
        out.push(s[k]);
        proof {
            assert(s@.subrange(start as int, k + 1 as int) =~= s@.subrange(
                start as int,
                k as int,
            ).push(s@[k as int]));
        }
        k = k + 1;
    }
    proof {
        lemma_trim_front_skip(s@, start as int);
        let t = s@.skip(start as int);
        lemma_trim_back_take(t, end - start as int);
        assert(trim_bytes(s@) == t.take(end - start as int));
        assert(t.take(end - start as int) =~= s@.subrange(start as int, end as int));
    }
    out
}

pub proof fn lemma_trim_front_no_lead(s: Seq<u8>)
    ensures
        trim_front(s).len() == 0 || !is_ws_byte(trim_front(s)[0]),
    decreases s.len(),
{
    if s.len() > 0 && is_ws_byte(s[0]) {
        lemma_trim_front_no_lead(s.drop_first());
    }
}

pub proof fn lemma_trim_back_no_trail(s: Seq<u8>)
    ensures
        trim_back(s).len() == 0 || !is_ws_byte(trim_back(s).last()),
    decreases s.len(),
{
    if s.len() > 0 && is_ws_byte(s.last()) {
        lemma_trim_back_no_trail(s.drop_last());
    }
}

/// Trimming the back never changes the first element.
pub proof fn lemma_trim_back_first(s: Seq<u8>)
    ensures
        trim_back(s).len() == 0 || trim_back(s)[0] == s[0],
    decreases s.len(),
{
    if s.len() > 0 && is_ws_byte(s.last()) {
        lemma_trim_back_first(s.drop_last());
    }
}

/// A fully trimmed byte sequence has no whitespace at either end.
pub proof fn lemma_trim_no_edges(s: Seq<u8>)
    ensures
        trim_bytes(s).len() == 0 || (!is_ws_byte(trim_bytes(s)[0]) && !is_ws_byte(
            trim_bytes(s).last(),
        )),
{
    let f = trim_front(s);
    lemma_trim_front_no_lead(s);
    lemma_trim_back_no_trail(f);
    lemma_trim_back_first(f);
}

/// Trimming a sequence without edge whitespace changes nothing.
pub proof fn lemma_trim_of_untrimmed(s: Seq<u8>)
    requires
        s.len() == 0 || (!is_ws_byte(s[0]) && !is_ws_byte(s.last())),
    ensures
        trim_bytes(s) == s,
{
    assert(trim_front(s) == s);
    assert(trim_back(s) == s);
}

/// Normalization is idempotent: folding the case does not create or
/// destroy edge whitespace, and folding twice equals folding once.
pub proof fn lemma_normalize_idempotent(s: Seq<u8>)
    ensures
        normalize_bytes(normalize_bytes(s)) == normalize_bytes(s),
{
    let t = trim_bytes(s);
    let n = lower_bytes(t);
    lemma_trim_no_edges(s);
    if t.len() > 0 {
        assert(n[0] == lower_byte(t[0]));
        assert(n.last() == lower_byte(t.last()));
        assert(!is_ws_byte(n[0]));
        assert(!is_ws_byte(n.last()));
    }
    lemma_trim_of_untrimmed(n);
    assert(lower_bytes(n) =~= n) by {
        assert forall|i: int| 0 <= i < n.len() implies lower_bytes(n)[i] == n[i] by {
            assert(n[i] == lower_byte(t[i]));
            assert(lower_bytes(n)[i] == lower_byte(lower_byte(t[i])));
        }
    }
}

/// Executable equality of byte vectors.
pub fn bytes_eq(a: &Vec<u8>, b: &Vec<u8>) -> (r: bool)
    ensures
        r == (a@ == b@),
{
    if a.len() != b.len() {
        proof {
            assert(a@ != b@);
        }
        return false;
    }
    let mut i: usize = 0;
    while i < a.len()
        invariant
            i <= a.len(),
            a@.len() == b@.len(),
            forall|j: int| 0 <= j < i ==> a@[j] == b@[j],
        decreases a.len() - i,
    {
        if a[i] != b[i] {
            proof {
                assert(a@ != b@);
            }
            return false;
        }
        i = i + 1;
    }
    proof {
        assert(a@ =~= b@);
    }
    true
}

/// Lexicographic (shortlex on ties) "less than or equal" over byte
/// sequences: the fixed total order used by canonical serialization.
pub open spec fn lex_leq(a: Seq<u8>, b: Seq<u8>) -> bool
    decreases a.len(),
{
    if a.len() == 0 {
        true
    } else if b.len() == 0 {
        false
    } else if a[0] < b[0] {
        true
    } else if b[0] < a[0] {
        false
    } else {
        lex_leq(a.drop_first(), b.drop_first())
    }
}

pub proof fn lemma_lex_refl(a: Seq<u8>)
    ensures
        lex_leq(a, a),
    decreases a.len(),
{
    if a.len() > 0 {
        lemma_lex_refl(a.drop_first());
    }
}

pub proof fn lemma_lex_antisym(a: Seq<u8>, b: Seq<u8>)
    requires
        lex_leq(a, b),
        lex_leq(b, a),
    ensures
        a == b,
    decreases a.len(),
{
    if a.len() == 0 {
        assert(b.len() == 0) by {
            if b.len() > 0 {
                assert(!lex_leq(b, a));
            }
        }
        assert(a =~= b);
    } else {
        assert(b.len() > 0);
        assert(a[0] == b[0]);
        lemma_lex_antisym(a.drop_first(), b.drop_first());
        assert(a =~= b) by {
            assert(a.drop_first() =~= b.drop_first());
            assert(forall|i: int|
                1 <= i < a.len() ==> a[i] == a.drop_first()[i - 1] && b[i] == b.drop_first()[i
                    - 1]);
        }
    }
}

pub proof fn lemma_lex_trans(a: Seq<u8>, b: Seq<u8>, c: Seq<u8>)
    requires
        lex_leq(a, b),
        lex_leq(b, c),
    ensures
        lex_leq(a, c),
    decreases a.len(),
{
    if a.len() == 0 {
    } else {
        assert(b.len() > 0);
        assert(c.len() > 0);
        if a[0] == c[0] {
            assert(a[0] == b[0] && b[0] == c[0]);
            lemma_lex_trans(a.drop_first(), b.drop_first(), c.drop_first());
        }
    }
}

pub proof fn lemma_lex_total(a: Seq<u8>, b: Seq<u8>)
    ensures
        lex_leq(a, b) || lex_leq(b, a),
    decreases a.len(),
{
    if a.len() > 0 && b.len() > 0 && a[0] == b[0] {
        lemma_lex_total(a.drop_first(), b.drop_first());
    }
}

/// Executable lexicographic comparison.
pub fn lex_le(a: &Vec<u8>, b: &Vec<u8>) -> (r: bool)
    ensures
        r == lex_leq(a@, b@),
{
    let mut i: usize = 0;
    proof {
        assert(a@.skip(0) =~= a@);
        assert(b@.skip(0) =~= b@);
    }
    loop
        invariant
            i <= a.len(),
            i <= b.len(),
            forall|j: int| 0 <= j < i ==> a@[j] == b@[j],
            lex_leq(a@, b@) == lex_leq(a@.skip(i as int), b@.skip(i as int)),
        decreases a.len() - i,
    {
        if i == a.len() {
            proof {
                assert(a@.skip(i as int).len() == 0);
            }
            return true;
        }
        if i == b.len() {
            proof {
                assert(b@.skip(i as int).len() == 0);
                assert(a@.skip(i as int).len() > 0);
            }
            return false;
        }
        let x = a[i];
        let y = b[i];
        if x < y {
            proof {
                assert(a@.skip(i as int)[0] == x && b@.skip(i as int)[0] == y);
            }
            return true;
        }
        if y < x {
            proof {
                assert(a@.skip(i as int)[0] == x && b@.skip(i as int)[0] == y);
            }
            return false;
        }
        proof {
            let sa = a@.skip(i as int);
            let sb = b@.skip(i as int);
            assert(sa[0] == x && sb[0] == y);
            assert(sa.len() > 0 && sb.len() > 0);
            assert(lex_leq(sa, sb) == lex_leq(sa.drop_first(), sb.drop_first()));
            assert(sa.drop_first() =~= a@.skip(i + 1 as int));
            assert(sb.drop_first() =~= b@.skip(i + 1 as int));
        }
        i = i + 1;
    }
}

} // verus!
