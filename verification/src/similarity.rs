//! Fixed-point cosine similarity over embedding vectors.
//!
//! Embeddings are vectors of fixed-point components in millionths
//! (`1_000_000` stands for `1.0`), bounded so that every intermediate
//! product provably fits its integer type. The relevance score of two
//! embeddings is their cosine similarity, also in millionths, computed
//! with an exact integer square root; it is `0` whenever either vector
//! has zero magnitude.
use vstd::prelude::*;

verus! {

/// Fixed-point scale: this many millionths stand for `1.0`.
pub const SCORE_SCALE: i64 = 1_000_000;

/// Largest magnitude allowed for one embedding component (`±1.0` in
/// millionths).
pub const COMPONENT_LIMIT: i64 = 1_000_000;

/// Largest embedding length a backend accepts.
pub const MAX_EMBEDDING_LEN: usize = 65536;

pub open spec fn valid_component(x: i64) -> bool {
    -COMPONENT_LIMIT <= x <= COMPONENT_LIMIT
}

/// A well-formed embedding: bounded length, bounded components.
pub open spec fn valid_embedding(e: Seq<i64>) -> bool {
    &&& e.len() <= MAX_EMBEDDING_LEN
    &&& forall|i: int| 0 <= i < e.len() ==> valid_component(#[trigger] e[i])
}

/// Dot product, aligned from the end; only applied to equal-length
/// vectors.
pub open spec fn dot(a: Seq<i64>, b: Seq<i64>) -> int
    decreases a.len(),
{
    if a.len() == 0 || b.len() == 0 {
        0
    } else {
        dot(a.drop_last(), b.drop_last()) + a.last() * b.last()
    }
}

/// Squared magnitude.
pub open spec fn norm_sq(a: Seq<i64>) -> int {
    dot(a, a)
}

pub proof fn lemma_norm_sq_nonneg(a: Seq<i64>)
    ensures
        norm_sq(a) >= 0,
    decreases a.len(),
{
    if a.len() > 0 {
        lemma_norm_sq_nonneg(a.drop_last());
        let x = a.last();
        assert(x * x >= 0) by (nonlinear_arith);
    }
}

/// The dot product of valid embeddings is bounded by the length times
/// the squared component limit.
pub proof fn lemma_dot_bound(a: Seq<i64>, b: Seq<i64>)
    requires
        a.len() == b.len(),
        valid_embedding(a),
        valid_embedding(b),
    ensures
        -(a.len() as int) * (COMPONENT_LIMIT as int) * (COMPONENT_LIMIT as int) <= dot(a, b) <= (
        a.len() as int) * (COMPONENT_LIMIT as int) * (COMPONENT_LIMIT as int),
    decreases a.len(),
{
    let l = COMPONENT_LIMIT as int;
    if a.len() == 0 {
    } else {
        let ap = a.drop_last();
        let bp = b.drop_last();
        assert(valid_embedding(ap) && valid_embedding(bp)) by {
            assert(forall|i: int| 0 <= i < ap.len() ==> ap[i] == a[i] && bp[i] == b[i]);
        }
        lemma_dot_bound(ap, bp);
        let x = a.last() as int;
        let y = b.last() as int;
        assert(-l <= x <= l && -l <= y <= l);
        assert(-(l * l) <= x * y <= l * l) by (nonlinear_arith)
            requires
                -l <= x <= l,
                -l <= y <= l,
                l > 0,
        ;
        assert((a.len() as int) * l * l == (ap.len() as int) * l * l + l * l) by (nonlinear_arith)
            requires
                a.len() == ap.len() + 1,
        ;
    }
}

/// Cauchy-Schwarz: the squared dot product never exceeds the product of
/// the squared magnitudes.
pub proof fn lemma_cauchy_schwarz(a: Seq<i64>, b: Seq<i64>)
    requires
        a.len() == b.len(),
    ensures
        dot(a, b) * dot(a, b) <= norm_sq(a) * norm_sq(b),
    decreases a.len(),
{
    if a.len() == 0 {
    } else {
        let ap = a.drop_last();
        let bp = b.drop_last();
        lemma_cauchy_schwarz(ap, bp);
        lemma_norm_sq_nonneg(ap);
        lemma_norm_sq_nonneg(bp);
        let d = dot(ap, bp);
        let na = norm_sq(ap);
        let nb = norm_sq(bp);
        let x = a.last() as int;
        let y = b.last() as int;
        assert(dot(a, b) == d + x * y);
        assert(norm_sq(a) == na + x * x) by {
            assert(dot(a, a) == dot(ap, ap) + x * x);
        }
        assert(norm_sq(b) == nb + y * y) by {
            assert(dot(b, b) == dot(bp, bp) + y * y);
        }
        // (2dxy)^2 <= 4 na nb (xy)^2 <= (na y^2 + x^2 nb)^2, and the
        // right side is nonnegative, so 2dxy <= na y^2 + x^2 nb
        let u = na * (y * y) + (x * x) * nb;
        let v = 2 * (d * (x * y));
        assert(v * v <= 4 * ((na * nb) * ((x * y) * (x * y)))) by (nonlinear_arith)
            requires
                d * d <= na * nb,
                v == 2 * (d * (x * y)),
        ;
        assert(4 * ((na * nb) * ((x * y) * (x * y))) <= u * u) by (nonlinear_arith)
            requires
                na >= 0,
                nb >= 0,
                u == na * (y * y) + (x * x) * nb,
        {
            assert((na * (y * y) - (x * x) * nb) * (na * (y * y) - (x * x) * nb) >= 0);
        }
        assert(u >= 0) by (nonlinear_arith)
            requires
                na >= 0,
                nb >= 0,
                u == na * (y * y) + (x * x) * nb,
        ;
        assert(v <= u) by (nonlinear_arith)
            requires
                v * v <= u * u,
                u >= 0,
        ;
        assert((d + x * y) * (d + x * y) == d * d + v + (x * y) * (x * y)) by (nonlinear_arith)
            requires
                v == 2 * (d * (x * y)),
        ;
        assert((na + x * x) * (nb + y * y) == na * nb + u + (x * y) * (x * y))
            by (nonlinear_arith)
            requires
                u == na * (y * y) + (x * x) * nb,
        ;
        assert((d + x * y) * (d + x * y) <= (na + x * x) * (nb + y * y));
    }
}

/// Floor of the square root, as a recursive specification.
pub open spec fn isqrt_spec(n: nat) -> nat
    decreases n,
{
    if n == 0 {
        0
    } else {
        let r = isqrt_spec((n - 1) as nat);
        if (r + 1) * (r + 1) <= n {
            r + 1
        } else {
            r
        }
    }
}

pub proof fn lemma_isqrt_spec(n: nat)
    ensures
        isqrt_spec(n) * isqrt_spec(n) <= n,
        n < (isqrt_spec(n) + 1) * (isqrt_spec(n) + 1),
    decreases n,
{
    if n == 0 {
        assert(isqrt_spec(0) == 0);
        assert(n < (isqrt_spec(n) + 1) * (isqrt_spec(n) + 1)) by (nonlinear_arith)
            requires
                n == 0,
                isqrt_spec(n) == 0,
        ;
    } else {
        lemma_isqrt_spec((n - 1) as nat);
        let r = isqrt_spec((n - 1) as nat);
        if (r + 1) * (r + 1) <= n {
            assert(isqrt_spec(n) == r + 1);
            assert((r + 2) * (r + 2) > n) by (nonlinear_arith)
                requires
                    (n as int) - 1 < ((r + 1) * (r + 1)) as int,
            ;
        } else {
            assert(isqrt_spec(n) == r);
            assert(r * r <= n - 1 <= n);
        }
    }
}

/// Exact integer square root of a 64-bit value.
pub fn isqrt64(n: u64) -> (r: u64)
    ensures
        r == isqrt_spec(n as nat),
        r * r <= n,
        r <= 4294967295u64,
{
    let mut lo: u64 = 0;
    let mut hi: u64 = 4294967296;
    proof {
        assert((4294967296 as int) * (4294967296 as int) > n as int) by (nonlinear_arith)
            requires
                n <= 0xffff_ffff_ffff_ffffu64,
        ;
    }
    while lo + 1 < hi
        invariant
            lo < hi <= 4294967296,
            (lo as int) * (lo as int) <= n as int,
            (hi as int) * (hi as int) > n as int,
        decreases hi - lo,
    {
        let mid = lo + (hi - lo) / 2;
        proof {
            assert((mid as u128) * (mid as u128) < 0xffff_ffff_ffff_ffff_ffff_ffff_ffff_ffffu128)
                by (nonlinear_arith)
                requires
                    mid <= 4294967296u64,
            ;
        }
        if (mid as u128) * (mid as u128) <= n as u128 {
            proof {
                assert((mid as int) * (mid as int) <= n as int);
            }
            lo = mid;
        } else {
            proof {
                assert((mid as int) * (mid as int) > n as int);
            }
            hi = mid;
        }
    }
    proof {
        assert(lo + 1 == hi);
        lemma_isqrt_spec(n as nat);
        let s = isqrt_spec(n as nat) as int;
        // two integers whose squares bracket n the same way are equal
        assert(lo as int == s) by (nonlinear_arith)
            requires
                (lo as int) * (lo as int) <= n as int,
                (lo as int + 1) * (lo as int + 1) > n as int,
                s * s <= n as int,
                (s + 1) * (s + 1) > n as int,
                lo as int >= 0,
                s >= 0,
        ;
    }
    lo
}

/// The relevance score of two embeddings: their cosine similarity in
/// millionths, `0` when either magnitude is zero. Magnitudes use the
/// exact integer square root, and the quotient truncates toward zero.
pub open spec fn similarity(a: Seq<i64>, b: Seq<i64>) -> int {
    let d = dot(a, b);
    let na = norm_sq(a);
    let nb = norm_sq(b);
    if na == 0 || nb == 0 {
        0
    } else {
        let den = isqrt_spec(na as nat) * isqrt_spec(nb as nat);
        let q = (if d >= 0 {
            d
        } else {
            -d
        }) * (SCORE_SCALE as int) / (den as int);
        if d >= 0 {
            q
        } else {
            -q
        }
    }
}

/// Any similarity score is below four times the scale in magnitude.
pub proof fn lemma_similarity_bound(a: Seq<i64>, b: Seq<i64>)
    requires
        a.len() == b.len(),
    ensures
        -4 * (SCORE_SCALE as int) <= similarity(a, b) <= 4 * (SCORE_SCALE as int),
{
    let d = dot(a, b);
    let na = norm_sq(a);
    let nb = norm_sq(b);
    lemma_norm_sq_nonneg(a);
    lemma_norm_sq_nonneg(b);
    if na == 0 || nb == 0 {
    } else {
        let i1 = isqrt_spec(na as nat) as int;
        let i2 = isqrt_spec(nb as nat) as int;
        lemma_isqrt_spec(na as nat);
        lemma_isqrt_spec(nb as nat);
        lemma_cauchy_schwarz(a, b);
        let m = if d >= 0 {
            d
        } else {
            -d
        };
        assert(m * m <= na * nb) by (nonlinear_arith)
            requires
                d * d <= na * nb,
                m == d || m == -d,
        ;
        assert(i1 >= 1 && i2 >= 1) by (nonlinear_arith)
            requires
                na >= 1,
                nb >= 1,
                i1 >= 0,
                i2 >= 0,
                na < (i1 + 1) * (i1 + 1),
                nb < (i2 + 1) * (i2 + 1),
        ;
        assert(m < 4 * (i1 * i2)) by (nonlinear_arith)
            requires
                m >= 0,
                m * m <= na * nb,
                i1 >= 1,
                i2 >= 1,
                na < (i1 + 1) * (i1 + 1),
                nb < (i2 + 1) * (i2 + 1),
                na >= 1,
                nb >= 1,
        {
            assert((i1 + 1) * (i1 + 1) <= 4 * (i1 * i1));
            assert((i2 + 1) * (i2 + 1) <= 4 * (i2 * i2));
            assert(na * nb < (4 * (i1 * i1)) * (4 * (i2 * i2)));
            assert(m * m < (4 * (i1 * i2)) * (4 * (i1 * i2)));
        }
        let s = SCORE_SCALE as int;
        let q = m * s / (i1 * i2);
        assert(0 <= q <= 4 * s) by (nonlinear_arith)
            requires
                m >= 0,
                s == 1_000_000,
                i1 * i2 >= 1,
                m < 4 * (i1 * i2),
                q == m * s / (i1 * i2),
        {
            assert(m * s <= (4 * (i1 * i2)) * s);
        }
    }
}

/// Executable dot product of two valid embeddings.
pub fn dot_product(a: &Vec<i64>, b: &Vec<i64>) -> (r: i64)
    requires
        a@.len() == b@.len(),
        valid_embedding(a@),
        valid_embedding(b@),
    ensures
        r as int == dot(a@, b@),
{
    let ghost l = COMPONENT_LIMIT as int;
    let mut acc: i64 = 0;
    let mut i: usize = 0;
    proof {
        assert(dot(a@.take(0), b@.take(0)) == 0);
    }
    while i < a.len()
        invariant
            i <= a.len(),
            a@.len() == b@.len(),
            valid_embedding(a@),
            valid_embedding(b@),
            l == COMPONENT_LIMIT as int,
            acc as int == dot(a@.take(i as int), b@.take(i as int)),
            -(i as int) * l * l <= acc as int <= (i as int) * l * l,
        decreases a.len() - i,
    {
        let x = a[i];
        let y = b[i];
        proof {
            assert(valid_component(a@[i as int]) && valid_component(b@[i as int]));
            assert(-(l * l) <= (x as int) * (y as int) <= l * l) by (nonlinear_arith)
                requires
                    -l <= x as int <= l,
                    -l <= y as int <= l,
                    l > 0,
            ;
            assert((i as int) * l * l + l * l == (i as int + 1) * l * l) by (nonlinear_arith);
            assert((i as int + 1) * l * l <= (MAX_EMBEDDING_LEN as int) * l * l)
                by (nonlinear_arith)
                requires
                    i as int + 1 <= MAX_EMBEDDING_LEN as int,
                    l == 1_000_000,
            ;
            let ta = a@.take(i + 1 as int);
            let tb = b@.take(i + 1 as int);
            assert(ta.drop_last() =~= a@.take(i as int));
            assert(tb.drop_last() =~= b@.take(i as int));
            assert(ta.last() == a@[i as int] && tb.last() == b@[i as int]);
        }
        acc = acc + x * y;
        i = i + 1;
    }
    proof {
        assert(a@.take(a@.len() as int) =~= a@);
        assert(b@.take(b@.len() as int) =~= b@);
    }
    acc
}

/// Executable cosine similarity in millionths.
pub fn cosine_similarity(a: &Vec<i64>, b: &Vec<i64>) -> (r: i64)
    requires
        a@.len() == b@.len(),
        valid_embedding(a@),
        valid_embedding(b@),
    ensures
        r as int == similarity(a@, b@),
{
    let d = dot_product(a, b);
    let na = dot_product(a, a);
    let nb = dot_product(b, b);
    proof {
        lemma_norm_sq_nonneg(a@);
        lemma_norm_sq_nonneg(b@);
        lemma_dot_bound(a@, b@);
        assert((a@.len() as int) * (COMPONENT_LIMIT as int) * (COMPONENT_LIMIT as int)
            <= 65536000000000000) by (nonlinear_arith)
            requires
                0 <= a@.len() <= 65536,
        ;
    }
    if na == 0 || nb == 0 {
        return 0;
    }
    let i1 = isqrt64(na as u64);
    let i2 = isqrt64(nb as u64);
    proof {
        lemma_isqrt_spec(na as nat);
        lemma_isqrt_spec(nb as nat);
        assert(i1 as int >= 1 && i2 as int >= 1) by (nonlinear_arith)
            requires
                na as int >= 1,
                nb as int >= 1,
                i1 as int >= 0,
                i2 as int >= 0,
                (na as int) < ((i1 as int + 1) * (i1 as int + 1)),
                (nb as int) < ((i2 as int + 1) * (i2 as int + 1)),
        ;
        assert((i1 as int) * (i2 as int) <= 4294967295i64 as int * 4294967295i64 as int)
            by (nonlinear_arith)
            requires
                0 <= i1 as int <= 4294967295i64 as int,
                0 <= i2 as int <= 4294967295i64 as int,
        ;
    }
    let m: i64 = if d >= 0 {
        d
    } else {
        -d
    };
    let den: i128 = (i1 as i128) * (i2 as i128);
    proof {
        assert(den >= 1) by (nonlinear_arith)
            requires
                den == (i1 as int) * (i2 as int),
                i1 as int >= 1,
                i2 as int >= 1,
        ;
    }
    let num: i128 = (m as i128) * (SCORE_SCALE as i128);
    let q: i128 = num / den;
    proof {
        lemma_similarity_bound(a@, b@);
        assert(q == (m as int) * (SCORE_SCALE as int) / ((i1 as int) * (i2 as int)));
        assert(0 <= q <= 4 * (SCORE_SCALE as int)) by {
            if d >= 0 {
                assert(similarity(a@, b@) == q);
            } else {
                assert(similarity(a@, b@) == -q);
            }
        }
    }
    if d >= 0 {
        q as i64
    } else {
        -(q as i64)
    }
}

} // verus!
