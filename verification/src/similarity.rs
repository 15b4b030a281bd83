//! Cosine similarity over fixed-point vectors.
//!
//! A vector is a sequence of `i32` components counted in billionths
//! ([`COMPONENT_ONE`] stands for 1.0). A score is an integer in
//! `[-SCORE_ONE, SCORE_ONE]` counted in millionths. The norm of a short
//! vector is taken with 31 binary places, so that also vectors of a few
//! units are scored to the last millionth; the quotient is cut off at one.

use vstd::prelude::*;
use vstd::arithmetic::div_mod::lemma_fundamental_div_mod_converse;
use crate::errors::{ErrorView, MemoryError};

verus! {

/// The component value that stands for 1.0.
pub const COMPONENT_ONE: i32 = 1_000_000_000;

/// The score that stands for a similarity of 1.0.
pub const SCORE_ONE: i32 = 1_000_000;

/// The inner product of two vectors of equal length.
pub open spec fn dot(a: Seq<i32>, b: Seq<i32>) -> int
    recommends
        a.len() == b.len(),
    decreases a.len(),
{
    if a.len() == 0 || b.len() == 0 {
        0
    } else {
        dot(a.drop_last(), b.drop_last()) + a.last() * b.last()
    }
}

/// The squared Euclidean length of a vector.
pub open spec fn norm_sq(a: Seq<i32>) -> int {
    dot(a, a)
}

/// `r` is the square root of `n`, rounded down.
pub open spec fn is_floor_sqrt(n: int, r: int) -> bool {
    0 <= r && r * r <= n && n < (r + 1) * (r + 1)
}

/// The square root of `n`, rounded down (0 for a negative `n`, which has none).
pub open spec fn floor_sqrt(n: int) -> int {
    if n < 0 {
        0
    } else {
        choose|r: int| is_floor_sqrt(n, r)
    }
}

/// Below this, a squared length is rooted with 31 binary places.
pub const FINE_BELOW: u128 = 0x1_0000_0000_0000_0000;

/// What a squared length is multiplied by before it is rooted with 31
/// binary places: `2^62`.
pub const FINE_SQUARE: u128 = 0x4000_0000_0000_0000;

/// What a fine root counts in: `2^31` to one.
pub const FINE_UNIT: u128 = 0x8000_0000;

/// How many units a root of the squared length `n` has to one: `2^31` for
/// a short vector, 1 for a long one.
pub open spec fn root_unit(n: int) -> int {
    if n < FINE_BELOW {
        FINE_UNIT as int
    } else {
        1
    }
}

/// The square root of `n` in `root_unit(n)` to one, rounded down.
pub open spec fn fine_root(n: int) -> int {
    if n < FINE_BELOW {
        floor_sqrt(n * FINE_SQUARE)
    } else {
        floor_sqrt(n)
    }
}

/// The Euclidean length of a vector, in `root_unit` of its squared length
/// to one component unit.
pub open spec fn norm(a: Seq<i32>) -> int {
    fine_root(norm_sq(a))
}

/// The quotient `|d| * SCORE_ONE / den`, cut off at `SCORE_ONE`, with the sign
/// of `d`.
pub open spec fn scaled_ratio(d: int, den: int) -> int
    recommends
        den > 0,
{
    if d >= 0 {
        let q = d * SCORE_ONE / den;
        if q > SCORE_ONE { SCORE_ONE as int } else { q }
    } else {
        let q = (-d) * SCORE_ONE / den;
        if q > SCORE_ONE { -(SCORE_ONE as int) } else { -q }
    }
}

/// The cosine similarity of two vectors of equal length, in millionths:
/// `dot(a, b) / (norm(a) * norm(b))`, inner product and norms in the same
/// units, and 0 where either vector has no length.
pub open spec fn cosine(a: Seq<i32>, b: Seq<i32>) -> int
    recommends
        a.len() == b.len(),
{
    if norm_sq(a) <= 0 || norm_sq(b) <= 0 {
        0
    } else {
        scaled_ratio(
            dot(a, b) * (root_unit(norm_sq(a)) * root_unit(norm_sq(b))),
            norm(a) * norm(b),
        )
    }
}

/// At most one number is the rounded-down square root of `n`.
pub proof fn lemma_floor_sqrt_unique(n: int, r1: int, r2: int)
    requires
        is_floor_sqrt(n, r1),
        is_floor_sqrt(n, r2),
    ensures
        r1 == r2,
{
    if r1 < r2 {
        assert((r1 + 1) * (r1 + 1) <= r2 * r2) by (nonlinear_arith)
            requires
                0 <= r1,
                r1 + 1 <= r2,
        ;
    } else if r2 < r1 {
        assert((r2 + 1) * (r2 + 1) <= r1 * r1) by (nonlinear_arith)
            requires
                0 <= r2,
                r2 + 1 <= r1,
        ;
    }
}

/// Every natural number has a rounded-down square root.
pub proof fn lemma_floor_sqrt_exists(n: int)
    requires
        n >= 0,
    ensures
        is_floor_sqrt(n, floor_sqrt(n)),
    decreases n,
{
    if n == 0 {
        assert(is_floor_sqrt(0, 0));
    } else {
        lemma_floor_sqrt_exists(n - 1);
        let r = floor_sqrt(n - 1);
        if n < (r + 1) * (r + 1) {
            assert(is_floor_sqrt(n, r));
        } else {
            assert(n == (r + 1) * (r + 1));
            assert((r + 1) * (r + 1) < (r + 2) * (r + 2)) by (nonlinear_arith)
                requires
                    0 <= r,
            ;
            assert(is_floor_sqrt(n, r + 1));
        }
    }
}

/// A number that satisfies the definition is the rounded-down square root.
pub proof fn lemma_floor_sqrt_is(n: int, r: int)
    requires
        is_floor_sqrt(n, r),
    ensures
        floor_sqrt(n) == r,
{
    assert(n >= 0) by (nonlinear_arith)
        requires
            r * r <= n,
    ;
    lemma_floor_sqrt_exists(n);
    lemma_floor_sqrt_unique(n, r, floor_sqrt(n));
}

/// The square root, rounded down, of a 128-bit number.
pub fn integer_sqrt(n: u128) -> (r: u64)
    ensures
        r as int == floor_sqrt(n as int),
{
    let mut lo: u128 = 0;
    let mut hi: u128 = 0x1_0000_0000_0000_0000;
    assert(n < hi * hi) by (nonlinear_arith)
        requires
            hi == 0x1_0000_0000_0000_0000,
            n <= u128::MAX,
    ;
    while hi - lo > 1
        invariant
            lo < hi <= 0x1_0000_0000_0000_0000,
            lo * lo <= n,
            n < hi * hi,
        decreases hi - lo,
    {
        let mid: u128 = lo + (hi - lo) / 2;
        assert(mid * mid <= u128::MAX) by (nonlinear_arith)
            requires
                0 <= mid <= 0xffff_ffff_ffff_ffff,
        ;
        if mid * mid <= n {
            lo = mid;
        } else {
            hi = mid;
        }
    }
    proof {
        assert(hi == lo + 1);
        lemma_floor_sqrt_is(n as int, lo as int);
    }
    lo as u64
}

/// The inner product is bounded by the length of the vectors.
pub proof fn lemma_dot_bounds(a: Seq<i32>, b: Seq<i32>)
    requires
        a.len() == b.len(),
    ensures
        -(a.len() * 0x4000_0000_0000_0000) <= dot(a, b) <= a.len() * 0x4000_0000_0000_0000,
    decreases a.len(),
{
    if a.len() > 0 {
        lemma_dot_bounds(a.drop_last(), b.drop_last());
        let x = a.last() as int;
        let y = b.last() as int;
        assert(-0x4000_0000_0000_0000 <= x * y <= 0x4000_0000_0000_0000) by (nonlinear_arith)
            requires
                -0x8000_0000 <= x <= 0x7fff_ffff,
                -0x8000_0000 <= y <= 0x7fff_ffff,
        ;
    }
}

/// A squared length is never negative.
pub proof fn lemma_norm_sq_nonnegative(a: Seq<i32>)
    ensures
        0 <= norm_sq(a),
    decreases a.len(),
{
    if a.len() > 0 {
        lemma_norm_sq_nonnegative(a.drop_last());
        let x = a.last() as int;
        assert(0 <= x * x) by (nonlinear_arith);
    }
}

/// The root of a squared length that is not zero is not zero, and its
/// square is at most the squared length in the root's units.
pub proof fn lemma_fine_root(n: int)
    requires
        n >= 1,
    ensures
        fine_root(n) >= 1,
        fine_root(n) * fine_root(n) <= n * (root_unit(n) * root_unit(n)),
{
    let r = fine_root(n);
    if n < FINE_BELOW {
        assert(n * FINE_SQUARE >= 1) by (nonlinear_arith)
            requires
                n >= 1,
                FINE_SQUARE == 0x4000_0000_0000_0000,
        ;
        lemma_floor_sqrt_exists(n * FINE_SQUARE);
        assert(FINE_UNIT * FINE_UNIT == FINE_SQUARE) by (nonlinear_arith)
            requires
                FINE_UNIT == 0x8000_0000,
                FINE_SQUARE == 0x4000_0000_0000_0000,
        ;
        if r < 1 {
            assert((r + 1) * (r + 1) <= 1) by (nonlinear_arith)
                requires
                    0 <= r < 1,
            ;
        }
    } else {
        lemma_floor_sqrt_exists(n);
        if r < 1 {
            assert((r + 1) * (r + 1) <= 1) by (nonlinear_arith)
                requires
                    0 <= r < 1,
            ;
        }
        assert(n * (1int * 1int) == n) by (nonlinear_arith);
    }
}

/// The inner product does not depend on the order of its arguments.
pub proof fn lemma_dot_symmetric(a: Seq<i32>, b: Seq<i32>)
    ensures
        dot(a, b) == dot(b, a),
    decreases a.len(),
{
    if a.len() > 0 && b.len() > 0 {
        lemma_dot_symmetric(a.drop_last(), b.drop_last());
        let x = a.last() as int;
        let y = b.last() as int;
        assert(x * y == y * x) by (nonlinear_arith);
    }
}

/// Cosine similarity is symmetric: `cosine(a, b) == cosine(b, a)`.
pub proof fn lemma_cosine_symmetric(a: Seq<i32>, b: Seq<i32>)
    ensures
        cosine(a, b) == cosine(b, a),
{
    lemma_dot_symmetric(a, b);
    let na = norm(a);
    let nb = norm(b);
    let ua = root_unit(norm_sq(a));
    let ub = root_unit(norm_sq(b));
    assert(na * nb == nb * na) by (nonlinear_arith);
    assert(ua * ub == ub * ua) by (nonlinear_arith);
}

/// A vector of non-zero length is as similar to itself as can be:
/// `cosine(a, a)` is exactly `SCORE_ONE`.
pub proof fn lemma_cosine_self(a: Seq<i32>)
    requires
        norm_sq(a) != 0,
    ensures
        cosine(a, a) == SCORE_ONE,
{
    lemma_norm_sq_nonnegative(a);
    let n = norm_sq(a);
    lemma_fine_root(n);
    let r = norm(a);
    let u = root_unit(n);
    let den = r * r;
    let d = n * (u * u);
    assert(den >= 1) by (nonlinear_arith)
        requires
            r >= 1,
            den == r * r,
    ;
    assert(d * SCORE_ONE / den >= SCORE_ONE) by (nonlinear_arith)
        requires
            1 <= den <= d,
    ;
}

/// A score lies between `-SCORE_ONE` and `SCORE_ONE`.
pub proof fn lemma_cosine_bounds(a: Seq<i32>, b: Seq<i32>)
    ensures
        -SCORE_ONE <= cosine(a, b) <= SCORE_ONE,
{
    lemma_norm_sq_nonnegative(a);
    lemma_norm_sq_nonnegative(b);
    if norm_sq(a) > 0 && norm_sq(b) > 0 {
        lemma_fine_root(norm_sq(a));
        lemma_fine_root(norm_sq(b));
        let na = norm(a);
        let nb = norm(b);
        let den = na * nb;
        let d = dot(a, b) * (root_unit(norm_sq(a)) * root_unit(norm_sq(b)));
        assert(den > 0) by (nonlinear_arith)
            requires
                na > 0,
                nb > 0,
                den == na * nb,
        ;
        if d >= 0 {
            assert(d * SCORE_ONE / den >= 0) by (nonlinear_arith)
                requires
                    d >= 0,
                    den > 0,
            ;
        } else {
            assert((-d) * SCORE_ONE / den >= 0) by (nonlinear_arith)
                requires
                    d < 0,
                    den > 0,
            ;
        }
    }
}

/// Where a quotient by `den` stands after some binary places of the factor.
struct Quotient {
    /// The quotient so far.
    q: u128,
    /// The remainder so far.
    r: u128,
    /// The places of the factor taken in so far.
    m: u32,
}

/// Takes in one more binary place of the factor.
fn next_place(at: Quotient, place: bool, num: u128, den: u128) -> (out: Quotient)
    requires
        num < den,
        den <= 0x4000_0000_0000_0000_0000_0000_0000_0000,
        at.r < den,
        at.q * den + at.r == at.m * num,
        at.m < 0x10_0000,
    ensures
        out.r < den,
        out.q * den + out.r == out.m * num,
        out.m == 2 * at.m + if place {
            1int
        } else {
            0int
        },
{
    let ghost q0 = at.q as int;
    let ghost r0 = at.r as int;
    let ghost m0 = at.m as int;
    assert(q0 <= m0) by (nonlinear_arith)
        requires
            q0 * den + r0 == m0 * num,
            0 <= num < den,
            0 <= r0,
            0 <= q0,
            0 <= m0,
    ;
    let mut r: u128 = 2 * at.r;
    if place {
        r = r + num;
    }
    let mut q: u128 = 2 * at.q;
    let m: u32 = if place {
        2 * at.m + 1
    } else {
        2 * at.m
    };
    if place {
        assert(q * den + r == m * num) by (nonlinear_arith)
            requires
                q0 * den + r0 == m0 * num,
                q == 2 * q0,
                r == 2 * r0 + num,
                m == 2 * m0 + 1,
        ;
    } else {
        assert(q * den + r == m * num) by (nonlinear_arith)
            requires
                q0 * den + r0 == m0 * num,
                q == 2 * q0,
                r == 2 * r0,
                m == 2 * m0,
        ;
    }
    if r >= den {
        let ghost q1 = q as int;
        let ghost r1 = r as int;
        r = r - den;
        q = q + 1;
        assert(q * den + r == m * num) by (nonlinear_arith)
            requires
                q1 * den + r1 == m * num,
                q == q1 + 1,
                r == r1 - den,
        ;
    }
    if r >= den {
        let ghost q1 = q as int;
        let ghost r1 = r as int;
        r = r - den;
        q = q + 1;
        assert(q * den + r == m * num) by (nonlinear_arith)
            requires
                q1 * den + r1 == m * num,
                q == q1 + 1,
                r == r1 - den,
        ;
    }
    Quotient { q, r, m }
}

/// The quotient `num * SCORE_ONE / den` of a number below `den`, without a
/// product that leaves 128 bits: the factor is taken in place by place.
pub(crate) fn scaled_quotient(num: u128, den: u128) -> (q: u128)
    requires
        num < den,
        den <= 0x4000_0000_0000_0000_0000_0000_0000_0000,
    ensures
        q as int == num * SCORE_ONE / (den as int),
        q < SCORE_ONE,
{
    // a million is 1111 0100 0010 0100 0000 in binary
    let at = Quotient { q: 0, r: 0, m: 0 };
    assert(at.q * den + at.r == at.m * num) by (nonlinear_arith)
        requires
            at.q == 0,
            at.r == 0,
            at.m == 0,
    ;
    let at = next_place(at, true, num, den);
    let at = next_place(at, true, num, den);
    let at = next_place(at, true, num, den);
    let at = next_place(at, true, num, den);
    let at = next_place(at, false, num, den);
    let at = next_place(at, true, num, den);
    let at = next_place(at, false, num, den);
    let at = next_place(at, false, num, den);
    let at = next_place(at, false, num, den);
    let at = next_place(at, false, num, den);
    let at = next_place(at, true, num, den);
    let at = next_place(at, false, num, den);
    let at = next_place(at, false, num, den);
    let at = next_place(at, true, num, den);
    let at = next_place(at, false, num, den);
    let at = next_place(at, false, num, den);
    let at = next_place(at, false, num, den);
    let at = next_place(at, false, num, den);
    let at = next_place(at, false, num, den);
    let at = next_place(at, false, num, den);
    proof {
        assert(at.m == 1_000_000);
        let x = num * SCORE_ONE;
        assert(x == at.q * den + at.r) by (nonlinear_arith)
            requires
                at.q * den + at.r == at.m * num,
                at.m == 1_000_000,
                x == num * 1_000_000,
        ;
        lemma_fundamental_div_mod_converse(x, den as int, at.q as int, at.r as int);
        let q = at.q as int;
        assert(q < 1_000_000) by (nonlinear_arith)
            requires
                q * den + at.r == 1_000_000 * num,
                0 <= num < den,
                0 <= at.r,
                0 <= q,
        ;
    }
    at.q
}

/// The root of a squared length with its unit.
fn root_of(n: u128) -> (out: (u128, u128))
    requires
        1 <= n <= 0xffff_ffff_ffff_ffff * 0x4000_0000_0000_0000,
    ensures
        out.0 as int == fine_root(n as int),
        out.1 as int == root_unit(n as int),
        1 <= out.0 <= 0x7fff_ffff_ffff_ffff,
{
    proof {
        lemma_fine_root(n as int);
    }
    if n < FINE_BELOW {
        assert(n * FINE_SQUARE <= 0xffff_ffff_ffff_ffff * 0x4000_0000_0000_0000) by (nonlinear_arith)
            requires
                n <= 0xffff_ffff_ffff_ffff,
                FINE_SQUARE == 0x4000_0000_0000_0000,
        ;
        let r: u64 = integer_sqrt(n * FINE_SQUARE);
        proof {
            lemma_floor_sqrt_exists(n * FINE_SQUARE);
            lemma_sqrt_below(n * FINE_SQUARE, r as int);
        }
        (r as u128, FINE_UNIT)
    } else {
        let r: u64 = integer_sqrt(n);
        proof {
            lemma_floor_sqrt_exists(n as int);
            lemma_sqrt_below(n as int, r as int);
        }
        (r as u128, 1)
    }
}

/// The cosine similarity of two vectors, in millionths.
///
/// Fails with `DimensionMismatch` exactly when the lengths differ; `expected`
/// is the length of `a`, `actual` that of `b`.
pub fn cosine_similarity(a: &[i32], b: &[i32]) -> (r: Result<i32, MemoryError>)
    ensures
        a@.len() == b@.len() ==> r is Ok && r->Ok_0 as int == cosine(a@, b@),
        a@.len() != b@.len() ==> r is Err && r->Err_0@ == (ErrorView::DimensionMismatch {
            expected: a@.len(),
            actual: b@.len(),
        }),
{
    if a.len() != b.len() {
        return Err(MemoryError::DimensionMismatch { expected: a.len(), actual: b.len() });
    }
    let n: usize = a.len();
    let mut d: i128 = 0;
    let mut na: u128 = 0;
    let mut nb: u128 = 0;
    let mut i: usize = 0;
    while i < n
        invariant
            n == a@.len(),
            n == b@.len(),
            i <= n,
            d as int == dot(a@.take(i as int), b@.take(i as int)),
            na as int == norm_sq(a@.take(i as int)),
            nb as int == norm_sq(b@.take(i as int)),
        decreases n - i,
    {
        let x: i128 = a[i] as i128;
        let y: i128 = b[i] as i128;
        proof {
            let a0 = a@.take(i as int);
            let b0 = b@.take(i as int);
            let a1 = a@.take(i + 1);
            let b1 = b@.take(i + 1);
            assert(a1.drop_last() =~= a0);
            assert(b1.drop_last() =~= b0);
            lemma_dot_bounds(a0, b0);
            lemma_dot_bounds(a0, a0);
            lemma_dot_bounds(b0, b0);
            lemma_dot_bounds(a1, b1);
            lemma_dot_bounds(a1, a1);
            lemma_dot_bounds(b1, b1);
            assert(i * 0x4000_0000_0000_0000 <= 0xffff_ffff_ffff_ffff * 0x4000_0000_0000_0000)
                by (nonlinear_arith)
                requires
                    i <= 0xffff_ffff_ffff_ffff,
            ;
            assert(-0x4000_0000_0000_0000 <= x * y <= 0x4000_0000_0000_0000) by (nonlinear_arith)
                requires
                    -0x8000_0000 <= x <= 0x7fff_ffff,
                    -0x8000_0000 <= y <= 0x7fff_ffff,
            ;
            assert(0 <= x * x <= 0x4000_0000_0000_0000) by (nonlinear_arith)
                requires
                    -0x8000_0000 <= x <= 0x7fff_ffff,
            ;
            assert(0 <= y * y <= 0x4000_0000_0000_0000) by (nonlinear_arith)
                requires
                    -0x8000_0000 <= y <= 0x7fff_ffff,
            ;
        }
        d = d + x * y;
        na = na + (x * x) as u128;
        nb = nb + (y * y) as u128;
        i = i + 1;
    }
    proof {
        assert(a@.take(n as int) =~= a@);
        assert(b@.take(n as int) =~= b@);
        lemma_dot_bounds(a@, b@);
        lemma_dot_bounds(a@, a@);
        lemma_dot_bounds(b@, b@);
        assert(n * 0x4000_0000_0000_0000 <= 0xffff_ffff_ffff_ffff * 0x4000_0000_0000_0000)
            by (nonlinear_arith)
            requires
                n <= 0xffff_ffff_ffff_ffff,
        ;
    }
    if na == 0 || nb == 0 {
        return Ok(0);
    }
    let (ra, ua) = root_of(na);
    let (rb, ub) = root_of(nb);
    proof {
        assert(1 <= ra * rb <= 0x7fff_ffff_ffff_ffff * 0x7fff_ffff_ffff_ffff) by (nonlinear_arith)
            requires
                1 <= ra <= 0x7fff_ffff_ffff_ffff,
                1 <= rb <= 0x7fff_ffff_ffff_ffff,
        ;
        assert(1 <= ua * ub <= 0x4000_0000_0000_0000) by (nonlinear_arith)
            requires
                ua == 1 || ua == 0x8000_0000,
                ub == 1 || ub == 0x8000_0000,
        ;
    }
    let den: u128 = ra * rb;
    let unit: u128 = ua * ub;
    let size: u128 = if d >= 0 {
        d as u128
    } else {
        (-d) as u128
    };
    let room: u128 = den / unit;
    let capped: i32 = if size > room {
        proof {
            lemma_over_the_top(size as int, unit as int, den as int);
        }
        1_000_000
    } else {
        assert(size * unit <= den) by (nonlinear_arith)
            requires
                size <= room,
                room == den / unit,
                unit >= 1,
                den >= 0,
        ;
        let num: u128 = size * unit;
        if num >= den {
            proof {
                lemma_at_the_top(num as int, den as int);
            }
            1_000_000
        } else {
            scaled_quotient(num, den) as i32
        }
    };
    proof {
        let full = dot(a@, b@) * (root_unit(norm_sq(a@)) * root_unit(norm_sq(b@)));
        assert(full == d * unit);
        if d >= 0 {
            assert(full == size * unit);
        } else {
            assert(-full == size * unit) by (nonlinear_arith)
                requires
                    full == d * unit,
                    size == -d,
            ;
            assert(full < 0) by (nonlinear_arith)
                requires
                    full == d * unit,
                    d < 0,
                    unit >= 1,
            ;
        }
    }
    if d >= 0 {
        Ok(capped)
    } else {
        Ok(-capped)
    }
}

/// A numerator of at least the denominator gives a quotient of at least one.
proof fn lemma_at_the_top(num: int, den: int)
    requires
        1 <= den <= num,
    ensures
        num * SCORE_ONE / den >= SCORE_ONE,
{
    assert(num * SCORE_ONE / den >= SCORE_ONE) by (nonlinear_arith)
        requires
            1 <= den <= num,
    ;
}

/// A size above `den / unit` gives a quotient of at least one.
proof fn lemma_over_the_top(size: int, unit: int, den: int)
    requires
        unit >= 1,
        den >= 1,
        size > den / unit,
    ensures
        size * unit * SCORE_ONE / den >= SCORE_ONE,
{
    assert(size * unit >= den) by (nonlinear_arith)
        requires
            unit >= 1,
            den >= 1,
            size >= den / unit + 1,
    ;
    lemma_at_the_top(size * unit, den);
}

/// A number below `2^126` has a square root below `2^63`.
proof fn lemma_sqrt_below(n: int, r: int)
    requires
        is_floor_sqrt(n, r),
        n <= 0xffff_ffff_ffff_ffff * 0x4000_0000_0000_0000,
    ensures
        r <= 0x7fff_ffff_ffff_ffff,
{
    if r > 0x7fff_ffff_ffff_ffff {
        assert(r * r > 0xffff_ffff_ffff_ffff * 0x4000_0000_0000_0000) by (nonlinear_arith)
            requires
                r >= 0x8000_0000_0000_0000,
        ;
    }
}

} // verus!
