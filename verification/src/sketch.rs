//! Feature hashing: from the hashes of a text's tokens to a unit vector.
//!
//! Each hash adds a signed weight to one slot. The tallies are first brought
//! to a common scale, the largest becoming `HEADROOM`, so that their squares
//! can be summed in 128 bits whatever the number of tokens; then the vector
//! is normalised to Euclidean length one, in billionths.

use vstd::prelude::*;
use vstd::arithmetic::div_mod::lemma_fundamental_div_mod;
use crate::similarity::{
    lemma_norm_sq_nonnegative, norm_sq,
    floor_sqrt, integer_sqrt, is_floor_sqrt, lemma_floor_sqrt_exists, COMPONENT_ONE,
};

verus! {

/// The weight that stands for 1.0 before normalisation.
pub const WEIGHT_ONE: u64 = 0x1_0000;

/// What the upper fifteen bits of a hash are worth: one unit each.
pub const WEIGHT_STEP: u64 = 0x2_0000_0000_0000;

/// The value that the largest tally takes before the squares are summed.
pub const HEADROOM: u64 = 0x4000_0000;

/// The slot that a hash falls into.
pub open spec fn slot_of(hash: u64, width: nat) -> int
    recommends
        width > 0,
{
    hash as int % width as int
}

/// The signed weight of a hash: between 1.0 and 1.5 by its upper bits,
/// positive where its lowest bit is 0 and negative where it is 1.
pub open spec fn weight(hash: u64) -> int {
    let magnitude = WEIGHT_ONE + hash as int / WEIGHT_STEP as int;
    if hash as int % 2 == 0 {
        magnitude
    } else {
        -magnitude
    }
}

/// The sum of the weights of the hashes that fall into `slot`.
pub open spec fn tally(hashes: Seq<u64>, width: nat, slot: int) -> int
    decreases hashes.len(),
{
    if hashes.len() == 0 {
        0
    } else {
        tally(hashes.drop_last(), width, slot) + if slot_of(hashes.last(), width) == slot {
            weight(hashes.last())
        } else {
            0
        }
    }
}

/// The tally of every slot.
pub open spec fn tallies(hashes: Seq<u64>, width: nat) -> Seq<int> {
    Seq::new(width, |slot: int| tally(hashes, width, slot))
}

/// The absolute value.
pub open spec fn magnitude(x: int) -> int {
    if x >= 0 {
        x
    } else {
        -x
    }
}

/// The largest absolute value among the components, 0 where there is none.
pub open spec fn peak(v: Seq<int>) -> int
    decreases v.len(),
{
    if v.len() == 0 {
        0
    } else if magnitude(v.last()) > peak(v.drop_last()) {
        magnitude(v.last())
    } else {
        peak(v.drop_last())
    }
}

/// The quotient of `n` by a positive `d`, rounded toward zero.
pub open spec fn toward_zero(n: int, d: int) -> int
    recommends
        d > 0,
{
    if n >= 0 {
        n / d
    } else {
        -((-n) / d)
    }
}

/// Every component times `HEADROOM / peak(v)`.
pub open spec fn rescaled(v: Seq<int>) -> Seq<int> {
    Seq::new(v.len(), |i: int| toward_zero(v[i] * HEADROOM, peak(v)))
}

/// The sum of the squares of the components.
pub open spec fn sum_squares(v: Seq<int>) -> int
    decreases v.len(),
{
    if v.len() == 0 {
        0
    } else {
        sum_squares(v.drop_last()) + v.last() * v.last()
    }
}

/// The vector brought to Euclidean length one, in billionths, each
/// component rounded toward zero.
pub open spec fn normalised(v: Seq<int>) -> Seq<i32> {
    Seq::new(
        v.len(),
        |i: int| toward_zero(v[i] * COMPONENT_ONE, floor_sqrt(sum_squares(v))) as i32,
    )
}

/// The embedding that a sequence of token hashes yields in `width` slots:
/// the normalised tallies, or the zero vector where every tally is zero.
pub open spec fn sketch(hashes: Seq<u64>, width: nat) -> Seq<i32> {
    let raw = tallies(hashes, width);
    if peak(raw) == 0 {
        Seq::new(width, |i: int| 0i32)
    } else {
        normalised(rescaled(raw))
    }
}

/// Every component is zero.
pub open spec fn is_zero_vector(v: Seq<i32>) -> bool {
    forall|i: int| 0 <= i < v.len() ==> #[trigger] v[i] == 0
}

/// The number of components that are not zero.
pub open spec fn support(v: Seq<int>) -> nat
    decreases v.len(),
{
    if v.len() == 0 {
        0
    } else {
        support(v.drop_last()) + if v.last() != 0 {
            1nat
        } else {
            0nat
        }
    }
}

/// The number of slots whose tally is not zero: only these can lose
/// something when the vector is rounded.
pub open spec fn occupied(hashes: Seq<u64>, width: nat) -> nat {
    support(tallies(hashes, width))
}

/// The vector has Euclidean length one, as far as rounding toward zero
/// allows where `rounded` components could lose something: its squared
/// length `n` is below that of one and a unit, and its length falls short of
/// one by at most the root of `rounded` units, that is,
/// `n + 2 * sqrt(rounded * n) + rounded` is at least one squared.
pub open spec fn is_unit_vector(v: Seq<i32>, rounded: nat) -> bool {
    &&& norm_sq(v) < (COMPONENT_ONE + 1) * (COMPONENT_ONE + 1)
    &&& norm_sq(v) + 2 * floor_sqrt(rounded * norm_sq(v)) + rounded >= COMPONENT_ONE
        * COMPONENT_ONE
}

/// A ten-thousandth of one, in component units.
pub const TOLERANCE: i32 = 100_000;

/// The most components that can be rounded with the length staying within
/// `TOLERANCE` of one: ten thousand millions.
pub const MOST_ROUNDED: u64 = 10_000_000_000;

/// The sum of the magnitudes of the components.
pub open spec fn taxicab(v: Seq<i32>) -> int
    decreases v.len(),
{
    if v.len() == 0 {
        0
    } else {
        taxicab(v.drop_last()) + magnitude(v.last() as int)
    }
}

/// The root of a larger number is not smaller.
pub proof fn lemma_floor_sqrt_monotone(a: int, b: int)
    requires
        0 <= a <= b,
    ensures
        floor_sqrt(a) <= floor_sqrt(b),
{
    lemma_floor_sqrt_exists(a);
    lemma_root_bounds(floor_sqrt(a), b);
}

/// A unit vector stays one when more components are counted as rounded.
pub proof fn lemma_unit_monotone(v: Seq<i32>, fewer: nat, more: nat)
    requires
        fewer <= more,
        is_unit_vector(v, fewer),
    ensures
        is_unit_vector(v, more),
{
    lemma_norm_sq_nonnegative(v);
    let n = norm_sq(v);
    assert(0 <= fewer * n <= more * n) by (nonlinear_arith)
        requires
            0 <= fewer <= more,
            n >= 0,
    ;
    lemma_floor_sqrt_monotone(fewer * n, more * n);
}

/// A unit vector of which at most ten thousand million components were
/// rounded has a length within a ten-thousandth of one.
pub proof fn lemma_unit_within_tolerance(v: Seq<i32>, rounded: nat)
    requires
        is_unit_vector(v, rounded),
        rounded <= MOST_ROUNDED,
    ensures
        (COMPONENT_ONE - TOLERANCE) * (COMPONENT_ONE - TOLERANCE) <= norm_sq(v) <= (COMPONENT_ONE
            + TOLERANCE) * (COMPONENT_ONE + TOLERANCE),
{
    let one = COMPONENT_ONE as int;
    let gap = TOLERANCE as int;
    let n = norm_sq(v);
    lemma_norm_sq_nonnegative(v);
    assert(one * one == 1_000_000_000_000_000_000) by (nonlinear_arith)
        requires
            one == 1_000_000_000,
    ;
    assert((one + 1) * (one + 1) == 1_000_000_002_000_000_001) by (nonlinear_arith)
        requires
            one == 1_000_000_000,
    ;
    assert((one - gap) * (one - gap) == 999_800_010_000_000_000) by (nonlinear_arith)
        requires
            one == 1_000_000_000,
            gap == 100_000,
    ;
    assert((one + gap) * (one + gap) == 1_000_200_010_000_000_000) by (nonlinear_arith)
        requires
            one == 1_000_000_000,
            gap == 100_000,
    ;
    let product = rounded * n;
    assert(product >= 0) by (nonlinear_arith)
        requires
            product == rounded * n,
            rounded >= 0,
            n >= 0,
    ;
    lemma_floor_sqrt_exists(product);
    let root = floor_sqrt(product);
    if n < 999_800_010_000_000_000 {
        // the root is below a ten-thousandth times what is left of one
        let reach = 99_990_000_000_000int;
        assert(reach * reach == 10_000_000_000 * 999_800_010_000_000_000) by (nonlinear_arith)
            requires
                reach == 99_990_000_000_000,
        ;
        assert(product < reach * reach) by (nonlinear_arith)
            requires
                product == rounded * n,
                0 <= rounded <= 10_000_000_000,
                0 <= n < 999_800_010_000_000_000,
                reach * reach == 10_000_000_000 * 999_800_010_000_000_000,
        ;
        if root >= reach {
            assert(root * root >= reach * reach) by (nonlinear_arith)
                requires
                    root >= reach,
                    reach >= 0,
            ;
        }
        assert(root < reach);
        assert(n + 2 * root + rounded >= 1_000_000_000_000_000_000);
        assert(false);
    }
}

/// One component of a normalised vector: the quotient `m * COMPONENT_ONE /
/// l` of a magnitude `m` of at most the length `l`.
proof fn lemma_component(m: int, l: int)
    requires
        0 <= m <= l,
        l >= COMPONENT_ONE,
    ensures
        0 <= m * COMPONENT_ONE / l <= COMPONENT_ONE,
        m == 0 ==> m * COMPONENT_ONE / l == 0,
        l * l * ((m * COMPONENT_ONE / l) * (m * COMPONENT_ONE / l)) <= COMPONENT_ONE
            * COMPONENT_ONE * (m * m),
        l * l * ((m * COMPONENT_ONE / l) * (m * COMPONENT_ONE / l) + 2 * (m * COMPONENT_ONE / l)
            + 1) >= COMPONENT_ONE * COMPONENT_ONE * (m * m),
{
    let one = COMPONENT_ONE as int;
    let x = m * one;
    let q = x / l;
    lemma_fundamental_div_mod(x, l);
    let rest = x % l;
    assert(0 <= x <= l * one) by (nonlinear_arith)
        requires
            0 <= m <= l,
            one >= 0,
            x == m * one,
    ;
    assert(0 <= q <= one) by (nonlinear_arith)
        requires
            x == l * q + rest,
            0 <= rest < l,
            0 <= x <= l * one,
            one >= 0,
    ;
    if m == 0 {
        assert(x == 0) by (nonlinear_arith)
            requires
                x == m * one,
                m == 0,
        ;
        assert(q == 0) by (nonlinear_arith)
            requires
                0 == l * q + rest,
                0 <= rest < l,
                q >= 0,
        ;
    }
    let low = q * l;
    let high = (q + 1) * l;
    assert(0 <= low <= x && x < high) by (nonlinear_arith)
        requires
            x == l * q + rest,
            0 <= rest < l,
            q >= 0,
            low == q * l,
            high == (q + 1) * l,
    ;
    assert(low * low <= x * x) by (nonlinear_arith)
        requires
            0 <= low <= x,
    ;
    assert(x * x <= high * high) by (nonlinear_arith)
        requires
            0 <= x < high,
    ;
    assert(low * low == l * l * (q * q)) by (nonlinear_arith)
        requires
            low == q * l,
    ;
    assert(x * x == one * one * (m * m)) by (nonlinear_arith)
        requires
            x == m * one,
    ;
    assert(high * high == l * l * (q * q + 2 * q + 1)) by (nonlinear_arith)
        requires
            high == (q + 1) * l,
    ;
}

/// The square of a quotient rounded toward zero is that of the quotient of
/// the magnitudes, and so is its magnitude.
proof fn lemma_toward_zero_square(n: int, d: int)
    requires
        d > 0,
    ensures
        toward_zero(n, d) * toward_zero(n, d) == (magnitude(n) / d) * (magnitude(n) / d),
        magnitude(toward_zero(n, d)) == magnitude(n) / d,
{
    let q = magnitude(n) / d;
    assert(q >= 0) by (nonlinear_arith)
        requires
            q == magnitude(n) / d,
            magnitude(n) >= 0,
            d > 0,
    ;
    if n < 0 {
        assert((-q) * (-q) == q * q) by (nonlinear_arith);
    }
}

/// One more component joins a sum of magnitudes and a sum of squares.
proof fn lemma_taxicab_step(sum: int, squares: int, count: int, q: int)
    requires
        0 <= sum,
        0 <= squares,
        0 <= count,
        0 <= q,
        sum * sum <= count * squares,
    ensures
        (sum + q) * (sum + q) <= (count + 1) * (squares + q * q),
{
    if count == 0 {
        assert(sum == 0) by (nonlinear_arith)
            requires
                sum * sum <= 0,
                sum >= 0,
        ;
        assert((sum + q) * (sum + q) <= (count + 1) * (squares + q * q)) by (nonlinear_arith)
            requires
                sum == 0,
                count == 0,
                squares >= 0,
        ;
    } else {
        let cross = sum * q;
        let apart = sum - count * q;
        assert(apart * apart >= 0) by (nonlinear_arith);
        assert(2 * cross * count <= sum * sum + count * count * (q * q)) by (nonlinear_arith)
            requires
                cross == sum * q,
                apart == sum - count * q,
                apart * apart >= 0,
        ;
        assert(2 * cross * count <= count * (squares + count * (q * q))) by (nonlinear_arith)
            requires
                2 * cross * count <= sum * sum + count * count * (q * q),
                sum * sum <= count * squares,
        ;
        assert(2 * cross <= squares + count * (q * q)) by (nonlinear_arith)
            requires
                2 * cross * count <= count * (squares + count * (q * q)),
                count > 0,
        ;
        assert((sum + q) * (sum + q) == sum * sum + 2 * cross + q * q) by (nonlinear_arith)
            requires
                cross == sum * q,
        ;
        assert((count + 1) * (squares + q * q) == count * squares + squares + count * (q * q) + q
            * q) by (nonlinear_arith);
    }
}

/// The squared length of the first `k` components of a normalised vector,
/// held against that of the vector it was made from.
proof fn lemma_normalised_prefix(w: Seq<int>, v: Seq<i32>, l: int, k: nat)
    requires
        l >= COMPONENT_ONE,
        v.len() == w.len(),
        k <= w.len(),
        forall|i: int| 0 <= i < w.len() ==> magnitude(#[trigger] w[i]) <= l,
        forall|i: int|
            0 <= i < w.len() ==> (#[trigger] v[i]) as int == toward_zero(w[i] * COMPONENT_ONE, l),
    ensures
        0 <= norm_sq(v.take(k as int)),
        0 <= taxicab(v.take(k as int)),
        l * l * norm_sq(v.take(k as int)) <= COMPONENT_ONE * COMPONENT_ONE * sum_squares(
            w.take(k as int),
        ),
        l * l * (norm_sq(v.take(k as int)) + 2 * taxicab(v.take(k as int)) + support(
            w.take(k as int),
        )) >= COMPONENT_ONE * COMPONENT_ONE * sum_squares(w.take(k as int)),
        taxicab(v.take(k as int)) * taxicab(v.take(k as int)) <= support(w.take(k as int))
            * norm_sq(v.take(k as int)),
    decreases k,
{
    let one = COMPONENT_ONE as int;
    if k == 0 {
        assert(v.take(0) =~= Seq::<i32>::empty());
        assert(w.take(0) =~= Seq::<int>::empty());
        assert(l * l * 0 == 0) by (nonlinear_arith);
        assert(one * one * 0 == 0) by (nonlinear_arith);
        assert(0int * 0int <= 0 * 0) by (nonlinear_arith);
    } else {
        let j = (k - 1) as int;
        lemma_normalised_prefix(w, v, l, j as nat);
        assert(v.take(k as int).drop_last() =~= v.take(j));
        assert(w.take(k as int).drop_last() =~= w.take(j));
        assert(v.take(k as int).last() == v[j]);
        assert(w.take(k as int).last() == w[j]);
        let m = magnitude(w[j]);
        let q = m * one / l;
        assert(magnitude(w[j] * one) == m * one) by (nonlinear_arith)
            requires
                m == magnitude(w[j]),
                one >= 0,
        ;
        lemma_toward_zero_square(w[j] * one, l);
        lemma_component(m, l);
        let x = v[j] as int;
        assert(x * x == q * q);
        assert(magnitude(x) == q);
        assert(w[j] * w[j] == m * m) by (nonlinear_arith)
            requires
                m == magnitude(w[j]),
        ;
        let squares = norm_sq(v.take(j));
        let sum = taxicab(v.take(j));
        let count = support(w.take(j)) as int;
        let under = sum_squares(w.take(j));
        let ll = l * l;
        let cc = one * one;
        assert(norm_sq(v.take(k as int)) == squares + q * q);
        assert(taxicab(v.take(k as int)) == sum + q);
        assert(sum_squares(w.take(k as int)) == under + m * m);
        assert(q * q >= 0) by (nonlinear_arith);
        if w[j] == 0 {
            assert(m == 0 && q == 0);
            assert(q * q == 0) by (nonlinear_arith)
                requires
                    q == 0,
            ;
            assert(m * m == 0) by (nonlinear_arith)
                requires
                    m == 0,
            ;
            assert(support(w.take(k as int)) == count);
        } else {
            assert(support(w.take(k as int)) == count + 1);
            assert(ll * (squares + q * q) == ll * squares + ll * (q * q)) by (nonlinear_arith);
            assert(cc * (under + m * m) == cc * under + cc * (m * m)) by (nonlinear_arith);
            assert(ll * (squares + q * q + 2 * (sum + q) + (count + 1)) == ll * (squares + 2 * sum
                + count) + ll * (q * q + 2 * q + 1)) by (nonlinear_arith);
            lemma_taxicab_step(sum, squares, count, q);
        }
    }
}

/// A vector normalised by a length of at least one unit is a unit vector,
/// rounded at the components that were not zero.
pub proof fn lemma_normalised_is_unit(w: Seq<int>, v: Seq<i32>)
    requires
        floor_sqrt(sum_squares(w)) >= COMPONENT_ONE,
        v.len() == w.len(),
        forall|i: int|
            0 <= i < w.len() ==> (#[trigger] v[i]) as int == toward_zero(
                w[i] * COMPONENT_ONE,
                floor_sqrt(sum_squares(w)),
            ),
    ensures
        is_unit_vector(v, support(w)),
{
    let one = COMPONENT_ONE as int;
    let total = sum_squares(w);
    let l = floor_sqrt(total);
    lemma_sum_squares(w);
    lemma_floor_sqrt_exists(total);
    assert forall|i: int| 0 <= i < w.len() implies magnitude(#[trigger] w[i]) <= l by {
        let c = w[i];
        assert(c * c <= total);
        assert(magnitude(c) * magnitude(c) == c * c) by (nonlinear_arith)
            requires
                magnitude(c) == c || magnitude(c) == -c,
        ;
        lemma_root_bounds(magnitude(c), total);
    }
    lemma_normalised_prefix(w, v, l, w.len());
    assert(v.take(v.len() as int) =~= v);
    assert(w.take(w.len() as int) =~= w);
    let squared = norm_sq(v);
    let sum = taxicab(v);
    let count = support(w) as int;
    let ll = l * l;
    let cc = one * one;
    assert(ll >= 1 && cc >= 1) by (nonlinear_arith)
        requires
            l >= one,
            one >= 1,
            ll == l * l,
            cc == one * one,
    ;
    // above: the length is rounded down by less than one
    let over = (l + 1) * (l + 1);
    let top = (one + 1) * (one + 1);
    assert(cc * over <= ll * top) by (nonlinear_arith)
        requires
            1 <= one <= l,
            cc == one * one,
            ll == l * l,
            over == (l + 1) * (l + 1),
            top == (one + 1) * (one + 1),
    ;
    assert(cc * total < cc * over) by (nonlinear_arith)
        requires
            total < over,
            cc >= 1,
    ;
    assert(squared < top) by (nonlinear_arith)
        requires
            ll * squared <= cc * total,
            cc * total < cc * over,
            cc * over <= ll * top,
            ll >= 1,
    ;
    // below: each component that is not zero is rounded down by less than one
    assert(cc * total >= cc * ll) by (nonlinear_arith)
        requires
            total >= ll,
            cc >= 1,
    ;
    let short = squared + 2 * sum + count;
    assert(short >= cc) by (nonlinear_arith)
        requires
            ll * short >= cc * total,
            cc * total >= cc * ll,
            ll >= 1,
    ;
    lemma_root_bounds(sum, count * squared);
}

/// No more components are not zero than there are components.
pub proof fn lemma_support_bound(v: Seq<int>)
    ensures
        support(v) <= v.len(),
    decreases v.len(),
{
    if v.len() > 0 {
        lemma_support_bound(v.drop_last());
    }
}

/// Where `b` is not zero wherever `a` is not, `b` has no fewer components
/// that are not zero.
pub proof fn lemma_support_pointwise(a: Seq<int>, b: Seq<int>)
    requires
        a.len() == b.len(),
        forall|i: int| 0 <= i < a.len() && #[trigger] a[i] != 0 ==> b[i] != 0,
    ensures
        support(a) <= support(b),
    decreases a.len(),
{
    if a.len() > 0 {
        assert forall|i: int| 0 <= i < a.drop_last().len() && #[trigger] a.drop_last()[i]
            != 0 implies b.drop_last()[i] != 0 by {
            assert(a.drop_last()[i] == a[i]);
            assert(b.drop_last()[i] == b[i]);
        }
        lemma_support_pointwise(a.drop_last(), b.drop_last());
        assert(a.last() == a[a.len() - 1]);
        assert(b.last() == b[b.len() - 1]);
    }
}

/// Where `b` differs from `a` at one place at most, it has at most one more
/// component that is not zero.
pub proof fn lemma_support_one_more(a: Seq<int>, b: Seq<int>, at: int)
    requires
        a.len() == b.len(),
        forall|i: int| 0 <= i < a.len() && i != at ==> #[trigger] a[i] == b[i],
    ensures
        support(b) <= support(a) + 1,
    decreases a.len(),
{
    if a.len() > 0 {
        let last = a.len() - 1;
        assert forall|i: int|
            0 <= i < a.drop_last().len() && i != at implies #[trigger] a.drop_last()[i]
            == b.drop_last()[i] by {
            assert(a.drop_last()[i] == a[i]);
            assert(b.drop_last()[i] == b[i]);
        }
        if at == last {
            assert(a.drop_last() =~= b.drop_last());
        } else {
            lemma_support_one_more(a.drop_last(), b.drop_last(), at);
            assert(a[last] == b[last]);
        }
    }
}

/// No more slots are occupied than there are slots, nor than there are
/// hashes.
pub proof fn lemma_occupied(hashes: Seq<u64>, width: nat)
    ensures
        occupied(hashes, width) <= width,
        occupied(hashes, width) <= hashes.len(),
    decreases hashes.len(),
{
    let now = tallies(hashes, width);
    lemma_support_bound(now);
    if hashes.len() == 0 {
        let none = Seq::new(width, |i: int| 0int);
        assert(support(none) == 0) by {
            lemma_support_zero(none);
        }
        assert(now =~= none);
    } else {
        let before = tallies(hashes.drop_last(), width);
        lemma_occupied(hashes.drop_last(), width);
        lemma_support_one_more(before, now, slot_of(hashes.last(), width));
    }
}

/// A vector of zeros has no component that is not zero.
pub proof fn lemma_support_zero(v: Seq<int>)
    requires
        forall|i: int| 0 <= i < v.len() ==> #[trigger] v[i] == 0,
    ensures
        support(v) == 0,
    decreases v.len(),
{
    if v.len() > 0 {
        assert forall|i: int| 0 <= i < v.drop_last().len() implies #[trigger] v.drop_last()[i]
            == 0 by {
            assert(v.drop_last()[i] == v[i]);
        }
        lemma_support_zero(v.drop_last());
        assert(v.last() == v[v.len() - 1]);
    }
}

/// A weight is at least 1.0 and less than 1.5 in absolute value.
pub proof fn lemma_weight_bounds(hash: u64)
    ensures
        WEIGHT_ONE <= magnitude(weight(hash)) < WEIGHT_ONE + WEIGHT_ONE / 2,
{
}

/// A tally is bounded by the number of hashes.
pub proof fn lemma_tally_bounds(hashes: Seq<u64>, width: nat, slot: int)
    ensures
        magnitude(tally(hashes, width, slot)) <= hashes.len() * 0x1_8000,
    decreases hashes.len(),
{
    if hashes.len() > 0 {
        lemma_tally_bounds(hashes.drop_last(), width, slot);
        lemma_weight_bounds(hashes.last());
    }
}

/// The peak bounds every component, is never negative, and is reached
/// wherever there is a component.
pub proof fn lemma_peak(v: Seq<int>)
    ensures
        0 <= peak(v),
        forall|i: int| 0 <= i < v.len() ==> magnitude(#[trigger] v[i]) <= peak(v),
        v.len() > 0 ==> exists|i: int| 0 <= i < v.len() && magnitude(#[trigger] v[i]) == peak(v),
    decreases v.len(),
{
    if v.len() > 0 {
        lemma_peak(v.drop_last());
        assert forall|i: int| 0 <= i < v.len() implies magnitude(#[trigger] v[i]) <= peak(v) by {
            if i < v.len() - 1 {
                assert(v.drop_last()[i] == v[i]);
            }
        }
        if magnitude(v.last()) > peak(v.drop_last()) || v.len() == 1 {
            assert(magnitude(v[v.len() - 1]) == peak(v));
        } else {
            let i = choose|i: int|
                0 <= i < v.drop_last().len() && magnitude(#[trigger] v.drop_last()[i]) == peak(
                    v.drop_last(),
                );
            assert(v.drop_last()[i] == v[i]);
        }
    }
}

/// A sum of squares is at least the square of each component.
pub proof fn lemma_sum_squares(v: Seq<int>)
    ensures
        0 <= sum_squares(v),
        forall|i: int| 0 <= i < v.len() ==> (#[trigger] v[i]) * v[i] <= sum_squares(v),
    decreases v.len(),
{
    if v.len() > 0 {
        lemma_sum_squares(v.drop_last());
        let x = v.last();
        assert(0 <= x * x) by (nonlinear_arith);
        assert forall|i: int| 0 <= i < v.len() implies (#[trigger] v[i]) * v[i] <= sum_squares(
            v,
        ) by {
            if i < v.len() - 1 {
                assert(v.drop_last()[i] == v[i]);
            }
        }
    }
}

/// A sum of squares of components bounded by `bound` is bounded too.
pub proof fn lemma_sum_squares_bound(v: Seq<int>, bound: int)
    requires
        0 <= bound,
        forall|i: int| 0 <= i < v.len() ==> magnitude(#[trigger] v[i]) <= bound,
    ensures
        sum_squares(v) <= v.len() * (bound * bound),
    decreases v.len(),
{
    if v.len() > 0 {
        assert forall|i: int| 0 <= i < v.drop_last().len() implies magnitude(
            #[trigger] v.drop_last()[i],
        ) <= bound by {
            assert(v.drop_last()[i] == v[i]);
        }
        lemma_sum_squares_bound(v.drop_last(), bound);
        let x = v.last();
        assert(magnitude(v[v.len() - 1]) <= bound);
        assert(x * x <= bound * bound) by (nonlinear_arith)
            requires
                -bound <= x <= bound,
        ;
        assert(v.len() * (bound * bound) == (v.len() - 1) * (bound * bound) + bound * bound)
            by (nonlinear_arith);
    }
}

/// A number whose square is at most `n` is at most the square root of `n`.
pub proof fn lemma_root_bounds(a: int, n: int)
    requires
        0 <= a,
        a * a <= n,
    ensures
        a <= floor_sqrt(n),
{
    assert(0 <= a * a) by (nonlinear_arith);
    lemma_floor_sqrt_exists(n);
    let r = floor_sqrt(n);
    if r < a {
        assert((r + 1) * (r + 1) <= a * a) by (nonlinear_arith)
            requires
                0 <= r,
                r + 1 <= a,
        ;
    }
}

/// A quotient rounded toward zero is bounded as the numerator is.
pub proof fn lemma_toward_zero_bounds(n: int, d: int, c: int)
    requires
        d > 0,
        c >= 0,
        magnitude(n) <= c * d,
    ensures
        magnitude(toward_zero(n, d)) <= c,
        magnitude(n) == c * d ==> magnitude(toward_zero(n, d)) == c,
{
    let m = magnitude(n);
    assert(0 <= m / d <= c) by (nonlinear_arith)
        requires
            d > 0,
            c >= 0,
            0 <= m <= c * d,
    ;
    if m == c * d {
        assert(m / d == c) by (nonlinear_arith)
            requires
                d > 0,
                m == c * d,
        ;
    }
}

/// A sketch is the zero vector or a unit vector, rounded at no more
/// components than slots are occupied, and none of its components exceeds
/// one. Where at most ten thousand million slots are occupied, its length is
/// within a ten-thousandth of one.
pub proof fn lemma_sketch_is_unit_or_zero(hashes: Seq<u64>, width: nat)
    ensures
        sketch(hashes, width).len() == width,
        is_zero_vector(sketch(hashes, width)) || is_unit_vector(
            sketch(hashes, width),
            occupied(hashes, width),
        ),
        forall|i: int|
            0 <= i < width ==> -COMPONENT_ONE <= (#[trigger] sketch(hashes, width)[i])
                <= COMPONENT_ONE,
        occupied(hashes, width) <= width,
        occupied(hashes, width) <= hashes.len(),
        !is_zero_vector(sketch(hashes, width)) && occupied(hashes, width) <= MOST_ROUNDED ==> (
        COMPONENT_ONE - TOLERANCE) * (COMPONENT_ONE - TOLERANCE) <= norm_sq(sketch(hashes, width))
            <= (COMPONENT_ONE + TOLERANCE) * (COMPONENT_ONE + TOLERANCE),
{
    let raw = tallies(hashes, width);
    let out = sketch(hashes, width);
    lemma_occupied(hashes, width);
    if peak(raw) != 0 {
        let scaled = rescaled(raw);
        let total = sum_squares(scaled);
        let length = floor_sqrt(total);
        lemma_peak(raw);
        lemma_sum_squares(scaled);
        lemma_floor_sqrt_exists(total);
        // the largest tally became HEADROOM, so the length is at least that
        let j = choose|j: int| 0 <= j < raw.len() && magnitude(#[trigger] raw[j]) == peak(raw);
        let r = raw[j];
        assert(magnitude(r * HEADROOM) == HEADROOM * peak(raw)) by (nonlinear_arith)
            requires
                magnitude(r) == peak(raw),
                HEADROOM == 0x4000_0000,
        ;
        lemma_toward_zero_bounds(r * HEADROOM, peak(raw), HEADROOM as int);
        let big = scaled[j];
        assert(big * big == HEADROOM * HEADROOM) by (nonlinear_arith)
            requires
                big == HEADROOM || big == -HEADROOM,
        ;
        lemma_root_bounds(HEADROOM as int, total);
        assert forall|i: int| 0 <= i < scaled.len() implies (#[trigger] out[i]) as int
            == toward_zero(scaled[i] * COMPONENT_ONE, length) && -COMPONENT_ONE <= out[i]
            <= COMPONENT_ONE by {
            let c = scaled[i];
            assert(c * c <= total);
            assert(magnitude(c) * magnitude(c) == c * c) by (nonlinear_arith)
                requires
                    magnitude(c) == c || magnitude(c) == -c,
            ;
            lemma_root_bounds(magnitude(c), total);
            assert(magnitude(c * COMPONENT_ONE) <= COMPONENT_ONE * length) by (nonlinear_arith)
                requires
                    magnitude(c) <= length,
                    COMPONENT_ONE == 1_000_000_000,
            ;
            lemma_toward_zero_bounds(c * COMPONENT_ONE, length, COMPONENT_ONE as int);
        }
        lemma_normalised_is_unit(scaled, out);
        // a tally of zero stays zero when it is brought to scale
        assert forall|i: int| 0 <= i < scaled.len() && #[trigger] scaled[i] != 0 implies raw[i]
            != 0 by {
            if raw[i] == 0 {
                assert(raw[i] * HEADROOM == 0) by (nonlinear_arith)
                    requires
                        raw[i] == 0,
                ;
                assert(0int / peak(raw) == 0) by (nonlinear_arith)
                    requires
                        peak(raw) > 0,
                ;
            }
        }
        lemma_support_pointwise(scaled, raw);
        lemma_unit_monotone(out, support(scaled), occupied(hashes, width));
        if occupied(hashes, width) <= MOST_ROUNDED {
            lemma_unit_within_tolerance(out, occupied(hashes, width));
        }
    }
}

/// The quotient of `n` by `d`, rounded toward zero.
pub(crate) fn divide_toward_zero(n: i128, d: u128) -> (q: i128)
    requires
        d > 0,
        n > i128::MIN,
    ensures
        q as int == toward_zero(n as int, d as int),
{
    if n >= 0 {
        let q: u128 = (n as u128) / d;
        assert(q <= n) by (nonlinear_arith)
            requires
                q == (n as int) / (d as int),
                n >= 0,
                d > 0,
        ;
        q as i128
    } else {
        let m: u128 = (-n) as u128;
        let q: u128 = m / d;
        assert(q <= m) by (nonlinear_arith)
            requires
                q == (m as int) / (d as int),
                m >= 0,
                d > 0,
        ;
        -(q as i128)
    }
}

/// The embedding that the token hashes yield in `width` slots.
pub fn compute_sketch(hashes: &[u64], width: usize) -> (v: Vec<i32>)
    ensures
        v@ == sketch(hashes@, width as nat),
        v@.len() == width,
        forall|i: int| 0 <= i < v@.len() ==> -COMPONENT_ONE <= #[trigger] v@[i] <= COMPONENT_ONE,
        is_zero_vector(v@) || is_unit_vector(v@, occupied(hashes@, width as nat)),
        !is_zero_vector(v@) && occupied(hashes@, width as nat) <= MOST_ROUNDED ==> (COMPONENT_ONE
            - TOLERANCE) * (COMPONENT_ONE - TOLERANCE) <= norm_sq(v@) <= (COMPONENT_ONE
            + TOLERANCE) * (COMPONENT_ONE + TOLERANCE),
{
    proof {
        lemma_sketch_is_unit_or_zero(hashes@, width as nat);
    }
    let ghost raw = tallies(hashes@, width as nat);
    let n: usize = hashes.len();
    if width == 0 {
        let none: Vec<i32> = Vec::new();
        assert(raw =~= Seq::<int>::empty());
        assert(none@ =~= sketch(hashes@, 0));
        return none;
    }
    // every slot starts at zero
    let mut sums: Vec<i128> = Vec::new();
    let mut i: usize = 0;
    while i < width
        invariant
            i <= width,
            sums@.len() == i,
            forall|s: int| 0 <= s < i ==> sums@[s] == 0,
        decreases width - i,
    {
        sums.push(0);
        i = i + 1;
    }
    // each hash adds its weight to its slot
    let mut k: usize = 0;
    assert(hashes@.take(0) =~= Seq::<u64>::empty());
    while k < n
        invariant
            n == hashes@.len(),
            k <= n,
            width > 0,
            sums@.len() == width,
            forall|s: int|
                0 <= s < width ==> sums@[s] as int == tally(
                    hashes@.take(k as int),
                    width as nat,
                    s,
                ),
        decreases n - k,
    {
        let hash: u64 = hashes[k];
        let slot: usize = (hash % (width as u64)) as usize;
        let size: i128 = (WEIGHT_ONE + hash / WEIGHT_STEP) as i128;
        let signed: i128 = if hash % 2 == 0 {
            size
        } else {
            -size
        };
        proof {
            assert(hashes@.take(k + 1).drop_last() =~= hashes@.take(k as int));
            lemma_tally_bounds(hashes@.take(k as int), width as nat, slot as int);
            assert(k * 0x1_8000 <= 0xffff_ffff_ffff_ffff * 0x1_8000) by (nonlinear_arith)
                requires
                    k <= 0xffff_ffff_ffff_ffff,
            ;
            assert(signed as int == weight(hash));
            assert(slot as int == slot_of(hash, width as nat));
        }
        let updated: i128 = sums[slot] + signed;
        sums.set(slot, updated);
        k = k + 1;
    }
    proof {
        assert(hashes@.take(n as int) =~= hashes@);
        assert forall|s: int| 0 <= s < width implies magnitude(#[trigger] raw[s]) <= n * 0x1_8000 by {
            lemma_tally_bounds(hashes@, width as nat, s);
        }
        assert(n * 0x1_8000 <= 0xffff_ffff_ffff_ffff * 0x1_8000) by (nonlinear_arith)
            requires
                n <= 0xffff_ffff_ffff_ffff,
        ;
    }
    // the largest tally
    let mut top: u128 = 0;
    i = 0;
    assert(raw.take(0) =~= Seq::<int>::empty());
    while i < width
        invariant
            i <= width,
            sums@.len() == width,
            raw.len() == width,
            forall|s: int| 0 <= s < width ==> sums@[s] as int == #[trigger] raw[s],
            forall|s: int|
                0 <= s < width ==> magnitude(#[trigger] raw[s]) <= 0xffff_ffff_ffff_ffff
                    * 0x1_8000,
            top as int == peak(raw.take(i as int)),
        decreases width - i,
    {
        let x: i128 = sums[i];
        proof {
            assert(raw.take(i + 1).drop_last() =~= raw.take(i as int));
            assert(raw.take(i + 1).last() == raw[i as int]);
            assert(magnitude(raw[i as int]) <= 0xffff_ffff_ffff_ffff * 0x1_8000);
        }
        let size: u128 = if x >= 0 {
            x as u128
        } else {
            (-x) as u128
        };
        if size > top {
            top = size;
        }
        i = i + 1;
    }
    proof {
        assert(raw.take(width as int) =~= raw);
    }
    let mut out: Vec<i32> = Vec::new();
    if top == 0 {
        i = 0;
        while i < width
            invariant
                i <= width,
                out@.len() == i,
                forall|s: int| 0 <= s < i ==> out@[s] == 0i32,
            decreases width - i,
        {
            out.push(0);
            i = i + 1;
        }
        assert(out@ =~= sketch(hashes@, width as nat));
        return out;
    }
    // bring the tallies to a common scale and sum their squares
    let ghost scaled = rescaled(raw);
    let mut reduced: Vec<i64> = Vec::new();
    let mut total: u128 = 0;
    i = 0;
    proof {
        lemma_peak(raw);
        assert(scaled.take(0) =~= Seq::<int>::empty());
    }
    while i < width
        invariant
            i <= width,
            sums@.len() == width,
            raw.len() == width,
            scaled == rescaled(raw),
            top as int == peak(raw),
            top > 0,
            forall|s: int| 0 <= s < width ==> sums@[s] as int == #[trigger] raw[s],
            forall|s: int| 0 <= s < width ==> magnitude(#[trigger] raw[s]) <= peak(raw),
            forall|s: int|
                0 <= s < width ==> magnitude(#[trigger] raw[s]) <= 0xffff_ffff_ffff_ffff
                    * 0x1_8000,
            reduced@.len() == i,
            forall|s: int| 0 <= s < i ==> reduced@[s] as int == #[trigger] scaled[s],
            forall|s: int| 0 <= s < i ==> magnitude(#[trigger] scaled[s]) <= HEADROOM,
            total as int == sum_squares(scaled.take(i as int)),
        decreases width - i,
    {
        let x: i128 = sums[i];
        proof {
            assert(magnitude(raw[i as int]) <= 0xffff_ffff_ffff_ffff * 0x1_8000);
            assert(magnitude(raw[i as int]) <= peak(raw));
            let r = raw[i as int];
            assert(magnitude(r * HEADROOM) <= HEADROOM * peak(raw) && magnitude(r * HEADROOM)
                <= 0xffff_ffff_ffff_ffff * 0x1_8000 * 0x4000_0000) by (nonlinear_arith)
                requires
                    magnitude(r) <= peak(raw),
                    magnitude(r) <= 0xffff_ffff_ffff_ffff * 0x1_8000,
                    HEADROOM == 0x4000_0000,
            ;
            lemma_toward_zero_bounds(r * HEADROOM, peak(raw), HEADROOM as int);
        }
        let y: i128 = divide_toward_zero(x * (HEADROOM as i128), top);
        proof {
            assert(y as int == scaled[i as int]);
            assert(scaled.take(i + 1).drop_last() =~= scaled.take(i as int));
            assert(scaled.take(i + 1).last() == scaled[i as int]);
            assert forall|s: int| 0 <= s < scaled.take(i as int).len() implies magnitude(
                #[trigger] scaled.take(i as int)[s],
            ) <= HEADROOM by {
                assert(scaled.take(i as int)[s] == scaled[s]);
            }
            lemma_sum_squares_bound(scaled.take(i as int), HEADROOM as int);
            assert(0 <= y * y <= 0x4000_0000 * 0x4000_0000) by (nonlinear_arith)
                requires
                    -0x4000_0000 <= y <= 0x4000_0000,
            ;
            assert(i * (0x4000_0000 * 0x4000_0000) <= 0xffff_ffff_ffff_ffff * (0x4000_0000
                * 0x4000_0000)) by (nonlinear_arith)
                requires
                    i <= 0xffff_ffff_ffff_ffff,
            ;
        }
        reduced.push(y as i64);
        total = total + (y * y) as u128;
        i = i + 1;
    }
    let length: u128 = integer_sqrt(total) as u128;
    proof {
        assert(scaled.take(width as int) =~= scaled);
        lemma_sum_squares(scaled);
        // the largest tally became HEADROOM, so the length is at least that
        let j = choose|j: int| 0 <= j < raw.len() && magnitude(#[trigger] raw[j]) == peak(raw);
        let r = raw[j];
        assert(magnitude(r * HEADROOM) == HEADROOM * peak(raw)) by (nonlinear_arith)
            requires
                magnitude(r) == peak(raw),
                HEADROOM == 0x4000_0000,
        ;
        lemma_toward_zero_bounds(r * HEADROOM, peak(raw), HEADROOM as int);
        let big = scaled[j];
        assert(magnitude(big) == HEADROOM);
        assert(big * big == HEADROOM * HEADROOM) by (nonlinear_arith)
            requires
                big == HEADROOM || big == -HEADROOM,
        ;
        lemma_root_bounds(HEADROOM as int, sum_squares(scaled));
    }
    i = 0;
    while i < width
        invariant
            i <= width,
            reduced@.len() == width,
            scaled.len() == width,
            length as int == floor_sqrt(sum_squares(scaled)),
            length >= HEADROOM,
            length <= 0xffff_ffff_ffff_ffff,
            forall|s: int| 0 <= s < width ==> reduced@[s] as int == #[trigger] scaled[s],
            forall|s: int| 0 <= s < width ==> magnitude(#[trigger] scaled[s]) <= HEADROOM,
            forall|s: int|
                0 <= s < width ==> (#[trigger] scaled[s]) * scaled[s] <= sum_squares(scaled),
            out@.len() == i,
            forall|s: int| 0 <= s < i ==> out@[s] == #[trigger] normalised(scaled)[s],
            forall|s: int| 0 <= s < i ==> -COMPONENT_ONE <= #[trigger] out@[s] <= COMPONENT_ONE,
        decreases width - i,
    {
        let y: i128 = reduced[i] as i128;
        proof {
            let c = scaled[i as int];
            assert(magnitude(c) <= HEADROOM);
            assert(c * c <= sum_squares(scaled));
            assert(magnitude(c) * magnitude(c) == c * c) by (nonlinear_arith)
                requires
                    magnitude(c) == c || magnitude(c) == -c,
            ;
            lemma_root_bounds(magnitude(c), sum_squares(scaled));
            assert(magnitude(c * COMPONENT_ONE) <= COMPONENT_ONE * length) by (nonlinear_arith)
                requires
                    magnitude(c) <= length,
                    COMPONENT_ONE == 1_000_000_000,
            ;
            lemma_toward_zero_bounds(c * COMPONENT_ONE, length as int, COMPONENT_ONE as int);
            assert(-0x4000_0000 * 1_000_000_000 <= c * COMPONENT_ONE <= 0x4000_0000 * 1_000_000_000)
                by (nonlinear_arith)
                requires
                    -0x4000_0000 <= c <= 0x4000_0000,
                    COMPONENT_ONE == 1_000_000_000,
            ;
        }
        let z: i128 = divide_toward_zero(y * (COMPONENT_ONE as i128), length);
        out.push(z as i32);
        i = i + 1;
    }
    assert(out@ =~= normalised(scaled));
    proof {
        lemma_sketch_is_unit_or_zero(hashes@, width as nat);
    }
    out
}

} // verus!
