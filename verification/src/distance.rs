//! Squared Euclidean distance between quantized vectors.
//!
//! A vector has sixteen 16-bit coordinates: feature values in `[-1, 1]` times
//! [`SCALE`]. Distances are accumulated in `i64`, so they are exact, and no
//! square root is ever taken: the squared distance preserves the ordering.
use vstd::prelude::*;

verus! {

/// Fixed-point scale of the quantized coordinates.
pub const SCALE: i16 = 10_000;

/// Square of the difference of two coordinates.
pub open spec fn square_diff(x: i16, y: i16) -> int {
    (x - y) * (x - y)
}

/// Squared distance over the first `n` coordinates.
pub open spec fn partial_distance(a: Seq<i16>, b: Seq<i16>, n: nat) -> int
    decreases n,
{
    if n == 0 {
        0
    } else {
        partial_distance(a, b, (n - 1) as nat) + square_diff(a[n - 1], b[n - 1])
    }
}

/// Squared Euclidean distance between two vectors of sixteen coordinates.
pub open spec fn distance(a: Seq<i16>, b: Seq<i16>) -> int {
    partial_distance(a, b, 16)
}

/// No squared distance exceeds this: sixteen times the square of the full
/// range of a coordinate.
pub open spec fn max_distance() -> int {
    16int * 4_294_836_225
}

/// A squared difference of coordinates lies in `[0, 65535²]`, and is
/// zero only between equal coordinates.
pub proof fn lemma_square_diff(x: i16, y: i16)
    ensures
        0 <= square_diff(x, y) <= 4_294_836_225,
        square_diff(x, y) == square_diff(y, x),
        square_diff(x, y) == 0 <==> x == y,
{
    let d = x - y;
    assert(0 <= d * d <= 4_294_836_225) by (nonlinear_arith)
        requires
            -65535 <= d <= 65535,
    ;
    assert(d * d == (y - x) * (y - x)) by (nonlinear_arith)
        requires
            d == x - y,
    ;
    assert(d * d == 0 <==> d == 0) by (nonlinear_arith);
}

/// Partial distances lie in `[0, 4_294_836_225 * n]`.
pub proof fn lemma_partial_distance_bounds(a: Seq<i16>, b: Seq<i16>, n: nat)
    ensures
        0 <= partial_distance(a, b, n) <= 4_294_836_225 * n,
    decreases n,
{
    if n > 0 {
        lemma_partial_distance_bounds(a, b, (n - 1) as nat);
        lemma_square_diff(a[n - 1], b[n - 1]);
    }
}

proof fn lemma_partial_distance_symmetric(a: Seq<i16>, b: Seq<i16>, n: nat)
    ensures
        partial_distance(a, b, n) == partial_distance(b, a, n),
    decreases n,
{
    if n > 0 {
        lemma_partial_distance_symmetric(a, b, (n - 1) as nat);
        lemma_square_diff(a[n - 1], b[n - 1]);
    }
}

proof fn lemma_partial_distance_zero(a: Seq<i16>, b: Seq<i16>, n: nat)
    ensures
        partial_distance(a, b, n) == 0 <==> forall|i: int| 0 <= i < n ==> a[i] == b[i],
    decreases n,
{
    if n > 0 {
        lemma_partial_distance_zero(a, b, (n - 1) as nat);
        lemma_partial_distance_bounds(a, b, (n - 1) as nat);
        lemma_square_diff(a[n - 1], b[n - 1]);
    }
}

/// The squared distance fits an `i64` with room to spare, is symmetric, and is
/// zero exactly between equal vectors.
pub proof fn lemma_distance(a: Seq<i16>, b: Seq<i16>)
    requires
        a.len() == 16,
        b.len() == 16,
    ensures
        0 <= distance(a, b) <= max_distance(),
        distance(a, b) == distance(b, a),
        distance(a, b) == 0 <==> a == b,
{
    lemma_partial_distance_bounds(a, b, 16);
    lemma_partial_distance_symmetric(a, b, 16);
    lemma_partial_distance_zero(a, b, 16);
    if distance(a, b) == 0 {
        assert(a =~= b);
    }
}

/// Squared Euclidean distance between two quantized vectors.
pub fn squared_euclidean_i16(a: &[i16; 16], b: &[i16; 16]) -> (d: i64)
    ensures
        d == distance(a@, b@),
{
    let mut acc: i64 = 0;
    for i in 0..16usize
        invariant
            acc == partial_distance(a@, b@, i as nat),
            0 <= acc <= 4_294_836_225 * i,
    {
        let d: i64 = a[i] as i64 - b[i] as i64;
        proof {
            lemma_square_diff(a@[i as int], b@[i as int]);
        }
        acc = acc + d * d;
    }
    acc
}

/// Distances from one query to a contiguous run of vectors, written to the
/// front of `out`; whatever `out` holds behind them stays.
pub fn distances_to_slice_i16(query: &[i16; 16], vectors: &[[i16; 16]], out: &mut [i64])
    requires
        vectors@.len() <= old(out)@.len(),
    ensures
        final(out)@.len() == old(out)@.len(),
        forall|i: int|
            0 <= i < vectors@.len() ==> #[trigger] final(out)@[i] == distance(query@, vectors@[i]@),
        forall|i: int|
            vectors@.len() <= i < old(out)@.len() ==> #[trigger] final(out)@[i] == old(out)@[i],
{
    for i in 0..vectors.len()
        invariant
            vectors@.len() <= old(out)@.len(),
            out@.len() == old(out)@.len(),
            forall|j: int| 0 <= j < i ==> #[trigger] out@[j] == distance(query@, vectors@[j]@),
            forall|j: int| i <= j < old(out)@.len() ==> #[trigger] out@[j] == old(out)@[j],
    {
        out[i] = squared_euclidean_i16(query, &vectors[i]);
    }
}

proof fn lemma_partial_distance_moves(a: Seq<i16>, b: Seq<i16>, i: int, x: i16, n: nat)
    requires
        a.len() == 16,
        0 <= i < 16,
        n <= 16,
    ensures
        partial_distance(a.update(i, x), b, n) - partial_distance(a, b, n) == if i < n {
            (x - b[i]) * (x - b[i]) - (a[i] - b[i]) * (a[i] - b[i])
        } else {
            0
        },
    decreases n,
{
    if n > 0 {
        lemma_partial_distance_moves(a, b, i, x, (n - 1) as nat);
    }
}

/// Every coordinate counts by the square of its difference, and counts alike: moving one
/// coordinate of a vector changes the squared distance by the change of that square.
/// Between equal vectors the distance is zero, so nothing else goes into it.
pub proof fn lemma_distance_moves(a: Seq<i16>, b: Seq<i16>, i: int, x: i16)
    requires
        a.len() == 16,
        b.len() == 16,
        0 <= i < 16,
    ensures
        distance(a.update(i, x), b) - distance(a, b) == (x - b[i]) * (x - b[i]) - (a[i] - b[i]) * (
        a[i] - b[i]),
        distance(a, a) == 0,
{
    lemma_partial_distance_moves(a, b, i, x, 16);
    lemma_partial_distance_zero(a, a, 16);
}

} // verus!
