//! Quantized vectors and the squared distance between them.

use vstd::prelude::*;

verus! {

/// Number of features of a transaction.
pub const DIM: usize = 14;

/// Number of lanes of a quantized vector: the features, then zeros.
pub const DIM_PAD: usize = 16;

/// A quantized vector.
pub type Vec14I = [i16; DIM_PAD];

/// The quantized value of a missing feature.
pub const SENTINEL_I16: i16 = -32767;

/// The quantized value of a feature at the top of its range.
pub const QUANT_SCALE: i16 = 32767;

/// The square of the difference in one lane.
pub open spec fn lane_sq(a: Seq<i16>, b: Seq<i16>, i: int) -> int {
    (a[i] - b[i]) * (a[i] - b[i])
}

/// The sum of the squared differences in the first `n` lanes.
pub open spec fn l2sq_lanes(a: Seq<i16>, b: Seq<i16>, n: nat) -> int
    decreases n,
{
    if n == 0 {
        0
    } else {
        l2sq_lanes(a, b, (n - 1) as nat) + lane_sq(a, b, n - 1)
    }
}

/// The squared Euclidean distance of two quantized vectors.
pub open spec fn l2sq(a: Seq<i16>, b: Seq<i16>) -> int {
    l2sq_lanes(a, b, DIM_PAD as nat)
}

/// The largest possible squared difference in a lane.
pub const LANE_SQ_MAX: u64 = 0xfffe_0001;

proof fn lemma_lane_sq(x: i16, y: i16)
    ensures
        0 <= (x - y) * (x - y) <= LANE_SQ_MAX,
        (x - y) * (x - y) == 0 <==> x == y,
        (x - y) * (x - y) == (y - x) * (y - x),
{
    let d = x - y;
    assert(-0xffff <= d <= 0xffff);
    assert(0 <= d * d <= 0xfffe_0001) by (nonlinear_arith)
        requires
            -0xffff <= d <= 0xffff,
    ;
    assert(d * d == 0 <==> d == 0) by (nonlinear_arith);
    assert(d * d == (-d) * (-d)) by (nonlinear_arith);
}

/// The distance over `n` lanes is non-negative and at most `n` times the
/// largest lane square.
pub proof fn distance_is_bounded(a: Seq<i16>, b: Seq<i16>, n: nat)
    ensures
        0 <= l2sq_lanes(a, b, n) <= n * LANE_SQ_MAX,
    decreases n,
{
    if n > 0 {
        distance_is_bounded(a, b, (n - 1) as nat);
        lemma_lane_sq(a[n - 1], b[n - 1]);
    }
}

/// The distance is the same in both directions.
pub proof fn distance_is_symmetric(a: Seq<i16>, b: Seq<i16>, n: nat)
    ensures
        l2sq_lanes(a, b, n) == l2sq_lanes(b, a, n),
    decreases n,
{
    if n > 0 {
        distance_is_symmetric(a, b, (n - 1) as nat);
        lemma_lane_sq(a[n - 1], b[n - 1]);
    }
}

/// The distance is zero exactly between vectors that agree in every lane.
pub proof fn distance_is_zero_iff_equal(a: Seq<i16>, b: Seq<i16>, n: nat)
    ensures
        l2sq_lanes(a, b, n) == 0 <==> (forall|i: int| 0 <= i < n ==> a[i] == b[i]),
    decreases n,
{
    if n > 0 {
        distance_is_bounded(a, b, (n - 1) as nat);
        distance_is_zero_iff_equal(a, b, (n - 1) as nat);
        lemma_lane_sq(a[n - 1], b[n - 1]);
    }
}

/// Between padded vectors the padding lanes add nothing: the distance is that
/// of the features.
pub proof fn padding_adds_no_distance(a: Seq<i16>, b: Seq<i16>)
    requires
        forall|i: int| DIM <= i < DIM_PAD ==> a[i] == 0 && b[i] == 0,
    ensures
        l2sq(a, b) == l2sq_lanes(a, b, DIM as nat),
{
    reveal_with_fuel(l2sq_lanes, 3);
    assert(a[14] == 0 && b[14] == 0 && a[15] == 0 && b[15] == 0);
}

/// Lays the quantized features out as a vector; the padding lanes are zero.
pub fn pad_lanes(lanes: &[i16; DIM]) -> (q: Vec14I)
    ensures
        forall|i: int| 0 <= i < DIM ==> q[i] == lanes[i],
        forall|i: int| DIM <= i < DIM_PAD ==> q[i] == 0,
{
    let mut q: Vec14I = [0; 16];
    for i in 0..DIM
        invariant
            forall|j: int| 0 <= j < i ==> q[j] == lanes[j],
            forall|j: int| i <= j < DIM_PAD ==> q[j] == 0,
    {
        q[i] = lanes[i];
    }
    q
}

/// The squared distance of two quantized vectors.
pub fn l2sq_i16(a: &Vec14I, b: &Vec14I) -> (d: u64)
    ensures
        d == l2sq(a@, b@),
{
    l2sq_i16_avx2(a, b)
}

/// The squared distance of two quantized vectors, lane after lane.
pub fn l2sq_i16_scalar(a: &Vec14I, b: &Vec14I) -> (sum: u64)
    ensures
        sum == l2sq(a@, b@),
{
    let mut sum: u64 = 0;
    for i in 0..DIM_PAD
        invariant
            sum == l2sq_lanes(a@, b@, i as nat),
            sum <= i * LANE_SQ_MAX,
    {
        let d: i64 = (a[i] as i32 - b[i] as i32) as i64;
        proof {
            lemma_lane_sq(a[i as int], b[i as int]);
        }
        sum += (d * d) as u64;
    }
    sum
}

/// The differences of eight neighbouring lanes, from lane `first` on.
fn lane_gaps(a: &Vec14I, b: &Vec14I, first: usize) -> (gaps: [i32; 8])
    requires
        first + 8 <= DIM_PAD,
    ensures
        forall|j: int| 0 <= j < 8 ==> gaps[j] == a[first + j] - b[first + j],
{
    let mut gaps: [i32; 8] = [0; 8];
    for j in 0..8usize
        invariant
            first + 8 <= DIM_PAD,
            forall|i: int| 0 <= i < j ==> gaps[i] == a[first + i] - b[first + i],
    {
        gaps[j] = a[first + j] as i32 - b[first + j] as i32;
    }
    gaps
}

/// The square of a lane difference.
fn gap_sq(gap: i32) -> (sq: i64)
    requires
        -0xffff <= gap <= 0xffff,
    ensures
        sq == gap * gap,
        0 <= sq <= LANE_SQ_MAX,
{
    assert(0 <= gap * gap <= 0xfffe_0001) by (nonlinear_arith)
        requires
            -0xffff <= gap <= 0xffff,
    ;
    (gap as i64) * (gap as i64)
}

/// The squared distance of two quantized vectors, added up in the order of a
/// 256-bit vector unit: the lower and the upper eight lanes side by side, even
/// and odd lanes apart, in four partial sums that are folded in two steps.
pub fn l2sq_i16_avx2(a: &Vec14I, b: &Vec14I) -> (d: u64)
    ensures
        d == l2sq(a@, b@),
{
    let d_lo = lane_gaps(a, b, 0);
    let d_hi = lane_gaps(a, b, 8);

    let mut total: [i64; 4] = [0; 4];
    for lane in 0..4usize
        invariant
            forall|j: int| 0 <= j < 8 ==> d_lo[j] == a[j] - b[j],
            forall|j: int| 0 <= j < 8 ==> d_hi[j] == a[8 + j] - b[8 + j],
            forall|l: int|
                0 <= l < lane ==> 0 <= #[trigger] total[l] <= 4 * LANE_SQ_MAX && total[l]
                    == lane_sq(a@, b@, 2 * l) + lane_sq(a@, b@, 2 * l + 1) + lane_sq(
                    a@,
                    b@,
                    8 + 2 * l,
                ) + lane_sq(a@, b@, 9 + 2 * l),
    {
        let lo_even = gap_sq(d_lo[2 * lane]);
        let lo_odd = gap_sq(d_lo[2 * lane + 1]);
        let hi_even = gap_sq(d_hi[2 * lane]);
        let hi_odd = gap_sq(d_hi[2 * lane + 1]);
        total[lane] = (lo_even + lo_odd) + (hi_even + hi_odd);
    }

    let t: i64 = total[0] + total[2];
    let high: i64 = total[1] + total[3];
    proof {
        reveal_with_fuel(l2sq_lanes, 17);
    }
    (t + high) as u64
}

/// The distance is the sum, over the sixteen lanes, of the squared differences.
pub proof fn distance_is_the_sum_of_squares(a: Seq<i16>, b: Seq<i16>)
    ensures
        l2sq(a, b) == (a[0] - b[0]) * (a[0] - b[0]) + (a[1] - b[1]) * (a[1] - b[1]) + (a[2]
            - b[2]) * (a[2] - b[2]) + (a[3] - b[3]) * (a[3] - b[3]) + (a[4] - b[4]) * (a[4]
            - b[4]) + (a[5] - b[5]) * (a[5] - b[5]) + (a[6] - b[6]) * (a[6] - b[6]) + (a[7]
            - b[7]) * (a[7] - b[7]) + (a[8] - b[8]) * (a[8] - b[8]) + (a[9] - b[9]) * (a[9]
            - b[9]) + (a[10] - b[10]) * (a[10] - b[10]) + (a[11] - b[11]) * (a[11] - b[11]) + (
        a[12] - b[12]) * (a[12] - b[12]) + (a[13] - b[13]) * (a[13] - b[13]) + (a[14] - b[14]) * (
        a[14] - b[14]) + (a[15] - b[15]) * (a[15] - b[15]),
{
    reveal_with_fuel(l2sq_lanes, 17);
}

/// Each lane adds its own squared difference: the distance over one lane more
/// is larger by that, whatever the values in the lane.
pub proof fn each_lane_adds_its_square(a: Seq<i16>, b: Seq<i16>, n: nat)
    ensures
        l2sq_lanes(a, b, 0) == 0,
        l2sq_lanes(a, b, n + 1) - l2sq_lanes(a, b, n) == (a[n as int] - b[n as int]) * (a[n as int]
            - b[n as int]),
{
}

proof fn lemma_only_lane(a: Seq<i16>, b: Seq<i16>, i: int, n: nat)
    requires
        0 <= i,
        forall|j: int| 0 <= j < n && j != i ==> #[trigger] a[j] == b[j],
    ensures
        l2sq_lanes(a, b, n) == if i < n {
            (a[i] - b[i]) * (a[i] - b[i])
        } else {
            0
        },
    decreases n,
{
    if n > 0 {
        lemma_only_lane(a, b, i, (n - 1) as nat);
        lemma_lane_sq(a[n - 1], b[n - 1]);
    }
}

/// Between vectors that differ in one lane only, the distance is the square of
/// the difference in that lane.
pub proof fn distance_across_one_lane(a: Seq<i16>, b: Seq<i16>, i: int)
    requires
        0 <= i < DIM_PAD,
        forall|j: int| 0 <= j < DIM_PAD && j != i ==> #[trigger] a[j] == b[j],
    ensures
        l2sq(a, b) == (a[i] - b[i]) * (a[i] - b[i]),
{
    lemma_only_lane(a, b, i, DIM_PAD as nat);
}

/// The distance depends on the differences alone: two pairs of vectors that
/// differ by the same amounts are equally far apart.
pub proof fn distance_depends_on_differences(
    a: Seq<i16>,
    b: Seq<i16>,
    c: Seq<i16>,
    d: Seq<i16>,
    n: nat,
)
    requires
        forall|j: int| 0 <= j < n ==> (#[trigger] a[j]) - b[j] == c[j] - d[j],
    ensures
        l2sq_lanes(a, b, n) == l2sq_lanes(c, d, n),
    decreases n,
{
    if n > 0 {
        distance_depends_on_differences(a, b, c, d, (n - 1) as nat);
        assert(a[n - 1] - b[n - 1] == c[n - 1] - d[n - 1]);
    }
}

} // verus!
