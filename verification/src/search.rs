//! The bounded search driver: the largest feasible scale factor, exactly.
//!
//! The driver searches over numerators at the fixed denominator `SCALE`. Its
//! interval always keeps a feasible lower end and an infeasible upper end, so
//! halving it needs no assumption; monotonicity then turns the final
//! `feasible(low)` and `!feasible(low + 1)` into a characterisation of `low`
//! as the largest feasible numerator. The run is deterministic and bounded:
//! the interval starts at `[0, w * SCALE + 1]` and one halving per step ends
//! it within about a hundred probes, at the exact boundary rather than at a
//! floating-point tolerance.

use crate::monotone::lemma_feasible_monotone;
use crate::packing::dims_ok;
use crate::packing::feasible;
use crate::packing::feasible_spec;
use crate::packing::greedy;
use crate::packing::ints;
use crate::packing::lemma_greedy_none_persists;
use crate::packing::lemma_zero_feasible;
use crate::packing::mul_le;
use crate::packing::mul_nonneg;
use crate::packing::no_overflow;
use vstd::prelude::*;

verus! {

/// The fixed denominator of the search: the answer is a count of trillionths.
pub const SCALE: u128 = 1000000000000;

/// A scale above `w * kd` cannot fit: already the first rectangle, of width
/// at least one unit, is wider than the box.
proof fn lemma_cap_infeasible(kn: int, kd: int, a: Seq<int>, b: Seq<int>, w: int, h: int)
    requires
        dims_ok(a, b, w, h),
        a.len() >= 1,
        kn >= 0,
        kn > w * kd,
    ensures
        !feasible_spec(kn, kd, a, b, w, h),
{
    mul_le(kn, kn, 1, a[0]);
    assert(greedy(kn, kd, a, b, w, h, 1) is None);
    lemma_greedy_none_persists(kn, kd, a, b, w, h, 1, a.len() as int);
}

/// The overflow bound is downward closed in the numerator.
proof fn lemma_no_overflow_mono(
    kn1: int,
    kn2: int,
    kd: int,
    a: Seq<int>,
    b: Seq<int>,
    w: int,
    h: int,
)
    requires
        0 <= kn1 <= kn2,
        forall|i: int| 0 <= i < a.len() ==> #[trigger] a[i] >= 0,
        forall|i: int| 0 <= i < b.len() ==> #[trigger] b[i] >= 0,
        no_overflow(kn2, kd, a, b, w, h),
    ensures
        no_overflow(kn1, kd, a, b, w, h),
{
    assert forall|i: int| 0 <= i < a.len() implies kn1 * #[trigger] a[i] + w * kd <= u128::MAX
        as int by {
        mul_le(kn1, kn2, a[i], a[i]);
    }
    assert forall|i: int| 0 <= i < b.len() implies kn1 * #[trigger] b[i] + h * kd <= u128::MAX
        as int by {
        mul_le(kn1, kn2, b[i], b[i]);
    }
}

/// The largest feasible scale numerator over the denominator `SCALE`, by
/// interval halving: the result is feasible and everything above it is not.
pub fn solve(a: &Vec<u64>, b: &Vec<u64>, w: u64, h: u64) -> (r: u128)
    requires
        dims_ok(ints(a@), ints(b@), w as int, h as int),
        a@.len() >= 1,
        no_overflow(
            (w as int) * (SCALE as int) + 1,
            SCALE as int,
            ints(a@),
            ints(b@),
            w as int,
            h as int,
        ),
    ensures
        r as int <= (w as int) * (SCALE as int),
        forall|m: int|
            0 <= m <= r as int ==> feasible_spec(m, SCALE as int, ints(a@), ints(b@), w as int, h as int),
        forall|m: int|
            m > r as int ==> !feasible_spec(m, SCALE as int, ints(a@), ints(b@), w as int, h as int),
{
    let ghost ga = ints(a@);
    let ghost gb = ints(b@);
    proof {
        assert(ga[0] == a@[0] as int);
        assert((w as int) * (SCALE as int) + 1 <= ((w as int) * (SCALE as int) + 1) * ga[0])
            by (nonlinear_arith)
            requires
                ga[0] >= 1,
                (w as int) * (SCALE as int) >= 0,
        ;
        assert((w as int) * (SCALE as int) >= 0) by (nonlinear_arith)
            requires
                w >= 0,
        ;
    }
    let ws: u128 = (w as u128) * SCALE;
    let mut low: u128 = 0;
    let mut high: u128 = ws + 1;
    proof {
        lemma_zero_feasible(SCALE as int, ga, gb, w as int, h as int);
        lemma_cap_infeasible(high as int, SCALE as int, ga, gb, w as int, h as int);
    }
    while low + 1 < high
        invariant
            low < high,
            high as int <= (w as int) * (SCALE as int) + 1,
            ga == ints(a@),
            gb == ints(b@),
            dims_ok(ga, gb, w as int, h as int),
            a@.len() >= 1,
            no_overflow((w as int) * (SCALE as int) + 1, SCALE as int, ga, gb, w as int, h as int),
            feasible_spec(low as int, SCALE as int, ga, gb, w as int, h as int),
            !feasible_spec(high as int, SCALE as int, ga, gb, w as int, h as int),
        decreases high - low,
    {
        let mid: u128 = low + (high - low) / 2;
        proof {
            lemma_no_overflow_mono(
                mid as int,
                (w as int) * (SCALE as int) + 1,
                SCALE as int,
                ga,
                gb,
                w as int,
                h as int,
            );
        }
        if feasible(mid, SCALE, a, b, w, h) {
            low = mid;
        } else {
            high = mid;
        }
    }
    proof {
        assert forall|m: int| 0 <= m <= low as int implies feasible_spec(
            m,
            SCALE as int,
            ga,
            gb,
            w as int,
            h as int,
        ) by {
            mul_le(m, low as int, SCALE as int, SCALE as int);
            lemma_feasible_monotone(
                m,
                SCALE as int,
                low as int,
                SCALE as int,
                ga,
                gb,
                w as int,
                h as int,
            );
        }
        assert forall|m: int| m > low as int implies !feasible_spec(
            m,
            SCALE as int,
            ga,
            gb,
            w as int,
            h as int,
        ) by {
            if feasible_spec(m, SCALE as int, ga, gb, w as int, h as int) {
                mul_le(low as int + 1, m, SCALE as int, SCALE as int);
                lemma_feasible_monotone(
                    low as int + 1,
                    SCALE as int,
                    m,
                    SCALE as int,
                    ga,
                    gb,
                    w as int,
                    h as int,
                );
            }
        }
    }
    low
}

/// Like `solve`, but with the driver's preconditions checked at run time:
/// `None` exactly when the input is malformed (lists misaligned or empty, a
/// zero dimension) or too large for exact arithmetic, otherwise the largest
/// feasible numerator.
pub fn try_solve(a: &Vec<u64>, b: &Vec<u64>, w: u64, h: u64) -> (r: Option<u128>)
    ensures
        r is Some <==> (dims_ok(ints(a@), ints(b@), w as int, h as int) && a@.len() >= 1
            && no_overflow(
            (w as int) * (SCALE as int) + 1,
            SCALE as int,
            ints(a@),
            ints(b@),
            w as int,
            h as int,
        )),
        r is Some ==> r->Some_0 as int <= (w as int) * (SCALE as int),
        r is Some ==> forall|m: int|
            0 <= m <= r->Some_0 as int ==> feasible_spec(
                m,
                SCALE as int,
                ints(a@),
                ints(b@),
                w as int,
                h as int,
            ),
        r is Some ==> forall|m: int|
            m > r->Some_0 as int ==> !feasible_spec(
                m,
                SCALE as int,
                ints(a@),
                ints(b@),
                w as int,
                h as int,
            ),
{
    let ghost ga = ints(a@);
    let ghost gb = ints(b@);
    let n: usize = a.len();
    if n == 0 || n != b.len() || w == 0 || h == 0 {
        return None;
    }
    proof {
        assert((w as int) * (SCALE as int) <= u128::MAX as int) by (nonlinear_arith)
            requires
                0 <= w <= u64::MAX,
        ;
        assert((h as int) * (SCALE as int) <= u128::MAX as int) by (nonlinear_arith)
            requires
                0 <= h <= u64::MAX,
        ;
        assert((w as int) * (SCALE as int) + 1 <= u128::MAX as int) by (nonlinear_arith)
            requires
                0 <= w <= u64::MAX,
        ;
    }
    let ws: u128 = (w as u128) * SCALE;
    let hs: u128 = (h as u128) * SCALE;
    let cap: u128 = ws + 1;
    let mut i: usize = 0;
    while i < n
        invariant
            0 <= i <= n,
            n == a@.len(),
            a@.len() == b@.len(),
            w >= 1,
            h >= 1,
            ga == ints(a@),
            gb == ints(b@),
            ws as int == (w as int) * (SCALE as int),
            hs as int == (h as int) * (SCALE as int),
            cap as int == (w as int) * (SCALE as int) + 1,
            forall|j: int| 0 <= j < i ==> #[trigger] ga[j] >= 1 && gb[j] >= 1,
            forall|j: int|
                0 <= j < i ==> (cap as int) * #[trigger] ga[j] + (w as int) * (SCALE as int)
                    <= u128::MAX as int,
            forall|j: int|
                0 <= j < i ==> (cap as int) * #[trigger] gb[j] + (h as int) * (SCALE as int)
                    <= u128::MAX as int,
        decreases n - i,
    {
        let ai: u64 = a[i];
        let bi: u64 = b[i];
        proof {
            assert(ga[i as int] == a@[i as int] as int);
            assert(gb[i as int] == b@[i as int] as int);
        }
        if ai == 0 || bi == 0 {
            return None;
        }
        let pa: u128 = match cap.checked_mul(ai as u128) {
            None => {
                return None;
            },
            Some(p) => p,
        };
        if pa > u128::MAX - ws {
            return None;
        }
        let pb: u128 = match cap.checked_mul(bi as u128) {
            None => {
                return None;
            },
            Some(p) => p,
        };
        if pb > u128::MAX - hs {
            return None;
        }
        i = i + 1;
    }
    Some(solve(a, b, w, h))
}

/// The answer numerator, rounded from trillionths to ten-billionths (half
/// away from zero) and split into its whole part and its ten fractional
/// digits, ready for printing as a fixed ten-place decimal.
pub fn rounded_parts(m: u128) -> (r: (u128, u128))
    requires
        m as int + 50 <= u128::MAX as int,
    ensures
        r.0 as int == (m as int + 50) / 100 / 10000000000,
        r.1 as int == (m as int + 50) / 100 % 10000000000,
        r.1 < 10000000000,
{
    let t: u128 = (m + 50) / 100;
    (t / 10000000000, t % 10000000000)
}

} // verus!
