//! Feasibility is downward closed in the scale factor.
//!
//! Shrinking the scale can move row boundaries: a row that broke for width at
//! the larger scale may keep growing at the smaller one, so the two greedy
//! runs are compared through an invariant rather than row by row. The
//! invariant bounds the smaller run's "height if the open row closed now"
//! (`kn * (sb + b[rs])`) by the larger run's, with one extra row of slack
//! while the smaller run's open row reaches further back.

use crate::packing::dims_ok;
use crate::packing::feasible_spec;
use crate::packing::greedy;
use crate::packing::lemma_greedy_some_prefix;
use crate::packing::lemma_greedy_wf;
use crate::packing::lemma_seg_sum_mono;
use crate::packing::lemma_seg_sum_nonneg;
use crate::packing::seg_sum;
use crate::packing::mul_dist;
use crate::packing::mul_le;
use crate::packing::mul_nonneg;
use crate::packing::step;
use crate::packing::RowState;
use vstd::prelude::*;

verus! {

/// The comparison carried between the two greedy runs: the smaller scale's
/// closed-plus-open height never exceeds the larger scale's, and while the
/// smaller run's open row started earlier, it keeps room for one more row of
/// its own height.
spec fn mono_inv(kn1: int, kn2: int, b: Seq<int>, st1: RowState, st2: RowState) -> bool {
    &&& kn1 * (st1.sb + b[st1.rs]) <= kn2 * (st2.sb + b[st2.rs])
    &&& st1.rs < st2.rs ==> kn1 * (st1.sb + 2 * b[st1.rs]) <= kn2 * (st2.sb + b[st2.rs])
}

/// Along one greedy run, the height that closing the open row would reach
/// never shrinks: extending a row keeps it, closing a row adds the new row's
/// height.
proof fn lemma_phi_nondecreasing(
    kn: int,
    kd: int,
    a: Seq<int>,
    b: Seq<int>,
    w: int,
    h: int,
    i: int,
    j: int,
)
    requires
        dims_ok(a, b, w, h),
        kn >= 0,
        1 <= i <= j <= a.len(),
        greedy(kn, kd, a, b, w, h, j) is Some,
    ensures
        greedy(kn, kd, a, b, w, h, i) is Some,
        ({
            let sti = greedy(kn, kd, a, b, w, h, i)->Some_0;
            let stj = greedy(kn, kd, a, b, w, h, j)->Some_0;
            kn * (sti.sb + b[sti.rs]) <= kn * (stj.sb + b[stj.rs])
        }),
    decreases j - i,
{
    if i < j {
        lemma_phi_nondecreasing(kn, kd, a, b, w, h, i, j - 1);
        lemma_greedy_wf(kn, kd, a, b, w, h, j - 1);
        let stp = greedy(kn, kd, a, b, w, h, j - 1)->Some_0;
        mul_dist(kn, stp.sb + b[stp.rs], b[j - 1]);
        mul_nonneg(kn, b[j - 1]);
    }
}

/// The two greedy runs, compared prefix by prefix: wherever the larger scale
/// survives, the smaller one survives with `mono_inv` between the states.
proof fn lemma_mono_aux(kn1: int, kn2: int, kd: int, a: Seq<int>, b: Seq<int>, w: int, h: int, i: int)
    requires
        dims_ok(a, b, w, h),
        kd >= 1,
        0 <= kn1 <= kn2,
        feasible_spec(kn2, kd, a, b, w, h),
        1 <= i <= a.len(),
    ensures
        greedy(kn1, kd, a, b, w, h, i) is Some,
        greedy(kn2, kd, a, b, w, h, i) is Some,
        mono_inv(
            kn1,
            kn2,
            b,
            greedy(kn1, kd, a, b, w, h, i)->Some_0,
            greedy(kn2, kd, a, b, w, h, i)->Some_0,
        ),
    decreases i,
{
    let n = a.len() as int;
    lemma_greedy_some_prefix(kn2, kd, a, b, w, h, i, n);
    if i == 1 {
        assert(kn2 * a[0] <= w * kd);
        mul_le(kn1, kn2, a[0], a[0]);
        mul_le(kn1, kn2, b[0], b[0]);
    } else {
        lemma_mono_aux(kn1, kn2, kd, a, b, w, h, i - 1);
        lemma_greedy_wf(kn1, kd, a, b, w, h, i - 1);
        lemma_greedy_wf(kn2, kd, a, b, w, h, i - 1);
        let st1 = greedy(kn1, kd, a, b, w, h, i - 1)->Some_0;
        let st2 = greedy(kn2, kd, a, b, w, h, i - 1)->Some_0;
        let idx = i - 1;
        assert(b[st1.rs] == b[idx - 1]);
        assert(b[st2.rs] == b[idx - 1]);
        let bb = b[st1.rs];
        lemma_phi_nondecreasing(kn2, kd, a, b, w, h, i - 1, n);
        let stl = greedy(kn2, kd, a, b, w, h, n)->Some_0;
        assert(kn2 * (stl.sb + b[stl.rs]) <= h * kd);
        assert(kn2 * (st2.sb + b[st2.rs]) <= h * kd);
        assert(step(kn2, kd, a, b, w, h, st2, idx) is Some);
        assert(kn2 * a[idx] <= w * kd);
        mul_le(kn1, kn2, a[idx], a[idx]);
        if b[idx] == bb {
            let s1 = seg_sum(a, st1.rs, idx + 1);
            let s2 = seg_sum(a, st2.rs, idx + 1);
            if kn1 * s1 <= w * kd {
                // the smaller scale extends its row
                if kn2 * s2 <= w * kd {
                    // so does the larger: both states stand
                } else {
                    // the larger scale closes its row and pays one row height
                    mul_nonneg(kn2, b[idx]);
                    mul_dist(kn2, st2.sb + bb, b[idx]);
                    mul_le(kn1, kn2, bb, bb);
                    mul_dist(kn1, st1.sb + bb, bb);
                    mul_dist(kn2, st2.sb + bb, bb);
                }
            } else {
                // the smaller scale closes its row
                if st1.rs >= st2.rs {
                    // its row reaches at most as far back, so the larger
                    // scale's width test fails as well: both close
                    lemma_seg_sum_nonneg(a, st1.rs, idx + 1);
                    lemma_seg_sum_mono(a, st2.rs, st1.rs, idx + 1);
                    mul_le(kn1, kn2, s1, s2);
                    mul_le(kn1, kn2, b[idx], b[idx]);
                    mul_dist(kn1, st1.sb + bb, b[idx]);
                    mul_dist(kn2, st2.sb + bb, b[idx]);
                } else {
                    if kn2 * s2 <= w * kd {
                        // the smaller scale closes alone and uses up its slack
                        mul_nonneg(kn1, bb);
                    } else {
                        // both close
                        mul_le(kn1, kn2, b[idx], b[idx]);
                        mul_dist(kn1, st1.sb + bb, b[idx]);
                        mul_dist(kn2, st2.sb + bb, b[idx]);
                    }
                }
            }
        } else {
            // a new base height: both scales close their rows
            mul_le(kn1, kn2, b[idx], b[idx]);
            mul_dist(kn1, st1.sb + bb, b[idx]);
            mul_dist(kn2, st2.sb + bb, b[idx]);
        }
    }
}

/// Feasibility is downward closed among scales over one denominator.
proof fn lemma_mono_common(kn1: int, kn2: int, kd: int, a: Seq<int>, b: Seq<int>, w: int, h: int)
    requires
        dims_ok(a, b, w, h),
        kd >= 1,
        0 <= kn1 <= kn2,
        feasible_spec(kn2, kd, a, b, w, h),
    ensures
        feasible_spec(kn1, kd, a, b, w, h),
{
    if a.len() > 0 {
        let n = a.len() as int;
        lemma_mono_aux(kn1, kn2, kd, a, b, w, h, n);
    }
}

/// Scaling numerator and denominator by the same positive factor leaves every
/// comparison the greedy packer makes, and so its state, unchanged.
proof fn lemma_greedy_scale(
    c: int,
    kn: int,
    kd: int,
    a: Seq<int>,
    b: Seq<int>,
    w: int,
    h: int,
    i: int,
)
    requires
        c >= 1,
        1 <= i,
    ensures
        greedy(c * kn, c * kd, a, b, w, h, i) == greedy(kn, kd, a, b, w, h, i),
    decreases i,
{
    if i <= 1 {
        assert(((c * kn) * a[0] > w * (c * kd)) == (kn * a[0] > w * kd)) by (nonlinear_arith)
            requires
                c >= 1,
        ;
    } else {
        lemma_greedy_scale(c, kn, kd, a, b, w, h, i - 1);
        match greedy(kn, kd, a, b, w, h, i - 1) {
            None => {},
            Some(st) => {
                let idx = i - 1;
                let s = seg_sum(a, st.rs, idx + 1);
                assert(((c * kn) * a[idx] > w * (c * kd)) == (kn * a[idx] > w * kd))
                    by (nonlinear_arith)
                    requires
                        c >= 1,
                ;
                assert(((c * kn) * s <= w * (c * kd)) == (kn * s <= w * kd)) by (nonlinear_arith)
                    requires
                        c >= 1,
                ;
                assert(((c * kn) * (st.sb + b[st.rs]) > h * (c * kd)) == (kn * (st.sb + b[st.rs])
                    > h * kd)) by (nonlinear_arith)
                    requires
                        c >= 1,
                ;
            },
        }
    }
}

/// A rational scale factor can be brought to any common denominator without
/// changing feasibility.
pub proof fn lemma_feasible_scale(c: int, kn: int, kd: int, a: Seq<int>, b: Seq<int>, w: int, h: int)
    requires
        c >= 1,
    ensures
        feasible_spec(c * kn, c * kd, a, b, w, h) == feasible_spec(kn, kd, a, b, w, h),
{
    if a.len() > 0 {
        let n = a.len() as int;
        lemma_greedy_scale(c, kn, kd, a, b, w, h, n);
        match greedy(kn, kd, a, b, w, h, n) {
            None => {},
            Some(st) => {
                assert(((c * kn) * (st.sb + b[st.rs]) <= h * (c * kd)) == (kn * (st.sb
                    + b[st.rs]) <= h * kd)) by (nonlinear_arith)
                    requires
                        c >= 1,
                ;
            },
        }
    }
}

/// Feasibility is downward closed in the scale factor: if the rational
/// `kn2 / kd2` is feasible, so is every smaller non-negative rational
/// `kn1 / kd1`. (`kn1 * kd2 <= kn2 * kd1` says `kn1 / kd1 <= kn2 / kd2`.)
pub proof fn lemma_feasible_monotone(
    kn1: int,
    kd1: int,
    kn2: int,
    kd2: int,
    a: Seq<int>,
    b: Seq<int>,
    w: int,
    h: int,
)
    requires
        dims_ok(a, b, w, h),
        kd1 >= 1,
        kd2 >= 1,
        kn1 >= 0,
        kn1 * kd2 <= kn2 * kd1,
        feasible_spec(kn2, kd2, a, b, w, h),
    ensures
        feasible_spec(kn1, kd1, a, b, w, h),
{
    lemma_feasible_scale(kd1, kn2, kd2, a, b, w, h);
    assert(kd1 * kn2 == kn2 * kd1) by (nonlinear_arith);
    assert(kd1 * kd2 == kd2 * kd1) by (nonlinear_arith);
    mul_nonneg(kn1, kd2);
    assert(kd1 * kd2 >= 1) by (nonlinear_arith)
        requires
            kd1 >= 1,
            kd2 >= 1,
    ;
    lemma_mono_common(kn1 * kd2, kn2 * kd1, kd1 * kd2, a, b, w, h);
    lemma_feasible_scale(kd2, kn1, kd1, a, b, w, h);
    assert(kd2 * kn1 == kn1 * kd2) by (nonlinear_arith);
}

} // verus!
