//! The feasibility evaluator: greedy row packing at a fixed rational scale.
//!
//! All dimensions are positive integers (callers scale decimal inputs by a
//! common power of ten, which leaves feasibility unchanged), and the scale
//! factor is the rational `kn / kd`. Every comparison the packer makes is a
//! comparison of `kn * x` with `y * kd`, so the whole computation is exact.

use vstd::prelude::*;

verus! {

/// The mathematical view of a list of scaled dimensions.
pub open spec fn ints(v: Seq<u64>) -> Seq<int> {
    v.map_values(|x: u64| x as int)
}

/// Sum of the entries `s[lo..hi)`.
pub open spec fn seg_sum(s: Seq<int>, lo: int, hi: int) -> int
    decreases hi - lo,
{
    if lo >= hi {
        0
    } else {
        seg_sum(s, lo, hi - 1) + s[hi - 1]
    }
}

/// The two dimension lists are aligned, and every entry, as well as the box,
/// is positive.
pub open spec fn dims_ok(a: Seq<int>, b: Seq<int>, w: int, h: int) -> bool {
    &&& a.len() == b.len()
    &&& w >= 1
    &&& h >= 1
    &&& forall|i: int| 0 <= i < a.len() ==> a[i] >= 1 && b[i] >= 1
}

/// The greedy packer's state after some non-empty prefix of the rectangles:
/// one row is always open.
pub struct RowState {
    /// Index of the first rectangle of the open row.
    pub rs: int,
    /// Sum of the base heights of the closed rows.
    pub sb: int,
}

/// One step of the greedy packer at scale `kn / kd`: from the state reached
/// after rectangles `[0, i)`, place rectangle `i`. `None` means the layout
/// cannot fit: the rectangle alone is wider than the box, or the total height
/// already exceeds the box when a row closes.
pub open spec fn step(
    kn: int,
    kd: int,
    a: Seq<int>,
    b: Seq<int>,
    w: int,
    h: int,
    st: RowState,
    i: int,
) -> Option<RowState> {
    if kn * a[i] > w * kd {
        None
    } else if b[i] == b[st.rs] && kn * seg_sum(a, st.rs, i + 1) <= w * kd {
        Some(st)
    } else if kn * (st.sb + b[st.rs]) > h * kd {
        None
    } else {
        Some(RowState { rs: i, sb: st.sb + b[st.rs] })
    }
}

/// The greedy packer's state after the first `i` rectangles, `1 <= i`.
pub open spec fn greedy(
    kn: int,
    kd: int,
    a: Seq<int>,
    b: Seq<int>,
    w: int,
    h: int,
    i: int,
) -> Option<RowState>
    decreases i,
{
    if i <= 1 {
        if kn * a[0] > w * kd {
            None
        } else {
            Some(RowState { rs: 0, sb: 0 })
        }
    } else {
        match greedy(kn, kd, a, b, w, h, i - 1) {
            None => None,
            Some(st) => step(kn, kd, a, b, w, h, st, i - 1),
        }
    }
}

/// Scaling every rectangle by `kn / kd` and packing greedily in input order
/// yields a layout inside the `w` by `h` box. An empty list is trivially
/// feasible: it has no rows.
pub open spec fn feasible_spec(kn: int, kd: int, a: Seq<int>, b: Seq<int>, w: int, h: int) -> bool {
    if a.len() == 0 {
        true
    } else {
        match greedy(kn, kd, a, b, w, h, a.len() as int) {
            None => false,
            Some(st) => kn * (st.sb + b[st.rs]) <= h * kd,
        }
    }
}

/// Every product the evaluator computes fits a `u128`. This is what the
/// machine word forces, not a property of the packing itself.
pub open spec fn no_overflow(kn: int, kd: int, a: Seq<int>, b: Seq<int>, w: int, h: int) -> bool {
    &&& forall|i: int|
        0 <= i < a.len() ==> kn * #[trigger] a[i] + w * kd <= u128::MAX as int
    &&& forall|i: int|
        0 <= i < b.len() ==> kn * #[trigger] b[i] + h * kd <= u128::MAX as int
}

/// Products of larger non-negative factors are larger.
pub(crate) proof fn mul_le(x1: int, x2: int, y1: int, y2: int)
    by (nonlinear_arith)
    requires
        0 <= x1 <= x2,
        0 <= y1 <= y2,
    ensures
        x1 * y1 <= x2 * y2,
{
}

/// Multiplication distributes over addition.
pub(crate) proof fn mul_dist(k: int, x: int, y: int)
    by (nonlinear_arith)
    ensures
        k * (x + y) == k * x + k * y,
{
}

/// A product of non-negative factors is non-negative.
pub(crate) proof fn mul_nonneg(x: int, y: int)
    by (nonlinear_arith)
    requires
        0 <= x,
        0 <= y,
    ensures
        0 <= x * y,
{
}

/// A segment sum of non-negative entries is non-negative.
pub proof fn lemma_seg_sum_nonneg(s: Seq<int>, lo: int, hi: int)
    requires
        forall|i: int| lo <= i < hi ==> s[i] >= 0,
    ensures
        seg_sum(s, lo, hi) >= 0,
    decreases hi - lo,
{
    if lo < hi {
        lemma_seg_sum_nonneg(s, lo, hi - 1);
    }
}

/// Dropping entries at the front of a segment of non-negative entries can
/// only shrink its sum.
pub proof fn lemma_seg_sum_mono(s: Seq<int>, lo1: int, lo2: int, hi: int)
    requires
        lo1 <= lo2,
        forall|i: int| lo1 <= i < hi ==> s[i] >= 0,
    ensures
        seg_sum(s, lo2, hi) <= seg_sum(s, lo1, hi),
    decreases hi - lo1,
{
    if hi <= lo2 {
        lemma_seg_sum_nonneg(s, lo1, hi);
    } else {
        lemma_seg_sum_mono(s, lo1, lo2, hi - 1);
    }
}

/// Once the greedy packer has failed, it stays failed.
pub proof fn lemma_greedy_none_persists(
    kn: int,
    kd: int,
    a: Seq<int>,
    b: Seq<int>,
    w: int,
    h: int,
    i: int,
    j: int,
)
    requires
        1 <= i <= j,
        greedy(kn, kd, a, b, w, h, i) is None,
    ensures
        greedy(kn, kd, a, b, w, h, j) is None,
    decreases j - i,
{
    if i < j {
        lemma_greedy_none_persists(kn, kd, a, b, w, h, i, j - 1);
    }
}

/// If the greedy packer is alive after `j` rectangles, it was alive after
/// every shorter prefix.
pub proof fn lemma_greedy_some_prefix(
    kn: int,
    kd: int,
    a: Seq<int>,
    b: Seq<int>,
    w: int,
    h: int,
    i: int,
    j: int,
)
    requires
        1 <= i <= j,
        greedy(kn, kd, a, b, w, h, j) is Some,
    ensures
        greedy(kn, kd, a, b, w, h, i) is Some,
    decreases j - i,
{
    if i < j {
        lemma_greedy_some_prefix(kn, kd, a, b, w, h, i, j - 1);
    }
}

/// A live greedy state is well formed: the open row starts inside the prefix,
/// the closed height sum is non-negative, and the open row's base heights are
/// all equal to the height of its first rectangle.
pub proof fn lemma_greedy_wf(kn: int, kd: int, a: Seq<int>, b: Seq<int>, w: int, h: int, i: int)
    requires
        dims_ok(a, b, w, h),
        1 <= i <= a.len(),
        greedy(kn, kd, a, b, w, h, i) is Some,
    ensures
        ({
            let st = greedy(kn, kd, a, b, w, h, i)->Some_0;
            &&& 0 <= st.rs < i
            &&& st.sb >= 0
            &&& forall|j: int| st.rs <= j < i ==> #[trigger] b[j] == b[st.rs]
        }),
    decreases i,
{
    if i > 1 {
        lemma_greedy_wf(kn, kd, a, b, w, h, i - 1);
    }
}

/// The evaluator is pure: its contract ties every result to one function of
/// the arguments alone, so two runs on identical arguments agree. Stated for
/// any two values that the evaluator's postcondition describes.
pub proof fn lemma_evaluator_deterministic(
    r1: bool,
    r2: bool,
    kn: int,
    kd: int,
    a: Seq<int>,
    b: Seq<int>,
    w: int,
    h: int,
)
    requires
        r1 == feasible_spec(kn, kd, a, b, w, h),
        r2 == feasible_spec(kn, kd, a, b, w, h),
    ensures
        r1 == r2,
{
}

/// At scale zero the greedy packer never fails.
proof fn lemma_zero_greedy(kd: int, a: Seq<int>, b: Seq<int>, w: int, h: int, i: int)
    requires
        kd >= 0,
        w >= 0,
        h >= 0,
        1 <= i,
    ensures
        greedy(0, kd, a, b, w, h, i) is Some,
    decreases i,
{
    assert(w * kd >= 0) by (nonlinear_arith)
        requires
            w >= 0,
            kd >= 0,
    ;
    assert(h * kd >= 0) by (nonlinear_arith)
        requires
            h >= 0,
            kd >= 0,
    ;
    if i > 1 {
        lemma_zero_greedy(kd, a, b, w, h, i - 1);
    }
}

/// Scale zero is feasible for every input: nothing has any width or height.
pub proof fn lemma_zero_feasible(kd: int, a: Seq<int>, b: Seq<int>, w: int, h: int)
    requires
        kd >= 0,
        w >= 0,
        h >= 0,
    ensures
        feasible_spec(0, kd, a, b, w, h),
{
    if a.len() > 0 {
        lemma_zero_greedy(kd, a, b, w, h, a.len() as int);
        assert(h * kd >= 0) by (nonlinear_arith)
            requires
                h >= 0,
                kd >= 0,
        ;
    }
}

/// One rectangle fits exactly when its scaled width is within the box width
/// and its scaled height is within the box height; both bounds allow
/// equality, so a width of exactly `w` is still feasible.
pub proof fn lemma_single_rect(kn: int, kd: int, a: Seq<int>, b: Seq<int>, w: int, h: int)
    requires
        a.len() == 1,
        b.len() == 1,
    ensures
        feasible_spec(kn, kd, a, b, w, h) == (kn * a[0] <= w * kd && kn * b[0] <= h * kd),
{
}

/// Two rectangles share one row exactly when their base heights are equal
/// and their joint scaled width fits the box; equal heights with excess
/// width, or different heights regardless of width, stack two rows.
pub proof fn lemma_two_rects(kn: int, kd: int, a: Seq<int>, b: Seq<int>, w: int, h: int)
    requires
        dims_ok(a, b, w, h),
        kn >= 0,
        a.len() == 2,
    ensures
        feasible_spec(kn, kd, a, b, w, h) == (kn * a[0] <= w * kd && kn * a[1] <= w * kd && (if b[0]
            == b[1] && kn * (a[0] + a[1]) <= w * kd {
            kn * b[0] <= h * kd
        } else {
            kn * (b[0] + b[1]) <= h * kd
        })),
{
    assert(seg_sum(a, 0, 0) == 0);
    assert(seg_sum(a, 0, 1) == a[0]);
    assert(seg_sum(a, 0, 2) == seg_sum(a, 0, 1) + a[1]);
    mul_nonneg(kn, b[1]);
    mul_dist(kn, b[0], b[1]);
    let g1 = greedy(kn, kd, a, b, w, h, 1);
    assert(greedy(kn, kd, a, b, w, h, 2) == (match g1 {
        None => None,
        Some(st) => step(kn, kd, a, b, w, h, st, 1),
    }));
}

/// Decides whether the scale `kn / kd` is feasible: scaling every rectangle
/// by it and packing greedily in input order keeps every row within the box
/// width `w` and the total row height within the box height `h`. One pass,
/// exact arithmetic, no state kept between calls.
pub fn feasible(kn: u128, kd: u128, a: &Vec<u64>, b: &Vec<u64>, w: u64, h: u64) -> (r: bool)
    requires
        a@.len() == b@.len(),
        no_overflow(kn as int, kd as int, ints(a@), ints(b@), w as int, h as int),
    ensures
        r == feasible_spec(kn as int, kd as int, ints(a@), ints(b@), w as int, h as int),
{
    let ghost ga = ints(a@);
    let ghost gb = ints(b@);
    let n: usize = a.len();
    if n == 0 {
        return true;
    }
    if kn == 0 {
        proof {
            lemma_zero_feasible(kd as int, ga, gb, w as int, h as int);
        }
        return true;
    }
    proof {
        assert(ga[0] == a@[0] as int);
        assert(gb[0] == b@[0] as int);
        assert((kn as int) * ga[0] + (w as int) * (kd as int) <= u128::MAX as int);
        assert((kn as int) * gb[0] + (h as int) * (kd as int) <= u128::MAX as int);
        assert((kn as int) * ga[0] >= 0) by (nonlinear_arith)
            requires
                kn >= 1,
                ga[0] >= 0,
        ;
        assert((kn as int) * gb[0] >= 0) by (nonlinear_arith)
            requires
                kn >= 1,
                gb[0] >= 0,
        ;
    }
    let wkd: u128 = (w as u128) * kd;
    let hkd: u128 = (h as u128) * kd;
    let a0: u64 = a[0];
    if kn * (a0 as u128) > wkd {
        proof {
            lemma_greedy_none_persists(
                kn as int,
                kd as int,
                ga,
                gb,
                w as int,
                h as int,
                1,
                n as int,
            );
        }
        return false;
    }
    let mut rs: usize = 0;
    let mut cur: u128 = a0 as u128;
    let mut sb: u128 = 0;
    let mut i: usize = 1;
    proof {
        assert(seg_sum(ga, 0, 0) == 0);
        assert(seg_sum(ga, 0, 1) == ga[0]);
    }
    while i < n
        invariant
            kn >= 1,
            1 <= i <= n,
            n == a@.len(),
            a@.len() == b@.len(),
            ga == ints(a@),
            gb == ints(b@),
            no_overflow(kn as int, kd as int, ga, gb, w as int, h as int),
            wkd as int == (w as int) * (kd as int),
            hkd as int == (h as int) * (kd as int),
            rs < i,
            greedy(kn as int, kd as int, ga, gb, w as int, h as int, i as int) == Some(
                (RowState { rs: rs as int, sb: sb as int }),
            ),
            cur as int == seg_sum(ga, rs as int, i as int),
            (kn as int) * (cur as int) <= wkd as int,
            (kn as int) * (sb as int) <= hkd as int,
        decreases n - i,
    {
        let ai: u64 = a[i];
        let bi: u64 = b[i];
        let brs: u64 = b[rs];
        proof {
            assert(ga[i as int] == a@[i as int] as int);
            assert(gb[i as int] == b@[i as int] as int);
            assert(gb[rs as int] == b@[rs as int] as int);
            assert((kn as int) * ga[i as int] + (w as int) * (kd as int) <= u128::MAX as int);
            assert((kn as int) * gb[i as int] + (h as int) * (kd as int) <= u128::MAX as int);
            assert((kn as int) * gb[rs as int] + (h as int) * (kd as int) <= u128::MAX as int);
            assert((ai as int) <= (kn as int) * (ai as int)) by (nonlinear_arith)
                requires
                    kn >= 1,
                    ai >= 0,
            ;
            assert((cur as int) <= (kn as int) * (cur as int)) by (nonlinear_arith)
                requires
                    kn >= 1,
                    cur >= 0,
            ;
            assert((kn as int) * ((cur as int) + (ai as int)) == (kn as int) * (cur as int) + (kn
                as int) * (ai as int)) by (nonlinear_arith);
        }
        if kn * (ai as u128) > wkd {
            proof {
                lemma_greedy_none_persists(
                    kn as int,
                    kd as int,
                    ga,
                    gb,
                    w as int,
                    h as int,
                    i as int + 1,
                    n as int,
                );
            }
            return false;
        }
        let s2: u128 = cur + (ai as u128);
        if bi == brs && kn * s2 <= wkd {
            proof {
                assert(seg_sum(ga, rs as int, i as int + 1) == seg_sum(ga, rs as int, i as int)
                    + ga[i as int]);
            }
            cur = s2;
        } else {
            proof {
                assert((brs as int) <= (kn as int) * (brs as int)) by (nonlinear_arith)
                    requires
                        kn >= 1,
                        brs >= 0,
                ;
                assert((sb as int) <= (kn as int) * (sb as int)) by (nonlinear_arith)
                    requires
                        kn >= 1,
                        sb >= 0,
                ;
                assert((kn as int) * ((sb as int) + (brs as int)) == (kn as int) * (sb as int) + (
                kn as int) * (brs as int)) by (nonlinear_arith);
            }
            let sb2: u128 = sb + (brs as u128);
            if kn * sb2 > hkd {
                proof {
                    lemma_greedy_none_persists(
                        kn as int,
                        kd as int,
                        ga,
                        gb,
                        w as int,
                        h as int,
                        i as int + 1,
                        n as int,
                    );
                }
                return false;
            }
            rs = i;
            cur = ai as u128;
            sb = sb2;
            proof {
                assert(seg_sum(ga, i as int, i as int) == 0);
                assert(seg_sum(ga, i as int, i as int + 1) == ga[i as int]);
            }
        }
        i = i + 1;
    }
    let brs: u64 = b[rs];
    proof {
        assert(gb[rs as int] == b@[rs as int] as int);
        assert((kn as int) * gb[rs as int] + (h as int) * (kd as int) <= u128::MAX as int);
        assert((brs as int) <= (kn as int) * (brs as int)) by (nonlinear_arith)
            requires
                kn >= 1,
                brs >= 0,
        ;
        assert((sb as int) <= (kn as int) * (sb as int)) by (nonlinear_arith)
            requires
                kn >= 1,
                sb >= 0,
        ;
        assert((kn as int) * ((sb as int) + (brs as int)) == (kn as int) * (sb as int) + (kn
            as int) * (brs as int)) by (nonlinear_arith);
    }
    let sbf: u128 = sb + (brs as u128);
    kn * sbf <= hkd
}

} // verus!
