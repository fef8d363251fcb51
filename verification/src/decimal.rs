//! Decimal tokens, read exactly.
//!
//! An input token is a run of digits with at most one point and digits on
//! both sides of it. A token is read as an integer mantissa together with its
//! count of fraction digits, so `12.75` becomes `(1275, 2)`; a caller brings
//! all tokens to one common count of fraction digits with `scale_to`, which
//! leaves feasibility unchanged because the packing comparisons are
//! homogeneous in the dimensions and the box.

use crate::packing::mul_le;
use vstd::prelude::*;

verus! {

/// ASCII digit.
pub open spec fn is_digit(c: u8) -> bool {
    48 <= c <= 57
}

/// Every byte of `s` is a digit.
pub open spec fn all_digits(s: Seq<u8>) -> bool {
    forall|i: int| 0 <= i < s.len() ==> is_digit(#[trigger] s[i])
}

/// The number a digit string denotes.
pub open spec fn digits_val(s: Seq<u8>) -> int
    decreases s.len(),
{
    if s.len() == 0 {
        0
    } else {
        digits_val(s.drop_last()) * 10 + (s.last() - 48)
    }
}

/// Ten to the power `e`.
pub open spec fn pow10(e: nat) -> int
    decreases e,
{
    if e == 0 {
        1
    } else {
        10 * pow10((e - 1) as nat)
    }
}

/// `s` splits at position `p` into a non-empty digit run, a point, and a
/// non-empty digit run.
pub open spec fn dot_split_at(s: Seq<u8>, p: int) -> bool {
    &&& 1 <= p < s.len() - 1
    &&& s[p] == 46
    &&& all_digits(s.subrange(0, p))
    &&& all_digits(s.subrange(p + 1, s.len() as int))
}

/// `s` is a well-formed decimal token small enough to read exactly: at most
/// 38 digits in all, so that its mantissa fits a `u128`.
pub open spec fn token_ok(s: Seq<u8>) -> bool {
    ||| (1 <= s.len() <= 38 && all_digits(s))
    ||| (s.len() <= 39 && exists|p: int| #[trigger] dot_split_at(s, p))
}

/// Powers of ten are positive.
proof fn lemma_pow10_pos(e: nat)
    ensures
        pow10(e) >= 1,
    decreases e,
{
    if e > 0 {
        lemma_pow10_pos((e - 1) as nat);
    }
}

/// Powers of ten grow with the exponent.
proof fn lemma_pow10_mono(m: nat, e: nat)
    requires
        m <= e,
    ensures
        pow10(m) <= pow10(e),
    decreases e,
{
    if m < e {
        lemma_pow10_mono(m, (e - 1) as nat);
        lemma_pow10_pos((e - 1) as nat);
    }
}

/// The largest exponent the reader uses, written out.
proof fn lemma_pow10_38()
    ensures
        pow10(38) == 0x4B3B4CA85A86C47A098A224000000000,
{
    reveal_with_fuel(pow10, 39);
}

/// Exponents add: ten to `m + e` is the product of the two powers.
proof fn lemma_pow10_add(m: nat, e: nat)
    ensures
        pow10(m + e) == pow10(m) * pow10(e),
    decreases e,
{
    if e == 0 {
        assert(pow10(m) * 1 == pow10(m)) by (nonlinear_arith);
    } else {
        lemma_pow10_add(m, (e - 1) as nat);
        assert(pow10(m) * (10 * pow10((e - 1) as nat)) == 10 * (pow10(m) * pow10((e - 1) as nat)))
            by (nonlinear_arith);
    }
}

/// A digit string's value is non-negative and below ten to its length.
proof fn lemma_digits_val_bound(s: Seq<u8>)
    requires
        all_digits(s),
    ensures
        0 <= digits_val(s) < pow10(s.len()),
    decreases s.len(),
{
    if s.len() > 0 {
        assert(all_digits(s.drop_last())) by {
            assert(forall|i: int|
                0 <= i < s.len() - 1 ==> s.drop_last()[i] == #[trigger] s[i]);
        }
        lemma_digits_val_bound(s.drop_last());
    }
}

/// Concatenating digit strings stacks their values in base ten.
proof fn lemma_digits_concat(d1: Seq<u8>, d2: Seq<u8>)
    ensures
        digits_val(d1 + d2) == digits_val(d1) * pow10(d2.len()) + digits_val(d2),
    decreases d2.len(),
{
    if d2.len() == 0 {
        assert(d1 + d2 =~= d1);
        assert(digits_val(d1) * 1 == digits_val(d1)) by (nonlinear_arith);
    } else {
        lemma_digits_concat(d1, d2.drop_last());
        assert((d1 + d2).drop_last() =~= d1 + d2.drop_last());
        assert((d1 + d2).last() == d2.last());
        assert(digits_val(d1) * (10 * pow10((d2.len() - 1) as nat)) == (digits_val(d1) * pow10((
        d2.len() - 1) as nat)) * 10) by (nonlinear_arith);
    }
}

/// Where a digit run ends in a non-digit, a token split can only sit exactly
/// there.
proof fn lemma_split_pos(s: Seq<u8>, p: int, p2: int)
    requires
        0 <= p < s.len(),
        all_digits(s.subrange(0, p)),
        !is_digit(s[p]),
        dot_split_at(s, p2),
    ensures
        p2 == p,
{
    if p2 < p {
        assert(s.subrange(0, p)[p2] == s[p2]);
    } else if p2 > p {
        assert(s.subrange(0, p2)[p] == s[p]);
    }
}

/// Reads the digit run `s[from..to)` as a number. The length cap keeps the
/// value below ten to the 38th, which fits the word.
fn digits_to_u128(s: &Vec<u8>, from: usize, to: usize) -> (r: u128)
    requires
        from <= to <= s@.len(),
        to - from <= 38,
        all_digits(s@.subrange(from as int, to as int)),
    ensures
        r as int == digits_val(s@.subrange(from as int, to as int)),
{
    let mut acc: u128 = 0;
    let mut i: usize = from;
    proof {
        assert(s@.subrange(from as int, from as int) =~= Seq::<u8>::empty());
    }
    while i < to
        invariant
            from <= i <= to <= s@.len(),
            to - from <= 38,
            all_digits(s@.subrange(from as int, to as int)),
            acc as int == digits_val(s@.subrange(from as int, i as int)),
            (acc as int) < pow10((i - from) as nat),
        decreases to - i,
    {
        proof {
            assert(s@.subrange(from as int, to as int)[i - from] == s@[i as int]);
            assert(s@.subrange(from as int, i as int + 1).drop_last() =~= s@.subrange(
                from as int,
                i as int,
            ));
            assert(s@.subrange(from as int, i as int + 1).last() == s@[i as int]);
            lemma_pow10_mono((i + 1 - from) as nat, 38);
            lemma_pow10_38();
        }
        let d: u8 = s[i];
        acc = acc * 10 + ((d - 48) as u128);
        i = i + 1;
    }
    acc
}

/// Ten to the power `e`, as a word.
fn pow10_u128(e: usize) -> (r: u128)
    requires
        e <= 38,
    ensures
        r as int == pow10(e as nat),
{
    let mut r: u128 = 1;
    let mut j: usize = 0;
    while j < e
        invariant
            j <= e <= 38,
            r as int == pow10(j as nat),
        decreases e - j,
    {
        proof {
            lemma_pow10_pos(j as nat);
            lemma_pow10_mono((j + 1) as nat, 38);
            lemma_pow10_38();
        }
        r = r * 10;
        j = j + 1;
    }
    r
}

/// Reads a decimal token: `Some((m, f))` exactly when the token is a digit
/// run with at most one point, digits on both sides, and at most 38 digits
/// in all; `m` is the token's digits as one number and `f` its count of
/// fraction digits, so the token denotes `m / 10^f`.
pub fn parse_decimal(s: &Vec<u8>) -> (r: Option<(u128, usize)>)
    ensures
        r is Some <==> token_ok(s@),
        r is Some ==> ({
            let (m, f) = r->Some_0;
            if f == 0 {
                all_digits(s@) && m as int == digits_val(s@)
            } else {
                let p = s@.len() - 1 - f;
                dot_split_at(s@, p) && m as int == digits_val(
                    s@.subrange(0, p) + s@.subrange(p + 1, s@.len() as int),
                )
            }
        }),
{
    let n: usize = s.len();
    if n == 0 {
        return None;
    }
    let mut p: usize = 0;
    while p < n && s[p] >= 48 && s[p] <= 57
        invariant
            p <= n,
            n == s@.len(),
            all_digits(s@.subrange(0, p as int)),
        decreases n - p,
    {
        proof {
            assert(forall|k: int|
                0 <= k < p + 1 ==> s@.subrange(0, p as int + 1)[k] == #[trigger] s@[k]);
        }
        p = p + 1;
    }
    if p == 0 {
        proof {
            if token_ok(s@) {
                if exists|q: int| #[trigger] dot_split_at(s@, q) {
                    let q = choose|q: int| dot_split_at(s@, q);
                    assert(s@.subrange(0, q)[0] == s@[0]);
                }
            }
        }
        return None;
    }
    if p == n {
        proof {
            assert(s@.subrange(0, n as int) =~= s@);
            if n > 38 && token_ok(s@) {
                let q = choose|q: int| dot_split_at(s@, q);
                assert(is_digit(s@[q]));
            }
        }
        if n > 38 {
            return None;
        }
        let m: u128 = digits_to_u128(s, 0, n);
        return Some((m, 0));
    }
    // s[p] is the first non-digit: a token is only well formed if it is a
    // point with digits on both sides and nothing after them.
    proof {
        if exists|q: int| #[trigger] dot_split_at(s@, q) {
            let q = choose|q: int| dot_split_at(s@, q);
            lemma_split_pos(s@, p as int, q);
        }
    }
    if s[p] != 46 {
        return None;
    }
    if p + 1 == n {
        return None;
    }
    let mut q: usize = p + 1;
    while q < n && s[q] >= 48 && s[q] <= 57
        invariant
            p + 1 <= q <= n,
            n == s@.len(),
            all_digits(s@.subrange(p as int + 1, q as int)),
        decreases n - q,
    {
        proof {
            assert(forall|k: int|
                0 <= k < q - p ==> s@.subrange(p as int + 1, q as int + 1)[k] == #[trigger] s@[k
                    + p + 1]);
        }
        q = q + 1;
    }
    if q != n {
        proof {
            if exists|k: int| #[trigger] dot_split_at(s@, k) {
                let k = choose|k: int| dot_split_at(s@, k);
                assert(s@.subrange(k + 1, n as int)[q - k - 1] == s@[q as int]);
            }
        }
        return None;
    }
    if n - 1 > 38 {
        proof {
            if token_ok(s@) {
                assert(!all_digits(s@));
            }
        }
        return None;
    }
    proof {
        assert(dot_split_at(s@, p as int));
        lemma_digits_val_bound(s@.subrange(0, p as int));
        lemma_digits_val_bound(s@.subrange(p as int + 1, n as int));
        lemma_pow10_add(p as nat, (n - 1 - p) as nat);
        lemma_pow10_mono((n - 1) as nat, 38);
        lemma_pow10_38();
        lemma_pow10_pos((n - 1 - p) as nat);
        lemma_digits_concat(s@.subrange(0, p as int), s@.subrange(p as int + 1, n as int));
    }
    let ip: u128 = digits_to_u128(s, 0, p);
    let fp: u128 = digits_to_u128(s, p + 1, n);
    let f: usize = n - p - 1;
    let scale: u128 = pow10_u128(f);
    proof {
        mul_le(ip as int, pow10(p as nat) - 1, scale as int, scale as int);
        assert((pow10(p as nat) - 1) * pow10((n - 1 - p) as nat) == pow10(p as nat) * pow10((n - 1
            - p) as nat) - pow10((n - 1 - p) as nat)) by (nonlinear_arith);
    }
    let m: u128 = ip * scale + fp;
    Some((m, f))
}

/// Brings a token's mantissa from `f` fraction digits to `d`: `Some` exactly
/// when `f <= d`, the shift stays within the reader's exponent cap, and the
/// shifted mantissa fits a `u64`; then the value `m * 10^(d - f)`.
pub fn scale_to(m: u128, f: usize, d: usize) -> (r: Option<u64>)
    ensures
        r is Some <==> (f <= d && d - f <= 38 && m as int * pow10((d - f) as nat) <= u64::MAX
            as int),
        r is Some ==> r->Some_0 as int == m as int * pow10((d - f) as nat),
{
    if d < f || d - f > 38 {
        return None;
    }
    let scale: u128 = pow10_u128(d - f);
    match m.checked_mul(scale) {
        None => {
            proof {
                lemma_pow10_pos((d - f) as nat);
            }
            None
        },
        Some(v) => {
            if v > u64::MAX as u128 {
                None
            } else {
                Some(v as u64)
            }
        },
    }
}

} // verus!
