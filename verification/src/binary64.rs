//! Sums and means of non-negative numbers in IEEE 754 binary64, computed on
//! their encodings.
//!
//! A non-negative binary64 number is held as the 64 bits that encode it: the
//! biased exponent in the upper bits, the fraction in the lower 52. Among the
//! encodings up to [`INFINITY`] a larger encoding is a larger number, so
//! such numbers are compared as plain integers. What a sum or a quotient is
//! rounded to is the nearest number that has an encoding, and of two equally
//! near ones the one whose encoding is even.

use vstd::prelude::*;
use vstd::arithmetic::power2::{
    lemma2_to64,
    lemma2_to64_rest,
    lemma_pow2_adds,
    lemma_pow2_pos,
    lemma_pow2_strictly_increases,
    lemma_pow2_unfold,
    pow2,
};
use vstd::bits::lemma_u64_shl_is_mul;

verus! {

/// Encoding of positive infinity in binary64.
pub const INFINITY: u64 = 0x7ff0_0000_0000_0000;

/// Encoding of positive infinity in binary32.
pub const INFINITY32: u32 = 0x7f80_0000;

/// Two to the power 52: the bit that a normal number's fraction leaves out.
pub const HIDDEN: u64 = 0x10_0000_0000_0000;

/// Two to the power 23: the bit that a normal binary32 fraction leaves out.
pub const HIDDEN32: u32 = 0x80_0000;

/// The integer that the number is a power of two times.
pub open spec fn significand(x: u64) -> nat {
    if x / HIDDEN == 0 {
        (x % HIDDEN) as nat
    } else {
        (HIDDEN + x % HIDDEN) as nat
    }
}

/// The power of two by which the significand is scaled, counted from the
/// least one that binary64 has.
pub open spec fn scale(x: u64) -> nat {
    if x / HIDDEN == 0 {
        0
    } else {
        (x / HIDDEN - 1) as nat
    }
}

/// The number that `x` encodes, as a multiple of the least positive number
/// of binary64. For [`INFINITY`] this is the bound that all numbers stay
/// below.
pub open spec fn magnitude(x: u64) -> nat {
    significand(x) * pow2(scale(x))
}

/// The number that `d` encodes in binary32, as a multiple of the least
/// positive number of binary32.
pub open spec fn magnitude32(d: u32) -> nat {
    if d / HIDDEN32 == 0 {
        (d % HIDDEN32) as nat
    } else {
        (HIDDEN32 + d % HIDDEN32) as nat * pow2((d / HIDDEN32 - 1) as nat)
    }
}

/// `r` encodes the greatest number that is not above `num / 2^k`.
pub open spec fn is_floor(num: nat, k: nat, r: u64) -> bool {
    &&& r < INFINITY
    &&& magnitude(r) * pow2(k) <= num
    &&& num < magnitude((r + 1) as u64) * pow2(k)
}

/// The encoding of the greatest number that is not above `num / 2^k`.
pub open spec fn floor_of(num: nat, k: nat) -> u64 {
    choose|r: u64| is_floor(num, k, r)
}

/// The encoding that `num / 2^k`, counted in multiples of the least positive
/// number, is rounded to: the nearest one, the even one of two equally near,
/// and infinity from the bound on.
pub open spec fn nearest(num: nat, k: nat) -> u64 {
    if num >= magnitude(INFINITY) * pow2(k) {
        INFINITY
    } else {
        let r = floor_of(num, k);
        let below = num - magnitude(r) * pow2(k);
        let above = magnitude((r + 1) as u64) * pow2(k) - num;
        if below < above || (below == above && r % 2 == 0) {
            r
        } else {
            (r + 1) as u64
        }
    }
}

/// The rounded sum of two non-negative numbers.
pub open spec fn rounded_sum(a: u64, b: u64) -> u64 {
    if a == INFINITY || b == INFINITY {
        INFINITY
    } else {
        nearest(magnitude(a) + magnitude(b), 0)
    }
}

/// The rounded quotient of a non-negative number by `2^k`.
pub open spec fn rounded_quotient(a: u64, k: nat) -> u64 {
    if a == INFINITY {
        INFINITY
    } else {
        nearest(magnitude(a), k)
    }
}

/// The binary64 encoding of a non-negative binary32 number. The least
/// positive number of binary32 is `2^925` times that of binary64.
pub open spec fn widened(d: u32) -> u64 {
    if d == INFINITY32 {
        INFINITY
    } else {
        nearest(magnitude32(d) * pow2(925), 0)
    }
}

/// An encoding put together from a scale and a significand encodes the
/// significand times two to the scale.
pub proof fn lemma_encode(step: nat, m: nat)
    requires
        step <= 2046,
        m <= 2 * HIDDEN,
        step == 0 || m >= HIDDEN,
    ensures
        step * HIDDEN + m <= 0x8000_0000_0000_0000,
        magnitude((step * HIDDEN + m) as u64) == m * pow2(step),
{
    let x = (step * HIDDEN + m) as u64;
    lemma2_to64();
    if m < HIDDEN {
        assert(x / HIDDEN == 0 && x % HIDDEN == m);
        assert(m * pow2(0) == m);
    } else if m < 2 * HIDDEN {
        assert(x == (step + 1) * HIDDEN + (m - HIDDEN));
        assert(x / HIDDEN == step + 1 && x % HIDDEN == m - HIDDEN);
    } else {
        assert(x == (step + 2) * HIDDEN);
        assert(x / HIDDEN == step + 2 && x % HIDDEN == 0);
        lemma_pow2_unfold(step + 1);
        assert(HIDDEN * (2 * pow2(step)) == (2 * HIDDEN) * pow2(step)) by (nonlinear_arith);
    }
}

/// Every encoding up to infinity is put together from its scale and its
/// significand.
pub proof fn lemma_decode(x: u64)
    requires
        x <= INFINITY,
    ensures
        x == scale(x) * HIDDEN + significand(x),
        scale(x) <= 2046,
        significand(x) < 2 * HIDDEN,
        scale(x) == 0 || significand(x) >= HIDDEN,
        x < INFINITY ==> scale(x) <= 2045,
{
}

/// The next encoding is one step of the scale further.
pub proof fn lemma_successor(x: u64)
    requires
        x < INFINITY,
    ensures
        magnitude((x + 1) as u64) == magnitude(x) + pow2(scale(x)),
        magnitude(x) < magnitude((x + 1) as u64),
{
    lemma_decode(x);
    let step = scale(x);
    let m = significand(x);
    lemma_encode(step, m);
    lemma_encode(step, m + 1);
    lemma_pow2_pos(step);
    assert((m + 1) * pow2(step) == m * pow2(step) + pow2(step)) by (nonlinear_arith);
}

/// Larger encodings are larger numbers.
pub proof fn lemma_magnitude_increases(a: u64, b: u64)
    requires
        a < b <= INFINITY,
    ensures
        magnitude(a) < magnitude(b),
    decreases b - a,
{
    let before = (b - 1) as u64;
    lemma_successor(before);
    if a < before {
        lemma_magnitude_increases(a, before);
    }
}

/// In binary32 too the next encoding is a larger number.
pub proof fn lemma_successor32(d: u32)
    requires
        d < INFINITY32,
    ensures
        magnitude32(d) < magnitude32((d + 1) as u32),
{
    let e = d / HIDDEN32;
    let f = d % HIDDEN32;
    let next = (d + 1) as u32;
    lemma2_to64();
    if f + 1 < HIDDEN32 {
        assert(next / HIDDEN32 == e && next % HIDDEN32 == f + 1);
        if e > 0 {
            let p = pow2((e - 1) as nat);
            lemma_pow2_pos((e - 1) as nat);
            assert((HIDDEN32 + f) * p < (HIDDEN32 + f + 1) * p) by (nonlinear_arith)
                requires
                    p > 0,
            ;
        }
    } else {
        assert(next / HIDDEN32 == e + 1 && next % HIDDEN32 == 0);
        if e > 0 {
            let p = pow2((e - 1) as nat);
            lemma_pow2_pos((e - 1) as nat);
            lemma_pow2_unfold(e as nat);
            assert((HIDDEN32 + f) * p < HIDDEN32 * (2 * p)) by (nonlinear_arith)
                requires
                    p > 0,
                    f < HIDDEN32,
            ;
        } else {
            assert(HIDDEN32 * pow2(0) == HIDDEN32) by (nonlinear_arith)
                requires
                    pow2(0) == 1,
            ;
        }
    }
}

/// In binary32 too larger encodings are larger numbers: distances are
/// compared as their encodings are.
pub proof fn lemma_magnitude32_increases(a: u32, b: u32)
    requires
        a < b <= INFINITY32,
    ensures
        magnitude32(a) < magnitude32(b),
    decreases b - a,
{
    let before = (b - 1) as u32;
    lemma_successor32(before);
    if a < before {
        lemma_magnitude32_increases(a, before);
    }
}

/// At most one encoding is the floor of a number.
pub proof fn lemma_floor_unique(num: nat, k: nat, r: u64, s: u64)
    requires
        is_floor(num, k, r),
        is_floor(num, k, s),
    ensures
        r == s,
{
    lemma_pow2_pos(k);
    if r < s {
        if r + 1 < s {
            lemma_magnitude_increases((r + 1) as u64, s);
        }
        lemma_scaled_order(magnitude((r + 1) as u64), magnitude(s), pow2(k));
    } else if s < r {
        if s + 1 < r {
            lemma_magnitude_increases((s + 1) as u64, r);
        }
        lemma_scaled_order(magnitude((s + 1) as u64), magnitude(r), pow2(k));
    }
}

/// Below the bound every number has its floor among the encodings under
/// `top`.
pub proof fn lemma_floor_exists(num: nat, k: nat, top: u64)
    requires
        top <= INFINITY,
        num < magnitude(top) * pow2(k),
    ensures
        exists|r: u64| r < top && #[trigger] is_floor(num, k, r),
    decreases top,
{
    if top == 0 {
        assert(magnitude(0) * pow2(k) == 0) by (nonlinear_arith)
            requires
                magnitude(0) == 0 * pow2(0),
        ;
    } else {
        let before = (top - 1) as u64;
        if magnitude(before) * pow2(k) <= num {
            assert(is_floor(num, k, before));
        } else {
            lemma_floor_exists(num, k, before);
        }
    }
}

/// What a number is rounded to is the encoding of a number or of infinity.
pub proof fn lemma_nearest_bounded(num: nat, k: nat)
    ensures
        nearest(num, k) <= INFINITY,
{
    if num < magnitude(INFINITY) * pow2(k) {
        lemma_floor_exists(num, k, INFINITY);
        assert(is_floor(num, k, floor_of(num, k)));
    }
}

/// Sums, quotients and widened numbers are encodings of numbers or of
/// infinity.
pub proof fn lemma_results_bounded(a: u64, b: u64, k: nat, d: u32)
    ensures
        rounded_sum(a, b) <= INFINITY,
        rounded_quotient(a, k) <= INFINITY,
        widened(d) <= INFINITY,
{
    lemma_nearest_bounded(magnitude(a) + magnitude(b), 0);
    lemma_nearest_bounded(magnitude(a), k);
    lemma_nearest_bounded(magnitude32(d) * pow2(925), 0);
}

/// Multiplying both sides by the same number keeps an order.
pub proof fn lemma_scaled_order(a: nat, b: nat, c: nat)
    requires
        a <= b,
    ensures
        a * c <= b * c,
{
    assert(a * c <= b * c) by (nonlinear_arith)
        requires
            a <= b,
            0 <= c,
    ;
}

/// What a number is rounded to, read off its floor and what is left over.
///
/// The number is `m` steps of size `unit` and a rest; the floor is the
/// encoding with scale `step` and significand `m`.
pub proof fn lemma_nearest(num: nat, k: nat, step: nat, m: nat, unit: nat, rest: nat)
    requires
        step <= 2046,
        m < 2 * HIDDEN,
        step == 0 || m >= HIDDEN,
        unit == pow2(step) * pow2(k),
        rest < unit,
        num == m * unit + rest,
    ensures
        step * HIDDEN + m + 1 <= 0x8000_0000_0000_0000,
        nearest(num, k) == (if step == 2046 {
            INFINITY
        } else if 2 * rest < unit || (2 * rest == unit && m % 2 == 0) {
            (step * HIDDEN + m) as u64
        } else {
            (step * HIDDEN + m + 1) as u64
        }),
{
    lemma_encode(step, m);
    lemma_encode(step, m + 1);
    lemma_encode(2046, HIDDEN as nat);
    assert(2046 * HIDDEN + HIDDEN == INFINITY);
    lemma_pow2_pos(k);
    lemma_pow2_pos(step);
    let r = (step * HIDDEN + m) as u64;
    let up = (step * HIDDEN + m + 1) as u64;
    assert(magnitude(r) * pow2(k) == m * unit) by (nonlinear_arith)
        requires
            magnitude(r) == m * pow2(step),
            unit == pow2(step) * pow2(k),
    ;
    assert(magnitude(up) * pow2(k) == m * unit + unit) by (nonlinear_arith)
        requires
            magnitude(up) == (m + 1) * pow2(step),
            unit == pow2(step) * pow2(k),
    ;
    if step == 2046 {
        assert(magnitude(INFINITY) * pow2(k) <= m * unit) by (nonlinear_arith)
            requires
                magnitude(INFINITY) == HIDDEN * pow2(2046),
                unit == pow2(step) * pow2(k),
                step == 2046,
                m >= HIDDEN,
        ;
    } else {
        assert(up <= INFINITY);
        if up < INFINITY {
            lemma_magnitude_increases(up, INFINITY);
        }
        lemma_scaled_order(magnitude(up), magnitude(INFINITY), pow2(k));
        assert(is_floor(num, k, r));
        lemma_floor_unique(num, k, r, floor_of(num, k));
        assert(r % 2 == m % 2) by {
            assert(step * HIDDEN == 2 * (step * 0x8_0000_0000_0000));
        }
    }
}

/// The order of the two numbers does not matter to their sum.
pub proof fn lemma_sum_commutes(a: u64, b: u64)
    ensures
        rounded_sum(a, b) == rounded_sum(b, a),
{
}

/// Adding zero changes nothing.
pub proof fn lemma_sum_zero(a: u64)
    requires
        a <= INFINITY,
    ensures
        rounded_sum(a, 0) == a,
{
    if a < INFINITY {
        lemma_decode(a);
        lemma2_to64();
        lemma_pow2_pos(scale(a));
        let unit = pow2(scale(a));
        assert(unit * pow2(0) == unit) by (nonlinear_arith)
            requires
                pow2(0) == 1,
        ;
        assert(magnitude(0) == 0) by (nonlinear_arith)
            requires
                magnitude(0) == 0 * pow2(0),
        ;
        lemma_nearest(magnitude(a), 0, scale(a), significand(a), unit, 0);
    }
}

/// Two to the power `k`.
fn power_of_two(k: u64) -> (p: u64)
    requires
        k <= 62,
    ensures
        p == pow2(k as nat),
        p >= 1,
{
    proof {
        lemma_pow2_pos(k as nat);
        lemma_pow2_strictly_increases(k as nat, 63);
        lemma2_to64();
        lemma2_to64_rest();
        lemma_u64_shl_is_mul(1, k);
    }
    1u64 << k
}

/// The sum of two numbers so far apart that the smaller is less than a
/// quarter of a step of the larger: the larger.
pub proof fn lemma_sum_far(hi: u64, lo: u64)
    requires
        lo <= hi < INFINITY,
        scale(hi) > scale(lo) + 54,
    ensures
        nearest(magnitude(hi) + magnitude(lo), 0) == hi,
{
    let step_hi = scale(hi);
    let step_lo = scale(lo);
    let low = pow2(step_lo);
    let unit = pow2(step_hi);
    lemma_decode(hi);
    lemma_decode(lo);
    lemma_pow2_pos(step_lo);
    lemma_pow2_pos(step_hi);
    lemma2_to64();
    lemma2_to64_rest();
    lemma_pow2_adds(53, step_lo);
    lemma_pow2_adds(2, (step_hi - 2) as nat);
    if 53 + step_lo < step_hi - 2 {
        lemma_pow2_strictly_increases(53 + step_lo, (step_hi - 2) as nat);
    }
    assert(magnitude(lo) < pow2(53) * low) by (nonlinear_arith)
        requires
            magnitude(lo) == significand(lo) * low,
            significand(lo) < pow2(53),
            low > 0,
    ;
    assert(unit * pow2(0) == unit) by (nonlinear_arith)
        requires
            pow2(0) == 1,
    ;
    lemma_nearest(
        magnitude(hi) + magnitude(lo),
        0,
        step_hi,
        significand(hi),
        unit,
        magnitude(lo),
    );
}

/// The sum of two numbers at most 54 steps of scale apart, read off the sum
/// `n` of their significands, brought to the smaller scale by the factor `p`.
pub proof fn lemma_sum_near(hi: u64, lo: u64, p: nat, n: nat)
    requires
        lo <= hi < INFINITY,
        scale(hi) <= scale(lo) + 54,
        p == pow2((scale(hi) - scale(lo)) as nat),
        n == significand(hi) * p + significand(lo),
    ensures
        ({
            let carried = n >= 2 * HIDDEN * p;
            let step = if carried {
                scale(hi) + 1
            } else {
                scale(hi)
            };
            let q = if carried {
                2 * p
            } else {
                p
            };
            let m = n / q;
            let rest = n % q;
            &&& q > 0
            &&& m < 2 * HIDDEN
            &&& step <= 2046
            &&& step * HIDDEN + m + 1 <= 0x8000_0000_0000_0000
            &&& step < 2046 ==> step * HIDDEN + m + 1 <= INFINITY
            &&& nearest(magnitude(hi) + magnitude(lo), 0) == (if step == 2046 {
                INFINITY
            } else if 2 * rest < q || (2 * rest == q && m % 2 == 0) {
                (step * HIDDEN + m) as u64
            } else {
                (step * HIDDEN + m + 1) as u64
            })
        }),
{
    let step_hi = scale(hi);
    let step_lo = scale(lo);
    let m_hi = significand(hi);
    let m_lo = significand(lo);
    let low = pow2(step_lo);
    let num = magnitude(hi) + magnitude(lo);
    let carried = n >= 2 * HIDDEN * p;
    let step = if carried {
        step_hi + 1
    } else {
        step_hi
    };
    let q = if carried {
        2 * p
    } else {
        p
    };
    lemma_decode(hi);
    lemma_decode(lo);
    lemma_pow2_pos(step_lo);
    lemma_pow2_pos((step_hi - step_lo) as nat);
    lemma2_to64();
    lemma_pow2_adds((step_hi - step_lo) as nat, step_lo);
    vstd::arithmetic::div_mod::lemma_fundamental_div_mod(n as int, q as int);
    vstd::arithmetic::div_mod::lemma_mod_bound(n as int, q as int);
    let m = n / q;
    let rest = n % q;
    let unit = q * low;
    assert(num == n * low) by (nonlinear_arith)
        requires
            num == m_hi * pow2(step_hi) + m_lo * low,
            pow2(step_hi) == p * low,
            n == m_hi * p + m_lo,
    ;
    assert(unit == pow2(step)) by {
        if carried {
            lemma_pow2_unfold(step_hi + 1);
            assert((2 * p) * low == 2 * (p * low)) by (nonlinear_arith);
        }
    }
    assert(unit * pow2(0) == unit) by (nonlinear_arith)
        requires
            pow2(0) == 1,
    ;
    if carried {
        assert(m >= HIDDEN && m < 2 * HIDDEN) by (nonlinear_arith)
            requires
                n == q * m + rest,
                0 <= rest < q,
                q == 2 * p,
                n >= 2 * HIDDEN * p,
                n == m_hi * p + m_lo,
                m_hi < 2 * HIDDEN,
                m_lo < 2 * HIDDEN,
                p >= 1,
        ;
    } else {
        assert(m < 2 * HIDDEN) by (nonlinear_arith)
            requires
                n == q * m + rest,
                0 <= rest < q,
                q == p,
                n < 2 * HIDDEN * p,
        ;
        if step > 0 {
            assert(m >= HIDDEN) by (nonlinear_arith)
                requires
                    n == q * m + rest,
                    0 <= rest < q,
                    q == p,
                    n == m_hi * p + m_lo,
                    m_hi >= HIDDEN,
                    m_lo >= 0,
            ;
        }
    }
    assert(num == m * unit + rest * low) by (nonlinear_arith)
        requires
            num == n * low,
            n == q * m + rest,
            unit == q * low,
    ;
    assert(rest * low < unit) by (nonlinear_arith)
        requires
            unit == q * low,
            rest < q,
            low > 0,
    ;
    assert(2 * (rest * low) < unit <==> 2 * rest < q) by (nonlinear_arith)
        requires
            unit == q * low,
            low > 0,
    ;
    assert(2 * (rest * low) == unit <==> 2 * rest == q) by (nonlinear_arith)
        requires
            unit == q * low,
            low > 0,
    ;
    lemma_nearest(num, 0, step, m, unit, rest * low);
}

/// Adds two non-negative numbers and rounds the sum to the nearest number
/// that has an encoding, the even one of two equally near.
pub fn sum(a: u64, b: u64) -> (total: u64)
    requires
        a <= INFINITY,
        b <= INFINITY,
    ensures
        total == rounded_sum(a, b),
        total <= INFINITY,
{
    if a == INFINITY || b == INFINITY {
        return INFINITY;
    }
    let hi: u64 = if a >= b { a } else { b };
    let lo: u64 = if a >= b { b } else { a };
    let step_hi: u64 = if hi / HIDDEN == 0 { 0 } else { hi / HIDDEN - 1 };
    let step_lo: u64 = if lo / HIDDEN == 0 { 0 } else { lo / HIDDEN - 1 };
    let m_hi: u64 = if hi / HIDDEN == 0 { hi % HIDDEN } else { HIDDEN + hi % HIDDEN };
    let m_lo: u64 = if lo / HIDDEN == 0 { lo % HIDDEN } else { HIDDEN + lo % HIDDEN };
    assert(magnitude(a) + magnitude(b) == magnitude(hi) + magnitude(lo));
    let shift: u64 = step_hi - step_lo;
    if shift > 54 {
        proof {
            lemma_sum_far(hi, lo);
        }
        return hi;
    }
    let p: u64 = power_of_two(shift);
    proof {
        lemma_pow2_strictly_increases(shift as nat, 55);
        lemma2_to64_rest();
        assert(m_hi * p <= 0x20_0000_0000_0000 * 0x80_0000_0000_0000) by (nonlinear_arith)
            requires
                m_hi < 0x20_0000_0000_0000,
                p < 0x80_0000_0000_0000,
        ;
        assert(0x20_0000_0000_0000 * p <= 0x20_0000_0000_0000 * 0x80_0000_0000_0000)
            by (nonlinear_arith)
            requires
                p < 0x80_0000_0000_0000,
        ;
    }
    let n: u128 = (m_hi as u128) * (p as u128) + (m_lo as u128);
    let limit: u128 = 0x20_0000_0000_0000u128 * (p as u128);
    let carried: bool = n >= limit;
    let step: u64 = if carried { step_hi + 1 } else { step_hi };
    let q: u128 = if carried { 2 * (p as u128) } else { p as u128 };
    proof {
        lemma_sum_near(hi, lo, p as nat, n as nat);
    }
    let m: u64 = (n / q) as u64;
    let rest: u128 = n % q;
    if step >= 2046 {
        return INFINITY;
    }
    if 2 * rest > q || (2 * rest == q && m % 2 == 1) {
        step * HIDDEN + m + 1
    } else {
        step * HIDDEN + m
    }
}

/// Divides a non-negative number by 256 and rounds the quotient to the
/// nearest number that has an encoding, the even one of two equally near.
pub fn divide_by_256(a: u64) -> (quotient: u64)
    requires
        a <= INFINITY,
    ensures
        quotient == rounded_quotient(a, 8),
        quotient <= INFINITY,
{
    if a == INFINITY {
        return INFINITY;
    }
    let step: u64 = if a / HIDDEN == 0 { 0 } else { a / HIDDEN - 1 };
    let m: u64 = if a / HIDDEN == 0 { a % HIDDEN } else { HIDDEN + a % HIDDEN };
    proof {
        lemma_decode(a);
        lemma2_to64();
    }
    if step >= 8 {
        proof {
            lemma_pow2_adds((step - 8) as nat, 8);
            lemma_pow2_pos(step as nat);
            lemma_nearest(
                magnitude(a),
                8,
                (step - 8) as nat,
                m as nat,
                pow2(step as nat),
                0,
            );
        }
        return a - 8 * HIDDEN;
    }
    let p: u64 = power_of_two(step);
    proof {
        lemma_pow2_strictly_increases(step as nat, 8);
        assert(m * p < 0x20_0000_0000_0000 * 0x100) by (nonlinear_arith)
            requires
                m < 0x20_0000_0000_0000,
                p < 0x100,
        ;
    }
    let v: u64 = m * p;
    let whole: u64 = v / 256;
    let rest: u64 = v % 256;
    proof {
        assert(pow2(0) * pow2(8) == 256) by (nonlinear_arith)
            requires
                pow2(0) == 1,
                pow2(8) == 256,
        ;
        lemma_nearest(v as nat, 8, 0, whole as nat, 256, rest as nat);
    }
    if rest > 128 || (rest == 128 && whole % 2 == 1) {
        whole + 1
    } else {
        whole
    }
}

/// Takes a non-negative binary32 number to binary64; the number stays the
/// same.
pub fn widen(d: u32) -> (x: u64)
    requires
        d <= INFINITY32,
    ensures
        x == widened(d),
        x <= INFINITY,
        d < INFINITY32 ==> magnitude(x) == magnitude32(d) * pow2(925),
{
    if d == INFINITY32 {
        return INFINITY;
    }
    let e: u32 = d / HIDDEN32;
    let f: u32 = d % HIDDEN32;
    let ghost num: nat = magnitude32(d) * pow2(925);
    proof {
        lemma2_to64();
        assert(pow2(0) == 1);
    }
    if e != 0 {
        proof {
            let step = (e + 895) as nat;
            let m = (HIDDEN + f * 0x2000_0000) as nat;
            let unit = pow2(step);
            lemma_pow2_adds(29, step);
            lemma_pow2_adds((e - 1) as nat, 925);
            lemma_pow2_pos(step);
            assert(num == m * unit) by (nonlinear_arith)
                requires
                    num == (HIDDEN32 + f) * pow2((e - 1) as nat) * pow2(925),
                    m == (HIDDEN32 + f) * pow2(29),
                    pow2(29) * unit == pow2((e - 1) as nat) * pow2(925),
            ;
            assert(unit * pow2(0) == unit) by (nonlinear_arith)
                requires
                    pow2(0) == 1,
            ;
            lemma_nearest(num, 0, step, m, unit, 0);
            lemma_encode(step, m);
        }
        return (e as u64 + 896) * HIDDEN + (f as u64) * 0x2000_0000;
    }
    if f == 0 {
        proof {
            assert(num == 0) by (nonlinear_arith)
                requires
                    num == 0 * pow2(925),
            ;
            lemma_nearest(0, 0, 0, 0, 1, 0);
            lemma_encode(0, 0);
        }
        return 0;
    }
    let mut m: u64 = f as u64;
    let mut step: u64 = 925;
    proof {
        assert(num == f * pow2(925));
    }
    while m < HIDDEN
        invariant
            0 < m < 2 * HIDDEN,
            step <= 925,
            m >= pow2((925 - step) as nat),
            m * pow2(step as nat) == num,
        decreases 2 * HIDDEN - m,
    {
        proof {
            if step < 873 {
                lemma_pow2_strictly_increases(52, (925 - step) as nat);
            }
            lemma2_to64_rest();
            lemma_pow2_unfold(step as nat);
            lemma_pow2_unfold((926 - step) as nat);
            assert((2 * m) * pow2((step - 1) as nat) == m * pow2(step as nat)) by (nonlinear_arith)
                requires
                    pow2(step as nat) == 2 * pow2((step - 1) as nat),
            ;
        }
        m = 2 * m;
        step = step - 1;
    }
    proof {
        let unit = pow2(step as nat);
        lemma_pow2_pos(step as nat);
        assert(unit * pow2(0) == unit) by (nonlinear_arith)
            requires
                pow2(0) == 1,
        ;
        assert(num == m * unit + 0);
        lemma_nearest(num, 0, step as nat, m as nat, unit, 0);
        lemma_encode(step as nat, m as nat);
    }
    step * HIDDEN + m
}

} // verus!
