//! IEEE 754 doubles by their bits, without floating point.
//!
//! The bits of a double, read as a sign and a magnitude, stand in the order of
//! the numbers, so doubles compare through integers. A whole number is turned
//! into the bits of its nearest double here as well.
use vstd::arithmetic::div_mod::*;
use vstd::arithmetic::mul::*;
use vstd::arithmetic::power2::*;
use vstd::prelude::*;

verus! {

/// The magnitude of infinity; larger magnitudes are not numbers.
pub const INFINITY_BITS: u64 = 0x7ff0_0000_0000_0000;

/// The sign bit of a double.
pub const SIGN_BIT: u64 = 0x8000_0000_0000_0000;

/// The bits of the double `0.0`.
pub const ZERO_BITS: u64 = 0;

/// The bits of the double `-1.0`.
pub const MINUS_ONE_BITS: u64 = 0xbff0_0000_0000_0000;

/// The number of magnitudes that share an exponent.
pub const BINADE: u64 = 0x10_0000_0000_0000;

/// A thousand million.
pub const GIGA: u64 = 1_000_000_000;

/// The bits of a double without its sign.
pub open spec fn magnitude(bits: u64) -> int {
    if bits < SIGN_BIT {
        bits as int
    } else {
        bits - SIGN_BIT
    }
}

/// Whether the bits stand for no number at all.
pub open spec fn is_nan(bits: u64) -> bool {
    magnitude(bits) > INFINITY_BITS
}

/// Whether the bits stand for a number below infinity and above its negative.
pub open spec fn is_finite(bits: u64) -> bool {
    magnitude(bits) < INFINITY_BITS
}

/// The place of a double in the order of the numbers; both zeros have place 0.
pub open spec fn rank(bits: u64) -> int {
    if bits < SIGN_BIT {
        magnitude(bits)
    } else {
        -magnitude(bits)
    }
}

/// The number that a finite magnitude stands for, times two to the power 1074
/// (which makes every one of them whole).
pub open spec fn scaled_magnitude(m: int) -> int {
    let exponent = m / (BINADE as int);
    let fraction = m % (BINADE as int);
    if exponent == 0 {
        fraction
    } else {
        (BINADE + fraction) * pow2((exponent - 1) as nat)
    }
}

/// The number that the bits of a finite double stand for, times two to the
/// power 1074.
pub open spec fn scaled(bits: u64) -> int {
    if bits < SIGN_BIT {
        scaled_magnitude(magnitude(bits))
    } else {
        -scaled_magnitude(magnitude(bits))
    }
}

/// The index of the highest bit that is set in `m`.
pub open spec fn top_bit(m: nat) -> nat
    decreases m,
{
    if m < 2 {
        0
    } else {
        1 + top_bit(m / 2)
    }
}

/// `m` divided by two to the power `shift` and rounded to a whole number, a
/// half going to the even neighbour.
pub open spec fn half_even(m: nat, shift: nat) -> int {
    let unit = pow2(shift) as int;
    let low = m as int % unit;
    let quotient = m as int / unit;
    if 2 * low > unit || (2 * low == unit && quotient % 2 == 1) {
        quotient + 1
    } else {
        quotient
    }
}

/// The significand of the double for a whole number `m` above zero: `m` with
/// its highest bit moved to bit 52.
pub open spec fn significand(m: nat) -> int {
    let top = top_bit(m);
    if top <= 52 {
        m as int * pow2((52 - top) as nat)
    } else {
        half_even(m, (top - 52) as nat)
    }
}

/// The magnitude of the double for the whole number `m`.
pub open spec fn whole_magnitude(m: nat) -> int {
    if m == 0 {
        0
    } else {
        (top_bit(m) + 1022) * BINADE + significand(m)
    }
}

/// The bits of the double for the whole number `n`.
pub open spec fn whole_bits(n: int) -> int {
    if n < 0 {
        SIGN_BIT + whole_magnitude((-n) as nat)
    } else {
        whole_magnitude(n as nat)
    }
}

proof fn lemma_top_bit(m: nat)
    requires
        m > 0,
    ensures
        pow2(top_bit(m)) <= m < pow2(top_bit(m) + 1),
    decreases m,
{
    if m < 2 {
        lemma2_to64();
    } else {
        lemma_top_bit(m / 2);
        lemma_pow2_unfold(top_bit(m));
        lemma_pow2_unfold(top_bit(m) + 1);
    }
}

proof fn lemma_top_bit_at_most(m: nat, top: nat)
    requires
        0 < m < pow2(top + 1),
    ensures
        top_bit(m) <= top,
{
    lemma_top_bit(m);
    if top_bit(m) > top {
        if top_bit(m) > top + 1 {
            lemma_pow2_strictly_increases(top + 1, top_bit(m));
        }
    }
}

/// The highest 53 bits of a number that has more.
proof fn lemma_quotient_in_binade(m: nat)
    requires
        m > 0,
        top_bit(m) > 52,
    ensures
        BINADE <= m as int / (pow2((top_bit(m) - 52) as nat) as int) < 2 * BINADE,
{
    let shift = (top_bit(m) - 52) as nat;
    let unit = pow2(shift) as int;
    let quotient = m as int / unit;
    lemma_top_bit(m);
    lemma2_to64_rest();
    lemma_pow2_pos(shift);
    lemma_pow2_adds(52, shift);
    lemma_pow2_adds(53, shift);
    lemma_fundamental_div_mod(m as int, unit);
    lemma_mod_bound(m as int, unit);
    assert(BINADE <= quotient < 2 * BINADE) by (nonlinear_arith)
        requires
            BINADE * unit <= m < 2 * BINADE * unit,
            m == unit * quotient + m as int % unit,
            0 <= m as int % unit < unit,
            unit > 0,
    ;
}

/// The significand lies in its binade, or just at the start of the next.
proof fn lemma_significand(m: nat)
    requires
        m > 0,
    ensures
        BINADE <= significand(m) <= 2 * BINADE,
        top_bit(m) <= 52 ==> significand(m) < 2 * BINADE,
{
    let top = top_bit(m);
    lemma_top_bit(m);
    lemma2_to64_rest();
    lemma_pow2_pos(top);
    if top <= 52 {
        let up = pow2((52 - top) as nat);
        lemma_pow2_adds(top, (52 - top) as nat);
        lemma_pow2_adds(top + 1, (52 - top) as nat);
        lemma_pow2_pos((52 - top) as nat);
        assert(pow2(top) * up <= m * up < pow2(top + 1) * up) by (nonlinear_arith)
            requires
                pow2(top) <= m < pow2(top + 1),
                up > 0,
        ;
    } else {
        lemma_quotient_in_binade(m);
    }
}

/// Two to the power `exponent`.
fn power_of_two(exponent: u64) -> (power: u64)
    requires
        exponent < 64,
    ensures
        power == pow2(exponent as nat),
{
    let mut power: u64 = 1;
    let mut done: u64 = 0;
    proof {
        lemma2_to64();
    }
    while done < exponent
        invariant
            done <= exponent < 64,
            power == pow2(done as nat),
        decreases exponent - done,
    {
        proof {
            lemma2_to64();
            lemma_pow2_unfold((done + 1) as nat);
            if done + 1 < 64 {
                lemma_pow2_strictly_increases((done + 1) as nat, 64);
            }
        }
        power = power * 2;
        done = done + 1;
    }
    power
}

/// The magnitude of the double for `size`.
pub fn nearest_magnitude(size: u64) -> (near: u64)
    ensures
        near == whole_magnitude(size as nat),
        near < INFINITY_BITS,
{
    if size == 0 {
        return 0;
    }
    proof {
        lemma2_to64();
        lemma_top_bit_at_most(size as nat, 63);
        lemma_significand(size as nat);
        lemma_top_bit(size as nat);
    }
    let mut rest: u64 = size;
    let mut top: u64 = 0;
    while rest >= 2
        invariant
            rest >= 1,
            top_bit(size as nat) == top + top_bit(rest as nat),
            top_bit(size as nat) <= 63,
        decreases rest,
    {
        rest = rest / 2;
        top = top + 1;
    }
    let sig: u64 = if top <= 52 {
        let up = power_of_two(52 - top);
        size * up
    } else {
        let unit = power_of_two(top - 52);
        proof {
            lemma_pow2_pos((top - 52) as nat);
            lemma_mod_bound(size as int, unit as int);
        }
        let low = size % unit;
        let quotient = size / unit;
        if low > unit - low || (low == unit - low && quotient % 2 == 1) {
            quotient + 1
        } else {
            quotient
        }
    };
    (top + 1022) * BINADE + sig
}

/// A larger finite magnitude stands for a larger number.
proof fn lemma_scaled_increases(a: int, b: int)
    requires
        0 <= a < b < INFINITY_BITS,
    ensures
        0 <= scaled_magnitude(a) < scaled_magnitude(b),
{
    let ea = a / (BINADE as int);
    let fa = a % (BINADE as int);
    let eb = b / (BINADE as int);
    let fb = b % (BINADE as int);
    assert(ea <= eb);
    if ea == eb {
        if ea > 0 {
            let p = pow2((ea - 1) as nat) as int;
            lemma_pow2_pos((ea - 1) as nat);
            assert(0 <= (BINADE + fa) * p < (BINADE + fb) * p) by (nonlinear_arith)
                requires
                    0 <= fa < fb,
                    p > 0,
            ;
        }
    } else {
        let q = pow2((eb - 1) as nat) as int;
        lemma_pow2_pos((eb - 1) as nat);
        assert(BINADE * q <= (BINADE + fb) * q) by (nonlinear_arith)
            requires
                0 <= fb,
                q > 0,
        ;
        if ea == 0 {
            assert(BINADE <= BINADE * q) by (nonlinear_arith)
                requires
                    q > 0,
            ;
        } else {
            let p = pow2((ea - 1) as nat) as int;
            lemma_pow2_pos((ea - 1) as nat);
            lemma_pow2_unfold(ea as nat);
            if ea < eb - 1 {
                lemma_pow2_strictly_increases(ea as nat, (eb - 1) as nat);
            }
            assert(2 * p <= q);
            assert(0 <= (BINADE + fa) * p < BINADE * q) by (nonlinear_arith)
                requires
                    0 <= fa < BINADE,
                    p > 0,
                    2 * p <= q,
            ;
        }
    }
}

/// The order of the ranks is the order of the numbers.
pub proof fn law_rank_orders_numbers(a: u64, b: u64)
    requires
        is_finite(a),
        is_finite(b),
    ensures
        rank(a) < rank(b) <==> scaled(a) < scaled(b),
        rank(a) == rank(b) <==> scaled(a) == scaled(b),
{
    let ma = magnitude(a);
    let mb = magnitude(b);
    assert(scaled_magnitude(0) == 0);
    if ma > 0 {
        lemma_scaled_increases(0, ma);
    }
    if mb > 0 {
        lemma_scaled_increases(0, mb);
    }
    if ma < mb {
        lemma_scaled_increases(ma, mb);
    }
    if mb < ma {
        lemma_scaled_increases(mb, ma);
    }
}

/// The number of the magnitude that holds `sig` above `exponent` binades.
proof fn lemma_scaled_parts(exponent: nat, sig: int)
    requires
        BINADE <= sig <= 2 * BINADE,
    ensures
        scaled_magnitude(exponent * BINADE + sig) == sig * pow2(exponent),
{
    let m = exponent * BINADE + sig;
    if sig == 2 * BINADE {
        assert(m / (BINADE as int) == exponent + 2 && m % (BINADE as int) == 0);
        lemma_pow2_unfold(exponent + 1);
        let p = pow2(exponent) as int;
        assert((BINADE + 0) * (2 * p) == (2 * BINADE) * p) by (nonlinear_arith);
    } else {
        assert(m / (BINADE as int) == exponent + 1 && m % (BINADE as int) == sig - BINADE);
    }
}

/// Every whole number up to two to the power 53 is held exactly.
pub proof fn law_small_whole_numbers_are_exact(m: nat)
    requires
        m <= 2 * BINADE,
    ensures
        scaled_magnitude(whole_magnitude(m)) == m * pow2(1074),
{
    if m == 0 {
        assert(0 * pow2(1074) == 0) by (nonlinear_arith);
    } else {
        let top = top_bit(m);
        lemma_top_bit(m);
        lemma_significand(m);
        lemma_scaled_parts(top + 1022, significand(m));
        lemma2_to64_rest();
        if top <= 52 {
            let up = pow2((52 - top) as nat) as int;
            lemma_pow2_adds((52 - top) as nat, top + 1022);
            lemma_mul_is_associative(m as int, up, pow2(top + 1022) as int);
        } else {
            if top > 53 {
                lemma_pow2_strictly_increases(53, top);
            }
            lemma2_to64();
            assert(top == 53 && m == 2 * BINADE);
            assert(significand(m) == BINADE);
            lemma_pow2_unfold(1075);
            let p = pow2(1074) as int;
            assert(BINADE * (2 * p) == (2 * BINADE) * p) by (nonlinear_arith);
        }
    }
}

/// The double for a whole number of 64 bits is finite.
pub proof fn law_whole_numbers_are_finite(n: i64)
    ensures
        0 <= whole_bits(n as int) <= u64::MAX,
        is_finite(whole_bits(n as int) as u64),
        n < 0 <==> whole_bits(n as int) >= SIGN_BIT,
{
    let m = if n < 0 { (-n) as nat } else { n as nat };
    if m > 0 {
        lemma2_to64();
        lemma_top_bit_at_most(m, 63);
        lemma_significand(m);
    }
}

/// The double for a whole number of at most 53 bits is that number.
pub proof fn law_small_whole_doubles_are_exact(n: int)
    requires
        -2 * BINADE <= n <= 2 * BINADE,
    ensures
        scaled(whole_bits(n) as u64) == n * pow2(1074),
{
    law_whole_numbers_are_finite(n as i64);
    assert((n as i64) as int == n);
    if n < 0 {
        let m = (-n) as nat;
        let p = pow2(1074) as int;
        let bits = whole_bits(n) as u64;
        law_small_whole_numbers_are_exact(m);
        assert(magnitude(bits) == whole_magnitude(m));
        assert(m * pow2(1074) == m * p);
        assert(-(m * p) == n * p) by (nonlinear_arith)
            requires
                m == -n,
        ;
    } else {
        law_small_whole_numbers_are_exact(n as nat);
    }
}

/// How far the number of magnitude `d` is from `m`, times two to the power
/// 1074.
pub open spec fn distance(d: int, m: nat) -> int {
    let gap = scaled_magnitude(d) - m * pow2(1074);
    if gap < 0 {
        -gap
    } else {
        gap
    }
}

/// Rounding of a number that has more than 53 bits.
proof fn lemma_round_to_nearest(m: nat, d: int)
    requires
        0 < m <= u64::MAX,
        top_bit(m) > 52,
        0 <= d < INFINITY_BITS,
    ensures
        distance(whole_magnitude(m), m) <= distance(d, m),
        distance(whole_magnitude(m), m) == distance(d, m) && d != whole_magnitude(m)
            ==> whole_magnitude(m) % 2 == 0,
{
    let top = top_bit(m);
    let shift = (top - 52) as nat;
    let unit = pow2(shift) as int;
    let step = pow2(1074) as int;
    let ulp = pow2(top + 1022) as int;
    let quotient = m as int / unit;
    let low = m as int % unit;
    let sig = significand(m);
    let r = whole_magnitude(m);
    lemma2_to64();
    lemma_top_bit_at_most(m, 63);
    lemma_significand(m);
    lemma_pow2_pos(shift);
    lemma_pow2_pos(1074);
    lemma_pow2_adds(shift, 1074);
    assert(ulp == unit * step);
    lemma_fundamental_div_mod(m as int, unit);
    lemma_mod_bound(m as int, unit);
    assert(m * step == quotient * ulp + low * step) by (nonlinear_arith)
        requires
            m == unit * quotient + low,
            ulp == unit * step,
    ;
    assert(0 <= low * step < ulp) by (nonlinear_arith)
        requires
            0 <= low < unit,
            step > 0,
            ulp == unit * step,
    ;
    lemma_scaled_parts(top + 1022, sig);
    assert(r % 2 == sig % 2);
    if sig == quotient {
        assert(2 * (low * step) <= ulp && (2 * (low * step) == ulp ==> 2 * low == unit))
            by (nonlinear_arith)
            requires
                2 * low <= unit,
                step > 0,
                ulp == unit * step,
        ;
        if d > r {
            lemma_quotient_in_binade(m);
            lemma_scaled_parts(top + 1022, sig + 1);
            assert((sig + 1) * ulp == sig * ulp + ulp) by (nonlinear_arith);
            if d > r + 1 {
                lemma_scaled_increases(r + 1, d);
            }
        } else if d < r {
            lemma_scaled_increases(d, r);
        }
    } else {
        assert(2 * (low * step) >= ulp && (2 * (low * step) == ulp ==> 2 * low == unit))
            by (nonlinear_arith)
            requires
                2 * low >= unit,
                step > 0,
                ulp == unit * step,
        ;
        assert((quotient + 1) * ulp == quotient * ulp + ulp) by (nonlinear_arith);
        if d > r {
            lemma_scaled_increases(r, d);
        } else if d < r {
            lemma_quotient_in_binade(m);
            lemma_scaled_parts(top + 1022, quotient);
            if d < r - 1 {
                lemma_scaled_increases(d, r - 1);
            }
        }
    }
}

/// A whole number is rounded to the nearest double, and to the one with even
/// bits where two are equally near.
pub proof fn law_whole_numbers_round_to_nearest(m: nat, d: int)
    requires
        m <= u64::MAX,
        0 <= d < INFINITY_BITS,
    ensures
        distance(whole_magnitude(m), m) <= distance(d, m),
        distance(whole_magnitude(m), m) == distance(d, m) && d != whole_magnitude(m)
            ==> whole_magnitude(m) % 2 == 0,
{
    let r = whole_magnitude(m);
    if m > 0 && top_bit(m) > 52 {
        lemma_round_to_nearest(m, d);
    } else {
        if m > 0 {
            lemma2_to64_rest();
            lemma_top_bit(m);
            lemma_significand(m);
            if top_bit(m) < 52 {
                lemma_pow2_strictly_increases(top_bit(m) + 1, 53);
            }
        }
        law_small_whole_numbers_are_exact(m);
        if d > r {
            lemma_scaled_increases(r, d);
        } else if d < r {
            lemma_scaled_increases(d, r);
        }
    }
}

/// How far `den` times the number of magnitude `d` is from `s`, where both are
/// counted in units of two to the power -1074.
pub open spec fn quotient_gap(d: int, s: int, den: int) -> int {
    let gap = scaled_magnitude(d) * den - s;
    if gap < 0 {
        -gap
    } else {
        gap
    }
}

/// Whether magnitude `d` is the one nearest to `s / den`, with even bits where
/// two are equally near.
pub open spec fn is_nearest_quotient(d: int, s: int, den: int) -> bool {
    &&& 0 <= d < INFINITY_BITS
    &&& forall|e: int|
        0 <= e < INFINITY_BITS ==> quotient_gap(d, s, den) <= #[trigger] quotient_gap(e, s, den) && (
        quotient_gap(d, s, den) == quotient_gap(e, s, den) && e != d ==> d % 2 == 0)
}

/// No two magnitudes are nearest to one quotient.
pub proof fn law_nearest_quotient_is_unique(d: int, e: int, s: int, den: int)
    requires
        den > 0,
        is_nearest_quotient(d, s, den),
        is_nearest_quotient(e, s, den),
    ensures
        d == e,
{
    assert(quotient_gap(d, s, den) == quotient_gap(e, s, den));
    if d != e {
        let (a, b) = if d < e { (d, e) } else { (e, d) };
        assert(a % 2 == 0 && b % 2 == 0);
        let c = a + 1;
        lemma_scaled_increases(a, c);
        lemma_scaled_increases(c, b);
        let x = scaled_magnitude(a);
        let y = scaled_magnitude(c);
        let z = scaled_magnitude(b);
        assert(x * den < y * den < z * den) by (nonlinear_arith)
            requires
                x < y < z,
                den > 0,
        ;
        assert(quotient_gap(a, s, den) <= quotient_gap(c, s, den));
    }
}

/// Rounding of `numerator / den` to the nearest significand.
proof fn lemma_quotient_rounds_to_nearest(exponent: nat, numerator: nat, den: nat, sig: int, d: int)
    requires
        exponent < 2040,
        den > 0,
        BINADE <= numerator / den < 2 * BINADE,
        sig == numerator / den || sig == numerator / den + 1,
        sig == numerator / den ==> 2 * (numerator % den) <= den,
        sig == numerator / den + 1 ==> 2 * (numerator % den) >= den,
        2 * (numerator % den) == den ==> sig % 2 == 0,
        0 <= d < INFINITY_BITS,
    ensures
        ({
            let r = exponent * BINADE + sig;
            let s = (numerator * pow2(exponent)) as int;
            &&& 0 <= r < INFINITY_BITS
            &&& quotient_gap(r, s, den as int) <= quotient_gap(d, s, den as int)
            &&& quotient_gap(r, s, den as int) == quotient_gap(d, s, den as int) && d != r ==> r % 2 == 0
        }),
{
    let r = exponent * BINADE + sig;
    let ulp = pow2(exponent) as int;
    let s = numerator * ulp;
    let quotient = (numerator / den) as int;
    let low = (numerator % den) as int;
    let big = den as int;
    lemma_pow2_pos(exponent);
    lemma_fundamental_div_mod(numerator as int, big);
    lemma_mod_bound(numerator as int, big);
    let step = ulp * big;
    assert(s == quotient * step + low * ulp) by (nonlinear_arith)
        requires
            s == numerator * ulp,
            numerator == big * quotient + low,
            step == ulp * big,
    ;
    lemma_scaled_parts(exponent, sig);
    assert(sig * ulp * big == sig * step) by (nonlinear_arith)
        requires
            step == ulp * big,
    ;
    assert(r % 2 == sig % 2);
    let at = scaled_magnitude(r) * big;
    let other = scaled_magnitude(d) * big;
    if d > r {
        lemma_scaled_increases(r, d);
        assert(at < other) by (nonlinear_arith)
            requires
                at == scaled_magnitude(r) * big,
                other == scaled_magnitude(d) * big,
                scaled_magnitude(r) < scaled_magnitude(d),
                big > 0,
        ;
    }
    if d < r {
        lemma_scaled_increases(d, r);
        assert(other < at) by (nonlinear_arith)
            requires
                at == scaled_magnitude(r) * big,
                other == scaled_magnitude(d) * big,
                scaled_magnitude(d) < scaled_magnitude(r),
                big > 0,
        ;
    }
    if sig == quotient {
        assert(2 * (low * ulp) <= step && (2 * (low * ulp) == step ==> 2 * low == big) && low * ulp >= 0)
            by (nonlinear_arith)
            requires
                0 <= 2 * low <= big,
                ulp > 0,
                step == ulp * big,
        ;
        if d > r {
            lemma_scaled_parts(exponent, sig + 1);
            assert((sig + 1) * ulp * big == sig * step + step) by (nonlinear_arith)
                requires
                    step == ulp * big,
            ;
            if d > r + 1 {
                lemma_scaled_increases(r + 1, d);
                assert(scaled_magnitude(r + 1) * big < other) by (nonlinear_arith)
                    requires
                        other == scaled_magnitude(d) * big,
                        scaled_magnitude(r + 1) < scaled_magnitude(d),
                        big > 0,
                ;
            }
        }
    } else {
        assert(2 * (low * ulp) >= step && (2 * (low * ulp) == step ==> 2 * low == big) && low * ulp <= step)
            by (nonlinear_arith)
            requires
                2 * low >= big,
                low < big,
                ulp > 0,
                step == ulp * big,
        ;
        assert((quotient + 1) * step == quotient * step + step) by (nonlinear_arith);
        if d < r {
            lemma_scaled_parts(exponent, quotient);
            assert(quotient * ulp * big == quotient * step) by (nonlinear_arith)
                requires
                    step == ulp * big,
            ;
            if d < r - 1 {
                lemma_scaled_increases(d, r - 1);
                assert(other < scaled_magnitude(r - 1) * big) by (nonlinear_arith)
                    requires
                        other == scaled_magnitude(d) * big,
                        scaled_magnitude(d) < scaled_magnitude(r - 1),
                        big > 0,
                ;
            }
        }
    }
}

/// The whole number that the double for `size` holds.
fn rounded_whole(size: u64) -> (whole: u128)
    ensures
        scaled_magnitude(whole_magnitude(size as nat)) == whole * pow2(1074),
        whole <= 0x1_0000_0000_0000_0000,
        whole == 0 <==> size == 0,
{
    if size <= 2 * BINADE {
        proof {
            law_small_whole_numbers_are_exact(size as nat);
        }
        return size as u128;
    }
    let near = nearest_magnitude(size);
    proof {
        lemma2_to64();
        lemma2_to64_rest();
        lemma_top_bit_at_most(size as nat, 63);
        lemma_significand(size as nat);
        lemma_top_bit(size as nat);
        if top_bit(size as nat) < 53 {
            if top_bit(size as nat) < 52 {
                lemma_pow2_strictly_increases(top_bit(size as nat) + 1, 53);
            }
        }
    }
    let exponent: u64 = near / BINADE - 1;
    let sig: u64 = near % BINADE + BINADE;
    let power = power_of_two(exponent - 1074);
    proof {
        let shift = (exponent - 1074) as nat;
        lemma_pow2_pos(shift);
        lemma_pow2_adds(shift, 1074);
        lemma_mul_is_associative(sig as int, power as int, pow2(1074) as int);
        if shift < 12 {
            lemma_pow2_strictly_increases(shift, 12);
        }
        assert(exponent == 1086 ==> sig == BINADE);
        if shift < 11 {
            lemma_pow2_strictly_increases(shift, 11);
        }
        assert(BINADE <= sig * power <= 0x1_0000_0000_0000_0000) by (nonlinear_arith)
            requires
                BINADE <= sig < 2 * BINADE,
                0 < power,
                power <= 2048 || (sig == BINADE && power == 4096),
        ;
    }
    sig as u128 * power as u128
}

/// The magnitude of the double for `size` divided by a thousand million.
pub fn nearest_magnitude_of_nanos(size: u64) -> (near: u64)
    ensures
        is_nearest_quotient(near as int, scaled_magnitude(whole_magnitude(size as nat)), GIGA as int),
{
    let whole = rounded_whole(size);
    let ghost s = scaled_magnitude(whole_magnitude(size as nat));
    if whole == 0 {
        proof {
            assert(s == 0) by (nonlinear_arith)
                requires
                    s == 0 * pow2(1074),
            ;
            assert forall|e: int| 0 <= e < INFINITY_BITS implies quotient_gap(0, s, GIGA as int)
                <= #[trigger] quotient_gap(e, s, GIGA as int) by {}
        }
        return 0;
    }
    let low_end: u128 = BINADE as u128 * GIGA as u128;
    let mut numerator: u128 = whole;
    let mut shift: u64 = 0;
    proof {
        lemma2_to64();
    }
    while numerator < low_end
        invariant
            low_end == BINADE * GIGA,
            0 < whole,
            0 < numerator < 2 * low_end,
            numerator == whole * pow2(shift as nat),
            shift <= 82,
        decreases 2 * low_end - numerator,
    {
        proof {
            lemma_pow2_unfold((shift + 1) as nat);
            let p = pow2(shift as nat) as int;
            assert(whole * (2 * p) == 2 * (whole * p)) by (nonlinear_arith);
            assert(p <= whole * p) by (nonlinear_arith)
                requires
                    whole >= 1,
                    p >= 0,
            ;
            if shift == 82 {
                lemma_pow2_adds(64, 18);
                lemma2_to64();
                assert(pow2(82) == 0x1_0000_0000_0000_0000 * 0x4_0000);
            }
        }
        numerator = numerator * 2;
        shift = shift + 1;
    }
    let quotient: u128 = numerator / (GIGA as u128);
    let low: u128 = numerator % (GIGA as u128);
    let sig: u128 = if 2 * low > GIGA as u128 || (2 * low == GIGA as u128 && quotient % 2 == 1) {
        quotient + 1
    } else {
        quotient
    };
    let exponent: u64 = 1074 - shift;
    let near: u64 = exponent * BINADE + sig as u64;
    proof {
        lemma_pow2_adds(shift as nat, exponent as nat);
        lemma_mul_is_associative(whole as int, pow2(shift as nat) as int, pow2(exponent as nat) as int);
        assert(s == numerator * pow2(exponent as nat));
        assert forall|e: int| 0 <= e < INFINITY_BITS implies quotient_gap(near as int, s, GIGA as int)
            <= #[trigger] quotient_gap(e, s, GIGA as int) && (quotient_gap(near as int, s, GIGA as int)
            == quotient_gap(e, s, GIGA as int) && e != near ==> near % 2 == 0) by {
            lemma_quotient_rounds_to_nearest(exponent as nat, numerator as nat, GIGA as nat, sig as int, e);
        }
        lemma_quotient_rounds_to_nearest(exponent as nat, numerator as nat, GIGA as nat, sig as int, 0);
    }
    near
}

} // verus!
