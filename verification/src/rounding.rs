//! Numbers as the IEEE 754 binary formats round them, and as fixed-point
//! decimal text, all in integer arithmetic.
//!
//! The values here are never negative, and stay far inside the exponent range
//! of the formats, so a value is rounded to a number of significant bits alone.

use crate::number::{decimal, digit_char, push_decimal};
use vstd::arithmetic::div_mod::{lemma_fundamental_div_mod, lemma_fundamental_div_mod_converse};
use vstd::arithmetic::power2::{
    lemma2_to64, lemma2_to64_rest, lemma_pow2_adds, lemma_pow2_pos, lemma_pow2_strictly_increases,
    lemma_pow2_unfold, pow2,
};
use vstd::prelude::*;

verus! {

/// The quotient rounded to the nearest integer, a tie to the even one.
pub open spec fn div_half_even(p: nat, q: nat) -> nat {
    let floor = p / q;
    let rest = p % q;
    if 2 * rest < q || (2 * rest == q && floor % 2 == 0) {
        floor
    } else {
        floor + 1
    }
}

/// `n` rounded to fewer than `limit` units of `unit` or of a power of two times
/// it, whichever comes first.
pub open spec fn round_units(n: nat, unit: nat, limit: nat) -> nat
    decreases n - unit,
{
    if n / unit < limit || limit < 2 || unit == 0 {
        div_half_even(n, unit) * unit
    } else {
        proof {
            assert(2 * unit <= n) by (nonlinear_arith)
                requires
                    n / unit >= 2,
                    unit > 0,
            ;
        }
        round_units(n, 2 * unit, limit)
    }
}

/// An integer as a 64-bit floating point number holds it: 53 significant bits.
pub open spec fn as_binary64(n: nat) -> nat {
    round_units(n, 1, 0x20_0000_0000_0000)
}

/// An integer as a 32-bit floating point number holds it: 24 significant bits.
pub open spec fn as_binary32(n: nat) -> nat {
    round_units(n, 1, 0x100_0000)
}

/// The text of `p / q` without decimals.
pub open spec fn whole_text(p: nat, q: nat) -> Seq<char> {
    decimal(div_half_even(p, q))
}

/// The text of `p / q` with one decimal.
pub open spec fn tenths_text(p: nat, q: nat) -> Seq<char> {
    let tenths = div_half_even(10 * p, q);
    decimal(tenths / 10) + seq!['.', digit_char(tenths % 10)]
}

/// The quotient rounded to the nearest integer, a tie to the even one.
pub fn divide_half_even(p: u128, q: u128) -> (res: u128)
    requires
        0 < q <= u128::MAX / 2,
    ensures
        res == div_half_even(p as nat, q as nat),
{
    let floor: u128 = p / q;
    let rest: u128 = p % q;
    assert(q >= 2 ==> floor < u128::MAX) by (nonlinear_arith)
        requires
            floor == p / q,
            p <= u128::MAX,
            q > 0,
    ;
    if 2 * rest < q || (2 * rest == q && floor % 2 == 0) {
        floor
    } else {
        floor + 1
    }
}

/// Rounding moves a number by less than one unit.
proof fn lemma_div_half_even_bounds(p: nat, q: nat)
    requires
        q > 0,
    ensures
        p / q <= div_half_even(p, q) <= p / q + 1,
        div_half_even(p, q) * q <= p + q,
        p <= div_half_even(p, q) * q + q,
{
    let floor = p / q;
    let r = div_half_even(p, q);
    assert(floor * q <= p < floor * q + q) by (nonlinear_arith)
        requires
            floor == p / q,
            q > 0,
    ;
    assert(r * q <= floor * q + q && floor * q <= r * q) by (nonlinear_arith)
        requires
            floor <= r <= floor + 1,
            q > 0,
    ;
}

/// `n` rounded to fewer than `limit` units of a power of two times `unit`.
fn round_to_units(n: u64, unit: u128, limit: u64) -> (res: u128)
    requires
        0 < unit <= 0x1_0000_0000_0000_0000,
        unit <= n || unit == 1,
        limit >= 2,
    ensures
        res == round_units(n as nat, unit as nat, limit as nat),
        res <= 0x2_0000_0000_0000_0000,
    decreases n - unit,
{
    if n as u128 / unit < limit as u128 {
        let units = divide_half_even(n as u128, unit);
        proof {
            lemma_div_half_even_bounds(n as nat, unit as nat);
            assert(units * unit <= 0x2_0000_0000_0000_0000);
        }
        units * unit
    } else {
        assert(2 * unit <= n) by (nonlinear_arith)
            requires
                n as u128 / unit >= 2,
                unit > 0,
        ;
        round_to_units(n, 2 * unit, limit)
    }
}

/// An integer as a 64-bit floating point number holds it.
pub fn to_binary64(n: u64) -> (res: u128)
    ensures
        res == as_binary64(n as nat),
        res <= 0x2_0000_0000_0000_0000,
{
    round_to_units(n, 1, 0x20_0000_0000_0000)
}

/// An integer as a 32-bit floating point number holds it.
pub fn to_binary32(n: u64) -> (res: u128)
    ensures
        res == as_binary32(n as nat),
        res <= 0x2_0000_0000_0000_0000,
{
    round_to_units(n, 1, 0x100_0000)
}

/// Appends `p / q` without decimals.
pub fn push_whole(out: &mut String, p: u64, q: u64)
    requires
        1 < q,
    ensures
        final(out)@ == old(out)@ + whole_text(p as nat, q as nat),
{
    let n = divide_half_even(p as u128, q as u128);
    assert(n <= u64::MAX) by {
        lemma_div_half_even_bounds(p as nat, q as nat);
        assert(p / q <= p / 2) by (nonlinear_arith)
            requires
                q >= 2,
        ;
    }
    push_decimal(out, n as u64);
}

/// Appends `p / q` with one decimal.
pub fn push_tenths(out: &mut String, p: u128, q: u64)
    requires
        p <= 0x2_0000_0000_0000_0000,
        100 <= q,
    ensures
        final(out)@ == old(out)@ + tenths_text(p as nat, q as nat),
{
    let tenths = divide_half_even(10 * p, q as u128);
    assert(tenths / 10 <= u64::MAX) by {
        lemma_div_half_even_bounds(10 * p as nat, q as nat);
        assert((10 * p) / (q as int) <= (10 * p) / 100) by (nonlinear_arith)
            requires
                q >= 100,
                p >= 0,
        ;
    }
    push_decimal(out, (tenths / 10) as u64);
    out.push('.');
    let d: u8 = (tenths % 10) as u8;
    out.push((48 + d) as char);
    assert(out@ =~= old(out)@ + tenths_text(p as nat, q as nat));
}

/// `num / den` rounded to 53 significant bits, a tie to the even mantissa: the
/// result `(m, e)` stands for `m` times two to the power `e`.
pub open spec fn nearest(num: nat, den: nat) -> (nat, int)
    decreases
            if num >= den * 0x20_0000_0000_0000 {
                num - den * 0x20_0000_0000_0000 + 1
            } else if num < den * 0x10_0000_0000_0000 {
                den * 0x10_0000_0000_0000 - num
            } else {
                0
            },
{
    if num == 0 || den == 0 {
        (0, 0)
    } else if num >= den * 0x20_0000_0000_0000 {
        let (m, e) = nearest(num, 2 * den);
        (m, e + 1)
    } else if num < den * 0x10_0000_0000_0000 {
        let (m, e) = nearest(2 * num, den);
        (m, e - 1)
    } else {
        (div_half_even(num, den), 0)
    }
}

/// The nearest integer to `m` times two to the power `e`, a tie away from zero.
pub open spec fn round_half_up(m: nat, e: int) -> nat {
    if e >= 0 {
        m * pow2(e as nat)
    } else {
        (m + pow2((-e - 1) as nat)) / pow2((-e) as nat)
    }
}

/// A duration in seconds: the whole seconds, plus the fraction of a second as
/// the nearest 64-bit floating point number, rounded again.
pub open spec fn seconds(nanos: nat) -> (nat, int) {
    let whole = nanos / 1_000_000_000;
    let (m, e) = nearest(nanos % 1_000_000_000, 1_000_000_000);
    let scale = pow2((-e) as nat);
    nearest(whole * scale + m, scale)
}

/// An amount per second, rounded to an integer: the amount and the seconds are
/// 64-bit floating point numbers, and so is their quotient before it is
/// rounded. The largest value is `u64::MAX`.
pub open spec fn rate(amount: nat, nanos: nat) -> nat {
    let (ma, ea) = nearest(amount, 1);
    let (mt, et) = seconds(nanos);
    let (m, e) = nearest(ma, mt);
    let value = round_half_up(m, e + ea - et);
    if value <= u64::MAX {
        value
    } else {
        u64::MAX as nat
    }
}

proof fn lemma_div_half_even_scaled(p: nat, q: nat)
    requires
        q > 0,
    ensures
        div_half_even(2 * p, 2 * q) == div_half_even(p, q),
{
    let floor = (p / q) as int;
    let rest = (p % q) as int;
    lemma_fundamental_div_mod(p as int, q as int);
    assert(2 * p == floor * (2 * q) + 2 * rest) by (nonlinear_arith)
        requires
            p == q * floor + rest,
    ;
    lemma_fundamental_div_mod_converse(2 * p as int, 2 * q as int, floor, 2 * rest);
}

/// A common factor of two cancels.
proof fn lemma_nearest_cancels(num: nat, den: nat)
    ensures
        nearest(2 * num, 2 * den) == nearest(num, den),
    decreases
            if num >= den * 0x20_0000_0000_0000 {
                num - den * 0x20_0000_0000_0000 + 1
            } else if num < den * 0x10_0000_0000_0000 {
                den * 0x10_0000_0000_0000 - num
            } else {
                0
            },
{
    if num == 0 || den == 0 {
    } else if num >= den * 0x20_0000_0000_0000 {
        lemma_nearest_cancels(num, 2 * den);
    } else if num < den * 0x10_0000_0000_0000 {
        lemma_nearest_cancels(2 * num, den);
    } else {
        lemma_div_half_even_scaled(num, den);
    }
}

/// A power of two in the denominator only moves the exponent.
proof fn lemma_nearest_shifts(num: nat, den: nat, k: nat)
    requires
        num > 0,
        den > 0,
    ensures
        nearest(num, den * pow2(k)) == (nearest(num, den).0, nearest(num, den).1 - k),
    decreases k,
{
    if k == 0 {
        lemma2_to64();
    } else {
        lemma_nearest_shifts(num, den, (k - 1) as nat);
        lemma_pow2_unfold(k);
        lemma_pow2_pos((k - 1) as nat);
        let half = den * pow2((k - 1) as nat);
        assert(half > 0) by (nonlinear_arith)
            requires
                half == den * pow2((k - 1) as nat),
                den > 0,
                pow2((k - 1) as nat) > 0,
        ;
        assert(den * pow2(k) == 2 * half) by (nonlinear_arith)
            requires
                pow2(k) == 2 * pow2((k - 1) as nat),
                half == den * pow2((k - 1) as nat),
        ;
        lemma_nearest_cancels(num, half);
    }
}

/// A power of two below another has the smaller exponent.
proof fn lemma_pow2_below(k: nat, bound: nat)
    requires
        pow2(k) < pow2(bound),
    ensures
        k < bound,
{
    if bound < k {
        lemma_pow2_strictly_increases(bound, k);
    }
}

/// The powers of two that bound the exponents below.
proof fn lemma_large_powers()
    ensures
        pow2(83) == 0x8_0000_0000_0000_0000_0000,
        pow2(108) == 0x1000_0000_0000_0000_0000_0000_0000,
        pow2(120) == 0x100_0000_0000_0000_0000_0000_0000_0000,
{
    lemma2_to64();
    lemma2_to64_rest();
    lemma_pow2_adds(63, 20);
    lemma_pow2_adds(63, 45);
    lemma_pow2_adds(60, 60);
}

/// `num / den` rounded to 53 significant bits, as a mantissa and an exponent.
fn nearest_ratio(num: u128, den: u128) -> (res: (u64, i32))
    requires
        num < 0x100_0000_0000_0000_0000_0000_0000_0000,
        0 < den <= 0x20_0000_0000_0000,
    ensures
        (res.0 as nat, res.1 as int) == nearest(num as nat, den as nat),
        res.0 <= 0x20_0000_0000_0000,
        num > 0 ==> res.0 > 0,
        -108 < res.1 < 120,
        res.1 < 0 ==> num * pow2((-res.1) as nat) < den * 0x20_0000_0000_0000,
{
    proof {
        lemma_large_powers();
        lemma2_to64();
    }
    if num == 0 {
        return (0, 0);
    }
    let mut k: i32 = 0;
    if num >= den * 0x20_0000_0000_0000 {
        let mut d: u128 = den;
        assert(den * pow2(0) == den);
        while num >= d * 0x20_0000_0000_0000
            invariant
                0 < num < 0x100_0000_0000_0000_0000_0000_0000_0000 == pow2(120),
                0 < den,
                0 <= k < 120,
                d == den * pow2(k as nat),
                0 < d,
                d * 0x10_0000_0000_0000 <= num,
                nearest(num as nat, den as nat) == (
                    nearest(num as nat, d as nat).0,
                    nearest(num as nat, d as nat).1 + k,
                ),
            decreases num - d,
        {
            proof {
                lemma_pow2_unfold((k + 1) as nat);
                let pk = pow2(k as nat) as int;
                assert(2 * d == den * (2 * pk) && 2 * pk <= 2 * d) by (nonlinear_arith)
                    requires
                        d == den * pk,
                        den > 0,
                        pk >= 0,
                ;
                lemma_pow2_below((k + 1) as nat, 120);
            }
            d = 2 * d;
            k += 1;
        }
        let m = divide_half_even(num, d);
        proof {
            lemma_quotient_bounds(num as nat, d as nat);
        }
        (m as u64, k)
    } else {
        let mut n: u128 = num;
        assert(num * pow2(0) == num);
        while n < den * 0x10_0000_0000_0000
            invariant
                0 < num < 0x100_0000_0000_0000_0000_0000_0000_0000,
                0 < den <= 0x20_0000_0000_0000,
                pow2(108) == 0x1000_0000_0000_0000_0000_0000_0000,
                0 <= k < 108,
                n == num * pow2(k as nat),
                0 < n < den * 0x20_0000_0000_0000,
                nearest(num as nat, den as nat) == (
                    nearest(n as nat, den as nat).0,
                    nearest(n as nat, den as nat).1 - k,
                ),
            decreases den * 0x20_0000_0000_0000 - n,
        {
            proof {
                lemma_pow2_unfold((k + 1) as nat);
                let pk = pow2(k as nat) as int;
                assert(2 * n == num * (2 * pk) && 2 * pk <= 2 * n) by (nonlinear_arith)
                    requires
                        n == num * pk,
                        num > 0,
                        pk >= 0,
                ;
                lemma_pow2_below((k + 1) as nat, 108);
            }
            n = 2 * n;
            k += 1;
        }
        let m = divide_half_even(n, den);
        proof {
            lemma_quotient_bounds(n as nat, den as nat);
        }
        (m as u64, -k)
    }
}

/// A quotient between 2^52 and 2^53 keeps these bounds when it is rounded.
proof fn lemma_quotient_bounds(p: nat, q: nat)
    requires
        q > 0,
        q * 0x10_0000_0000_0000 <= p < q * 0x20_0000_0000_0000,
    ensures
        0x10_0000_0000_0000 <= div_half_even(p, q) <= 0x20_0000_0000_0000,
{
    lemma_div_half_even_bounds(p, q);
    assert(0x10_0000_0000_0000 <= p / q < 0x20_0000_0000_0000) by (nonlinear_arith)
        requires
            q > 0,
            q * 0x10_0000_0000_0000 <= p < q * 0x20_0000_0000_0000,
    ;
}

/// Two to the power `k`.
fn power_of_two(k: u32) -> (res: u128)
    requires
        k < 120,
    ensures
        res == pow2(k as nat),
        0 < res < 0x100_0000_0000_0000_0000_0000_0000_0000,
{
    let mut p: u128 = 1;
    let mut i: u32 = 0;
    proof {
        lemma2_to64();
    }
    while i < k
        invariant
            i <= k < 120,
            p == pow2(i as nat),
            0 < p < 0x100_0000_0000_0000_0000_0000_0000_0000,
        decreases k - i,
    {
        proof {
            lemma_pow2_unfold((i + 1) as nat);
            lemma_large_powers();
            lemma_pow2_strictly_increases((i + 1) as nat, 120);
        }
        p = 2 * p;
        i += 1;
    }
    p
}

/// The nearest integer to `m` times two to the power `e`, at most `u64::MAX`.
fn round_saturating(m: u64, e: i32) -> (res: u64)
    requires
        m <= 0x20_0000_0000_0000,
        -1000 < e < 1000,
    ensures
        res == (if round_half_up(m as nat, e as int) <= u64::MAX {
            round_half_up(m as nat, e as int)
        } else {
            u64::MAX as nat
        }),
{
    proof {
        lemma2_to64();
        lemma2_to64_rest();
    }
    if m == 0 {
        proof {
            if e < 0 {
                let k = (-e) as nat;
                lemma_pow2_unfold(k);
                lemma_pow2_pos((k - 1) as nat);
                lemma_fundamental_div_mod_converse(
                    pow2((k - 1) as nat) as int,
                    pow2(k) as int,
                    0,
                    pow2((k - 1) as nat) as int,
                );
            }
        }
        return 0;
    }
    if e >= 64 {
        proof {
            if e > 64 {
                lemma_pow2_strictly_increases(64, e as nat);
            }
            let p = pow2(e as nat) as int;
            assert(m * p >= p) by (nonlinear_arith)
                requires
                    m >= 1,
                    p >= 0,
            ;
        }
        return u64::MAX;
    }
    if e >= 0 {
        let p = power_of_two(e as u32);
        proof {
            if e < 63 {
                lemma_pow2_strictly_increases(e as nat, 63);
            }
            assert(m * p <= 0x20_0000_0000_0000 * 0x8000_0000_0000_0000) by (nonlinear_arith)
                requires
                    m <= 0x20_0000_0000_0000,
                    p <= 0x8000_0000_0000_0000,
            ;
        }
        let value: u128 = m as u128 * p;
        if value > u64::MAX as u128 {
            u64::MAX
        } else {
            value as u64
        }
    } else if e < -60 {
        proof {
            let k = (-e) as nat;
            lemma_pow2_unfold(k);
            if k > 61 {
                lemma_pow2_strictly_increases(60, (k - 1) as nat);
            }
            let sum = (m + pow2((k - 1) as nat)) as int;
            lemma_fundamental_div_mod_converse(sum, pow2(k) as int, 0, sum);
        }
        0
    } else {
        let half = power_of_two((-e - 1) as u32);
        let whole = power_of_two((-e) as u32);
        let sum: u128 = m as u128 + half;
        proof {
            if -e < 60 {
                lemma_pow2_strictly_increases((-e) as nat, 60);
            }
            lemma_pow2_unfold((-e) as nat);
            assert(sum / whole <= sum) by (nonlinear_arith)
                requires
                    whole > 0,
                    sum >= 0,
            ;
        }
        (sum / whole) as u64
    }
}

/// A duration in seconds as a 64-bit floating point number.
fn seconds_of(nanos: u64) -> (res: (u64, i32))
    ensures
        (res.0 as nat, res.1 as int) == seconds(nanos as nat),
        res.0 <= 0x20_0000_0000_0000,
        nanos > 0 ==> res.0 > 0,
        -250 < res.1 < 250,
{
    let whole: u64 = nanos / 1_000_000_000;
    let (m, e) = nearest_ratio((nanos % 1_000_000_000) as u128, 1_000_000_000);
    proof {
        lemma_large_powers();
        lemma2_to64();
        assert(e <= 0) by {
            lemma_fraction_exponent((nanos % 1_000_000_000) as nat);
        }
        if e < 0 {
            let p = pow2((-e) as nat) as int;
            let sub = (nanos % 1_000_000_000) as int;
            assert(p <= sub * p) by (nonlinear_arith)
                requires
                    sub >= 1,
                    p >= 0,
            ;
            lemma_pow2_below((-e) as nat, 83);
        }
    }
    let scale = power_of_two((-e) as u32);
    proof {
        if -e < 83 {
            lemma_pow2_strictly_increases((-e) as nat, 83);
        }
        assert(whole * scale <= 0x4_4B82_FA0A * 0x8_0000_0000_0000_0000_0000) by (nonlinear_arith)
            requires
                whole <= 0x4_4B82_FA0A,
                scale <= 0x8_0000_0000_0000_0000_0000,
        ;
        lemma_pow2_pos((-e) as nat);
    }
    let sum: u128 = whole as u128 * scale + m as u128;
    let (mt, et) = nearest_ratio(sum, 1);
    proof {
        if sum > 0 {
            lemma_nearest_shifts(sum as nat, 1, (-e) as nat);
        } else {
            assert(whole == 0) by (nonlinear_arith)
                requires
                    whole * scale + m == 0,
                    scale > 0,
                    whole >= 0,
                    m >= 0,
            ;
        }
    }
    if sum == 0 {
        (0, 0)
    } else {
        (mt, et + e)
    }
}

/// The exponent of a fraction of a second is not positive.
proof fn lemma_fraction_exponent(sub: nat)
    requires
        sub < 1_000_000_000,
    ensures
        nearest(sub, 1_000_000_000).1 <= 0,
{
    lemma_small_exponent(sub, 1_000_000_000);
}

proof fn lemma_small_exponent(num: nat, den: nat)
    requires
        num < den * 0x20_0000_0000_0000,
    ensures
        nearest(num, den).1 <= 0,
    decreases den * 0x20_0000_0000_0000 - num,
{
    if num > 0 && den > 0 && num < den * 0x10_0000_0000_0000 {
        lemma_small_exponent(2 * num, den);
    }
}

/// An amount per second, rounded to an integer.
pub fn rate_per_second(amount: u64, nanos: u64) -> (res: u64)
    requires
        nanos > 0,
    ensures
        res == rate(amount as nat, nanos as nat),
{
    let (ma, ea) = nearest_ratio(amount as u128, 1);
    let (mt, et) = seconds_of(nanos);
    let (m, e) = nearest_ratio(ma as u128, mt as u128);
    round_saturating(m, e + ea - et)
}

/// The distance between two numbers.
pub open spec fn apart(a: int, b: int) -> int {
    if a < b {
        b - a
    } else {
        a - b
    }
}

/// A rounded quotient is at most half a unit away from the quotient, and even if
/// it is just half a unit away.
pub proof fn law_quotient_is_nearest(p: nat, q: nat)
    requires
        q > 0,
    ensures
        2 * apart((div_half_even(p, q) * q) as int, p as int) <= q,
        2 * apart((div_half_even(p, q) * q) as int, p as int) == q ==> div_half_even(p, q) % 2 == 0,
{
    let floor = (p / q) as int;
    let rest = (p % q) as int;
    lemma_fundamental_div_mod(p as int, q as int);
    let n = div_half_even(p, q) as int;
    assert(floor * q == p - rest && (floor + 1) * q == p - rest + q) by (nonlinear_arith)
        requires
            p == q * floor + rest,
    ;
}

/// A whole quotient is not changed by rounding.
proof fn lemma_whole_quotient(n: nat, q: nat)
    requires
        q > 0,
    ensures
        div_half_even(n * q, q) == n,
{
    lemma_fundamental_div_mod_converse((n * q) as int, q as int, n as int, 0);
}

proof fn lemma_round_units_near(n: nat, unit: nat, limit: nat)
    requires
        limit >= 2,
        unit > 0,
        unit == 1 || limit * unit <= 2 * n,
    ensures
        apart(round_units(n, unit, limit) as int, n as int) * limit <= n,
        unit == 1 && n < limit ==> round_units(n, unit, limit) == n,
    decreases n - unit,
{
    if n / unit < limit {
        let r = div_half_even(n, unit) as int;
        law_quotient_is_nearest(n, unit);
        if unit == 1 {
            lemma_whole_quotient(n, 1);
        } else {
            let d = apart(r * unit, n as int);
            assert(d * limit <= n) by (nonlinear_arith)
                requires
                    2 * d <= unit,
                    limit * unit <= 2 * n,
                    limit >= 2,
            ;
        }
    } else {
        assert(limit * (2 * unit) <= 2 * n && 2 * unit <= n) by (nonlinear_arith)
            requires
                n / unit >= limit,
                limit >= 2,
                unit > 0,
        ;
        lemma_round_units_near(n, 2 * unit, limit);
    }
}

/// A floating point number of 64 bits is the integer itself below 2^53, and away
/// from it by at most one part in 2^53 above.
pub proof fn law_binary64_is_near(n: nat)
    ensures
        n < 0x20_0000_0000_0000 ==> as_binary64(n) == n,
        apart(as_binary64(n) as int, n as int) * 0x20_0000_0000_0000 <= n,
{
    lemma_round_units_near(n, 1, 0x20_0000_0000_0000);
    assert(n / 1 == n);
}

/// A floating point number of 32 bits is the integer itself below 2^24, and away
/// from it by at most one part in 2^24 above.
pub proof fn law_binary32_is_near(n: nat)
    ensures
        n < 0x100_0000 ==> as_binary32(n) == n,
        apart(as_binary32(n) as int, n as int) * 0x100_0000 <= n,
{
    lemma_round_units_near(n, 1, 0x100_0000);
    assert(n / 1 == n);
}

/// The text of a quotient without decimals is that of the nearest integer.
pub proof fn law_whole_text_is_nearest(p: nat, q: nat)
    requires
        q > 0,
    ensures
        exists|n: nat|
            whole_text(p, q) == #[trigger] decimal(n) && 2 * apart((n * q) as int, p as int) <= q,
{
    law_quotient_is_nearest(p, q);
    assert(whole_text(p, q) == decimal(div_half_even(p, q)));
}

/// The text of a number of tenths: the whole part, a point and one digit.
pub open spec fn with_one_decimal(tenths: nat) -> Seq<char> {
    decimal(tenths / 10) + seq!['.'] + decimal(tenths % 10)
}

/// The text of a quotient with one decimal is that of the nearest number of
/// tenths.
pub proof fn law_tenths_text_is_nearest(p: nat, q: nat)
    requires
        q > 0,
    ensures
        exists|n: nat|
            tenths_text(p, q) == #[trigger] with_one_decimal(n) && 2 * apart(
                (n * q) as int,
                (10 * p) as int,
            ) <= q,
{
    let n = div_half_even(10 * p, q);
    law_quotient_is_nearest(10 * p, q);
    assert(decimal(n % 10) =~= seq![digit_char(n % 10)]);
    assert(tenths_text(p, q) =~= with_one_decimal(n));
}

/// `m` times two to the power `e`, in units of two to the power `-k`.
spec fn scaled(m: nat, e: int, k: nat) -> nat {
    m * pow2((k + e) as nat)
}

proof fn lemma_scaled_doubles(m: nat, e: int, k: nat)
    requires
        k + e >= 0,
    ensures
        scaled(m, e + 1, k) == 2 * scaled(m, e, k),
        scaled(m, e, k + 1) == 2 * scaled(m, e, k),
{
    lemma_pow2_unfold((k + e + 1) as nat);
    let a = pow2((k + e) as nat) as int;
    assert(m * (2 * a) == 2 * (m * a)) by (nonlinear_arith);
}

/// A quotient of 53 significant bits is away from the quotient by at most one
/// part in 2^53.
proof fn lemma_nearest_is_near(num: nat, den: nat, k: nat)
    requires
        den > 0,
        k + nearest(num, den).1 >= 0,
    ensures
        ({
            let (m, e) = nearest(num, den);
            apart((scaled(m, e, k) * den) as int, (num * pow2(k)) as int) * 0x20_0000_0000_0000
                <= num * pow2(k)
        }),
    decreases
            if num >= den * 0x20_0000_0000_0000 {
                num - den * 0x20_0000_0000_0000 + 1
            } else if num < den * 0x10_0000_0000_0000 {
                den * 0x10_0000_0000_0000 - num
            } else {
                0
            },
{
    let (m, e) = nearest(num, den);
    let p = pow2(k);
    lemma_pow2_unfold(k + 1);
    if num == 0 {
        assert(scaled(0, 0, k) * den == 0) by (nonlinear_arith)
            requires
                scaled(0, 0, k) == 0,
        ;
        assert(num * p == 0) by (nonlinear_arith)
            requires
                num == 0,
        ;
    } else if num >= den * 0x20_0000_0000_0000 {
        lemma_nearest_is_near(num, 2 * den, k + 1);
        let v = scaled(m, e, k);
        assert(scaled(m, e - 1, k + 1) == v);
        assert(v * (2 * den) == 2 * (v * den) && num * (2 * p) == 2 * (num * p))
            by (nonlinear_arith);
    } else if num < den * 0x10_0000_0000_0000 {
        lemma_nearest_is_near(2 * num, den, k);
        let v = scaled(m, e, k);
        lemma_scaled_doubles(m, e, k);
        assert((2 * v) * den == 2 * (v * den) && (2 * num) * p == 2 * (num * p))
            by (nonlinear_arith);
    } else {
        law_quotient_is_nearest(num, den);
        let d = apart((m * den) as int, num as int);
        let v = scaled(m, 0, k);
        assert((m * p) * den == (m * den) * p) by (nonlinear_arith);
        assert(d * 0x20_0000_0000_0000 <= num);
        assert(apart(((m * den) * p) as int, (num * p) as int) == d * p) by (nonlinear_arith)
            requires
                d == apart((m * den) as int, num as int),
                p >= 0,
        ;
        assert(d * p * 0x20_0000_0000_0000 <= num * p) by (nonlinear_arith)
            requires
                d * 0x20_0000_0000_0000 <= num,
                p >= 0,
        ;
    }
}

/// A quotient that 53 significant bits can hold is not changed.
proof fn lemma_nearest_is_exact(num: nat, den: nat, k: nat, n: nat, a: nat, b: nat)
    requires
        den > 0,
        0 < n < 0x20_0000_0000_0000,
        num * pow2(a) == n * pow2(b) * den,
        k + nearest(num, den).1 >= 0,
    ensures
        ({
            let (m, e) = nearest(num, den);
            scaled(m, e, k) * pow2(a) == n * pow2(b) * pow2(k)
        }),
    decreases
            if num >= den * 0x20_0000_0000_0000 {
                num - den * 0x20_0000_0000_0000 + 1
            } else if num < den * 0x10_0000_0000_0000 {
                den * 0x10_0000_0000_0000 - num
            } else {
                0
            },
{
    let (m, e) = nearest(num, den);
    let (pa, pb, pk) = (pow2(a), pow2(b), pow2(k));
    lemma_pow2_pos(a);
    lemma_pow2_pos(b);
    lemma_pow2_unfold(a + 1);
    lemma_pow2_unfold(b + 1);
    lemma_pow2_unfold(k + 1);
    assert(n * pb * den > 0) by (nonlinear_arith)
        requires
            n > 0,
            pb > 0,
            den > 0,
    ;
    if num == 0 {
        assert(num * pa == 0) by (nonlinear_arith)
            requires
                num == 0,
        ;
    } else if num >= den * 0x20_0000_0000_0000 {
        assert(num * (2 * pa) == n * pb * (2 * den)) by (nonlinear_arith)
            requires
                num * pa == n * pb * den,
        ;
        lemma_nearest_is_exact(num, 2 * den, k + 1, n, a + 1, b);
        let v = scaled(m, e, k);
        assert(scaled(m, e - 1, k + 1) == v);
        assert(v * (2 * pa) == 2 * (v * pa) && n * pb * (2 * pk) == 2 * (n * pb * pk))
            by (nonlinear_arith);
    } else if num < den * 0x10_0000_0000_0000 {
        assert((2 * num) * pa == n * (2 * pb) * den) by (nonlinear_arith)
            requires
                num * pa == n * pb * den,
        ;
        lemma_nearest_is_exact(2 * num, den, k, n, a, b + 1);
        let v = scaled(m, e, k);
        lemma_scaled_doubles(m, e, k);
        assert((2 * v) * pa == 2 * (v * pa) && n * (2 * pb) * pk == 2 * (n * pb * pk))
            by (nonlinear_arith);
    } else {
        if b < a {
            let c = (a - b) as nat;
            lemma_pow2_adds(b, c);
            lemma_pow2_unfold(c);
            lemma_pow2_pos((c - 1) as nat);
            let pc = pow2(c);
            assert(n >= 0x20_0000_0000_0000) by (nonlinear_arith)
                requires
                    num * (pb * pc) == n * pb * den,
                    num >= den * 0x10_0000_0000_0000,
                    pc >= 2,
                    pb > 0,
                    den > 0,
            ;
        } else {
            let c = (b - a) as nat;
            lemma_pow2_adds(a, c);
            let pc = pow2(c);
            let q = n * pc;
            assert(num == q * den) by (nonlinear_arith)
                requires
                    num * pa == n * (pa * pc) * den,
                    q == n * pc,
                    pa > 0,
            ;
            lemma_whole_quotient(q, den);
            assert(m == q);
            assert((q * pk) * pa == n * (pa * pc) * pk) by (nonlinear_arith)
                requires
                    q == n * pc,
            ;
        }
    }
}

/// The nearest integer is at most half a unit away.
proof fn lemma_round_half_up_near(m: nat, e: int, k: nat)
    requires
        k + e >= 0,
    ensures
        2 * apart((round_half_up(m, e) * pow2(k)) as int, scaled(m, e, k) as int) <= pow2(k),
{
    let r = round_half_up(m, e);
    let pk = pow2(k);
    lemma_pow2_pos(k);
    if e >= 0 {
        let pe = pow2(e as nat);
        lemma_pow2_adds(k, e as nat);
        assert((m * pe) * pk == m * (pk * pe)) by (nonlinear_arith);
    } else {
        let c = (-e) as nat;
        let pc = pow2(c);
        let half = pow2((c - 1) as nat);
        let left = pow2((k + e) as nat);
        lemma_pow2_unfold(c);
        lemma_pow2_pos(c);
        lemma_pow2_pos((k + e) as nat);
        lemma_pow2_adds((k + e) as nat, c);
        lemma_fundamental_div_mod((m + half) as int, pc as int);
        let rest = ((m + half) % pc) as int;
        assert(m + half == pc * r + rest);
        assert(2 * apart((r * pc) as int, m as int) <= pc) by (nonlinear_arith)
            requires
                m + half == pc * r + rest,
                0 <= rest < pc,
                pc == 2 * half,
        ;
        let d = apart((r * pc) as int, m as int);
        assert(r * (left * pc) == (r * pc) * left) by (nonlinear_arith);
        assert(apart(((r * pc) * left) as int, (m * left) as int) == d * left) by (nonlinear_arith)
            requires
                d == apart((r * pc) as int, m as int),
                left >= 0,
        ;
        assert(2 * (d * left) <= left * pc) by (nonlinear_arith)
            requires
                2 * d <= pc,
                left >= 0,
        ;
    }
}

/// The exponent of a quotient, large enough to be taken away.
spec fn room(e: int) -> nat {
    if e < 0 {
        (-e) as nat
    } else {
        e as nat
    }
}

/// Seconds are away from the duration by at most three parts in 2^53.
proof fn lemma_seconds_near(nanos: nat, k: nat)
    requires
        k + seconds(nanos).1 >= 0,
        k + nearest(nanos % 1_000_000_000, 1_000_000_000).1 >= 0,
    ensures
        ({
            let (m, e) = seconds(nanos);
            apart((scaled(m, e, k) * 1_000_000_000) as int, (nanos * pow2(k)) as int)
                * 0x20_0000_0000_0000 <= 3 * (nanos * pow2(k))
        }),
{
    let whole = nanos / 1_000_000_000;
    let sub = nanos % 1_000_000_000;
    let (m, e) = nearest(sub, 1_000_000_000);
    let (mt, et) = seconds(nanos);
    let pk = pow2(k);
    lemma_fraction_exponent(sub);
    let c = (-e) as nat;
    let scale = pow2(c);
    let left = pow2((k + e) as nat);
    lemma_pow2_pos(c);
    lemma_pow2_adds((k + e) as nat, c);
    let n1 = whole * scale + m;
    lemma_nearest_is_near(sub, 1_000_000_000, k);
    lemma_nearest_is_near(n1, scale, k);
    let s0 = scaled(m, e, k);
    let w = whole * pk + s0;
    let y = scaled(mt, et, k);
    assert(n1 * pk == w * scale) by (nonlinear_arith)
        requires
            n1 == whole * scale + m,
            w == whole * pk + m * left,
            pk == left * scale,
    ;
    assert(apart(y as int, w as int) * 0x20_0000_0000_0000 <= w) by (nonlinear_arith)
        requires
            apart((y * scale) as int, (w * scale) as int) * 0x20_0000_0000_0000 <= w * scale,
            scale > 0,
    ;
    assert(nanos * pk == whole * pk * 1_000_000_000 + sub * pk) by (nonlinear_arith)
        requires
            nanos == whole * 1_000_000_000 + sub,
    ;
    assert(w * 1_000_000_000 == whole * pk * 1_000_000_000 + s0 * 1_000_000_000)
        by (nonlinear_arith)
        requires
            w == whole * pk + s0,
    ;
    assert(whole * pk * 1_000_000_000 >= 0) by (nonlinear_arith)
        requires
            whole >= 0,
            pk >= 0,
    ;
    let t = nanos * pk;
    let s = sub * pk;
    assert(s <= t);
    assert(apart((w * 1_000_000_000) as int, t as int) * 0x20_0000_0000_0000 <= t);
    assert(apart((y * 1_000_000_000) as int, (w * 1_000_000_000) as int) * 0x20_0000_0000_0000 <= w
        * 1_000_000_000);
}

/// What is known of a rate before it is rounded.
proof fn lemma_rate_near(amount: nat, nanos: nat)
    requires
        nanos > 0,
        seconds(nanos).0 > 0,
    ensures
        ({
            let (ma, ea) = nearest(amount, 1);
            let (mt, et) = seconds(nanos);
            let (m, e) = nearest(ma, mt);
            apart(
                (round_half_up(m, e + ea - et) * nanos) as int,
                (amount * 1_000_000_000) as int,
            ) * 0x40_0000_0000_0000 <= 0x20_0000_0000_0000 * nanos + 18 * (amount * 1_000_000_000)
        }),
{
    let (ma, ea) = nearest(amount, 1);
    let (mt, et) = seconds(nanos);
    let (m, e) = nearest(ma, mt);
    let inner = nearest(nanos % 1_000_000_000, 1_000_000_000).1;
    let f = e + ea - et;
    let k = room(ea) + room(et) + room(e) + room(inner) + room(f);
    let pk = pow2(k);
    lemma_pow2_pos(k);
    lemma_nearest_is_near(amount, 1, k);
    lemma_nearest_is_near(ma, mt, k);
    lemma_seconds_near(nanos, k);
    lemma_round_half_up_near(m, f, k);
    let x = scaled(ma, ea, k) as int;
    let y = scaled(mt, et, k) as int;
    let q = scaled(m, e, k) as int;
    let r = scaled(m, f, k) as int;
    let v = round_half_up(m, f) as int;
    let pa = pow2((k + ea) as nat) as int;
    let d = 0x20_0000_0000_0000int;
    // Both are `m * mt` times a power of two with the same exponent.
    assert(r * y == q * mt * pa) by {
        let (pf, pt, pe) = (
            pow2((k + f) as nat),
            pow2((k + et) as nat),
            pow2((k + e) as nat),
        );
        lemma_pow2_adds((k + f) as nat, (k + et) as nat);
        lemma_pow2_adds((k + e) as nat, (k + ea) as nat);
        assert((k + f) + (k + et) == (k + e) + (k + ea));
        assert((m * pf) * (mt * pt) == (m * pe) * mt * pa) by (nonlinear_arith)
            requires
                pf * pt == pe * pa,
        ;
    }
    assert(x * pk == ma * pk * pa) by (nonlinear_arith)
        requires
            x == ma * pa,
    ;
    let b = apart(q * mt, (ma * pk) as int);
    assert(apart(r * y, x * pk) == b * pa) by (nonlinear_arith)
        requires
            b == apart(q * mt, (ma * pk) as int),
            r * y == q * mt * pa,
            x * pk == ma * pk * pa,
            pa >= 0,
    ;
    assert(apart(r * y, x * pk) * d <= x * pk) by (nonlinear_arith)
        requires
            apart(r * y, x * pk) == b * pa,
            b * d <= ma * pk,
            x * pk == ma * pk * pa,
            pa >= 0,
    ;
    let big = 1_000_000_000int;
    let u = r * nanos * pk;
    let v1 = r * y * big;
    let w1 = x * pk * big;
    let z = amount * big * pk * pk;
    assert(r >= 0 && y >= 0 && x >= 0) by (nonlinear_arith)
        requires
            r == m * pow2((k + f) as nat),
            y == mt * pow2((k + et) as nat),
            x == ma * pa,
            pa >= 0,
    ;
    let t = (nanos * pk) as int;
    assert(apart(u, v1) * d <= 3 * u) by (nonlinear_arith)
        requires
            apart(y * big, t) * d <= 3 * t,
            u == r * nanos * pk,
            v1 == r * y * big,
            t == nanos * pk,
            r >= 0,
            d > 0,
    ;
    assert(apart(v1, w1) * d <= w1) by (nonlinear_arith)
        requires
            apart(r * y, x * pk) * d <= x * pk,
            v1 == r * y * big,
            w1 == x * pk * big,
            big > 0,
    ;
    let ak = (amount * pk) as int;
    assert(apart(x, ak) * d <= ak);
    assert(apart(w1, z) * d <= z) by (nonlinear_arith)
        requires
            apart(x, ak) * d <= ak,
            w1 == x * pk * big,
            z == amount * big * pk * pk,
            ak == amount * pk,
            pk > 0,
            big > 0,
    ;
    assert(u >= 0 && w1 >= 0 && z >= 0) by (nonlinear_arith)
        requires
            u == r * nanos * pk,
            w1 == x * pk * big,
            z == amount * big * pk * pk,
            r >= 0,
            x >= 0,
            pk > 0,
            big > 0,
            nanos > 0,
            amount >= 0,
    ;
    assert(apart(u, z) * d <= 9 * z);
    let ra = amount * big * pk;
    assert(apart(r * nanos, ra) * d <= 9 * ra) by (nonlinear_arith)
        requires
            apart(u, z) * d <= 9 * z,
            u == r * nanos * pk,
            z == ra * pk,
            pk > 0,
    ;
    assert(2 * apart(v * pk * nanos, r * nanos) <= pk * nanos) by (nonlinear_arith)
        requires
            2 * apart(v * pk, r) <= pk,
            nanos > 0,
    ;
    let (p1, p2, p3) = (v * pk * nanos, r * nanos, (pk * nanos) as int);
    assert(2 * d * apart(p1, ra) <= d * p3 + 18 * ra) by (nonlinear_arith)
        requires
            2 * apart(p1, p2) <= p3,
            apart(p2, ra) * d <= 9 * ra,
            d > 0,
    ;
    let a = amount * big;
    assert(2 * d * apart(v * nanos, a) <= d * nanos + 18 * a) by (nonlinear_arith)
        requires
            2 * d * apart(v * pk * nanos, ra) <= d * (pk * nanos) + 18 * ra,
            ra == a * pk,
            pk > 0,
    ;
}

proof fn lemma_nearest_positive(num: nat, den: nat)
    requires
        num > 0,
        den > 0,
    ensures
        nearest(num, den).0 > 0,
    decreases
            if num >= den * 0x20_0000_0000_0000 {
                num - den * 0x20_0000_0000_0000 + 1
            } else if num < den * 0x10_0000_0000_0000 {
                den * 0x10_0000_0000_0000 - num
            } else {
                0
            },
{
    if num >= den * 0x20_0000_0000_0000 {
        lemma_nearest_positive(num, 2 * den);
    } else if num < den * 0x10_0000_0000_0000 {
        lemma_nearest_positive(2 * num, den);
    } else {
        lemma_quotient_bounds(num, den);
    }
}

proof fn lemma_seconds_positive(nanos: nat)
    requires
        nanos > 0,
    ensures
        seconds(nanos).0 > 0,
{
    let whole = nanos / 1_000_000_000;
    let sub = nanos % 1_000_000_000;
    let (m, e) = nearest(sub, 1_000_000_000);
    let scale = pow2((-e) as nat);
    lemma_pow2_pos((-e) as nat);
    if sub > 0 {
        lemma_nearest_positive(sub, 1_000_000_000);
    }
    assert(whole * scale + m > 0) by (nonlinear_arith)
        requires
            whole > 0 || m > 0,
            scale > 0,
            whole >= 0,
            m >= 0,
    ;
    lemma_nearest_positive(whole * scale + m, scale);
}

/// A rate times the duration is the amount: it is rounded to an integer, and away
/// from that by no more than nine parts in 2^53. A duration is in nanoseconds. Only
/// a rate that is too large for 64 bits is cut off.
pub proof fn law_rate_times_duration_is_amount(amount: nat, nanos: nat)
    requires
        nanos > 0,
    ensures
        rate(amount, nanos) < u64::MAX ==> apart(
            (rate(amount, nanos) * nanos) as int,
            (amount * 1_000_000_000) as int,
        ) * 0x40_0000_0000_0000 <= 0x20_0000_0000_0000 * nanos + 18 * (amount * 1_000_000_000),
        rate(amount, nanos) >= u64::MAX ==> rate(amount, nanos) == u64::MAX && 2 * (amount
            * 1_000_000_000) >= 0xffff_ffff_ffff_fffe * nanos,
{
    lemma_seconds_positive(nanos);
    lemma_rate_near(amount, nanos);
    let (ma, ea) = nearest(amount, 1);
    let (mt, et) = seconds(nanos);
    let (m, e) = nearest(ma, mt);
    let value = round_half_up(m, e + ea - et);
    if value >= u64::MAX {
        assert(value * nanos >= 0xffff_ffff_ffff_ffff * nanos) by (nonlinear_arith)
            requires
                value >= 0xffff_ffff_ffff_ffff,
        ;
    }
}

/// A rate is an integer that the amount in whole seconds comes to, if there is one.
pub proof fn law_rate_over_whole_seconds(speed: nat, secs: nat)
    requires
        0 < secs,
        speed * secs < 0x20_0000_0000_0000,
        secs < 0x20_0000_0000_0000,
    ensures
        rate(speed * secs, secs * 1_000_000_000) == speed,
{
    let amount = speed * secs;
    let nanos = secs * 1_000_000_000;
    let (ma, ea) = nearest(amount, 1);
    let (mt, et) = seconds(nanos);
    let (m, e) = nearest(ma, mt);
    let f = e + ea - et;
    let k = room(ea) + room(et) + room(e) + room(f);
    let pk = pow2(k);
    lemma_pow2_pos(k);
    lemma2_to64();
    assert(nanos / 1_000_000_000 == secs && nanos % 1_000_000_000 == 0);
    assert(nearest(0, 1_000_000_000) == (0nat, 0int));
    assert(secs * pow2(0) + 0 == secs) by (nonlinear_arith)
        requires
            pow2(0) == 1,
    ;
    assert(seconds(nanos) == nearest(secs, 1));
    lemma_nearest_positive(secs, 1);
    lemma_round_half_up_near(m, f, k);
    if speed == 0 {
        assert(amount == 0) by (nonlinear_arith)
            requires
                amount == speed * secs,
                speed == 0,
        ;
        assert(scaled(0, f, k) == 0) by (nonlinear_arith)
            requires
                scaled(0, f, k) == 0 * pow2((k + f) as nat),
        ;
    } else {
        assert(amount > 0 && speed <= amount) by (nonlinear_arith)
            requires
                amount == speed * secs,
                speed > 0,
                secs > 0,
        ;
        lemma_nearest_is_exact(amount, 1, k, amount, 0, 0);
        lemma_nearest_is_exact(secs, 1, k, secs, 0, 0);
        let x = scaled(ma, ea, k);
        let y = scaled(mt, et, k);
        assert(x == amount * pk && y == secs * pk);
        let pa = pow2((k + ea) as nat);
        let pt = pow2((k + et) as nat);
        lemma_pow2_pos((k + ea) as nat);
        // The quotient is the speed times a power of two.
        assert(ma * pa == speed * pt * mt) by (nonlinear_arith)
            requires
                ma * pa == amount * pk,
                mt * pt == secs * pk,
                amount == speed * secs,
        ;
        lemma_nearest_is_exact(ma, mt, k, speed, (k + ea) as nat, (k + et) as nat);
        let q = scaled(m, e, k);
        let r = scaled(m, f, k);
        assert(q * pa == speed * pt * pk);
        let (pf, pe) = (pow2((k + f) as nat), pow2((k + e) as nat));
        lemma_pow2_adds((k + f) as nat, (k + et) as nat);
        lemma_pow2_adds((k + e) as nat, (k + ea) as nat);
        assert((k + f) + (k + et) == (k + e) + (k + ea));
        lemma_pow2_pos((k + et) as nat);
        assert(r == speed * pk) by (nonlinear_arith)
            requires
                r == m * pf,
                q == m * pe,
                q * pa == speed * pt * pk,
                pf * pt == pe * pa,
                pt > 0,
        ;
    }
    let v = round_half_up(m, f);
    assert(v == speed) by (nonlinear_arith)
        requires
            2 * apart((v * pk) as int, (speed * pk) as int) <= pk,
            pk > 0,
    ;
}

} // verus!
