//! Ticks of a media clock as a time of day.
//!
//! Milliseconds are counted in double precision: the ticks become a double, the
//! double is divided by the timescale and multiplied by a thousand, and each of the
//! three results is rounded to the nearest double before the next step. The steps
//! are carried out here on integers, as a significand and a power of two.

use vstd::prelude::*;
use vstd::arithmetic::power2::pow2;
use crate::segments::{is_number, lemma_padded, value};
use crate::text::{
    decimal, law_decimal_digits, law_padding_is_zeros, padded, push_padded,
};

verus! {

/// The smallest significand of a normal double.
pub const LOW: u64 = 0x10_0000_0000_0000;

/// The bound below which the significand of a double lies.
pub const HIGH: u64 = 0x20_0000_0000_0000;

/// The number `significand * 2^exponent`.
pub struct Scaled {
    pub significand: nat,
    pub exponent: int,
}

/// The integer nearest to `p / q`, and of two that are equally near the even one.
pub open spec fn nearest_even(p: nat, q: nat) -> nat {
    let whole = p / q;
    let rest = p % q;
    if 2 * rest < q || (2 * rest == q && whole % 2 == 0) {
        whole
    } else {
        whole + 1
    }
}

/// The double nearest to `p / q`, for `p / q` of at least `LOW`: the quotient is
/// halved until it is below `HIGH`, and then rounded to an integer.
pub open spec fn halved(p: nat, q: nat) -> Scaled
    decreases p - q,
{
    if q == 0 || p < HIGH * q {
        Scaled { significand: nearest_even(p, q), exponent: 0 }
    } else {
        let half = halved(p, 2 * q);
        Scaled { significand: half.significand, exponent: half.exponent + 1 }
    }
}

/// The double nearest to `p / q`, for `p / q` below `HIGH`: the quotient is
/// doubled until it is at least `LOW`, and then rounded to an integer.
pub open spec fn doubled(p: nat, q: nat) -> Scaled
    decreases HIGH * q - p,
{
    if p == 0 || p >= LOW * q {
        Scaled { significand: nearest_even(p, q), exponent: 0 }
    } else {
        let twice = doubled(2 * p, q);
        Scaled { significand: twice.significand, exponent: twice.exponent - 1 }
    }
}

/// The double nearest to `p / q`, ties to the even significand.
pub open spec fn nearest_double(p: nat, q: nat) -> Scaled {
    if p < LOW * q {
        doubled(p, q)
    } else {
        halved(p, q)
    }
}

/// `ticks` in seconds of `timescale` ticks each, as doubles divide.
pub open spec fn seconds(ticks: u64, timescale: u32) -> Scaled {
    let dividend = nearest_double(ticks as nat, 1);
    let quotient = nearest_double(dividend.significand, timescale as nat);
    Scaled {
        significand: quotient.significand,
        exponent: quotient.exponent + dividend.exponent,
    }
}

/// A thousand times `x`, as doubles multiply.
pub open spec fn thousandfold(x: Scaled) -> Scaled {
    let product = nearest_double(x.significand * 1000, 1);
    Scaled { significand: product.significand, exponent: product.exponent + x.exponent }
}

/// The integer nearest to `x`, halves upward.
pub open spec fn nearest_integer(x: Scaled) -> nat {
    if x.exponent >= 0 {
        x.significand * pow2(x.exponent as nat)
    } else {
        (x.significand + pow2((-x.exponent - 1) as nat)) / pow2((-x.exponent) as nat)
    }
}

/// The integer nearest to `x`, halves upward, and at most `u64::MAX`.
pub open spec fn rounded(x: Scaled) -> nat {
    if nearest_integer(x) > u64::MAX {
        u64::MAX as nat
    } else {
        nearest_integer(x)
    }
}

/// The milliseconds that `ticks` last at `timescale` ticks a second. At a timescale
/// of zero no ticks last no time, and any other number lasts for ever.
pub open spec fn millis(ticks: u64, timescale: u32) -> nat {
    if ticks == 0 {
        0
    } else if timescale == 0 {
        u64::MAX as nat
    } else {
        rounded(thousandfold(seconds(ticks, timescale)))
    }
}

/// The significand of a rounded quotient lies between those of its bounds.
proof fn lemma_nearest_even_range(p: nat, q: nat)
    requires
        q > 0,
        LOW * q <= p < HIGH * q,
    ensures
        LOW <= nearest_even(p, q) <= HIGH,
{
    let whole = p / q;
    assert(LOW <= whole < HIGH) by (nonlinear_arith)
        requires
            q > 0,
            LOW * q <= p < HIGH * q,
            whole == p / q,
    ;
}

/// A power of two that is at most `x` has a small exponent.
proof fn lemma_exponent_bound(e: nat, x: nat)
    requires
        pow2(e) <= x,
    ensures
        x < 0x20_0000_0000_0000_0000_0000 ==> e < 85,
        x <= u64::MAX ==> e < 64,
        pow2(e + 1) == 2 * pow2(e),
{
    broadcast use vstd::arithmetic::power2::lemma_pow2_unfold;
    vstd::arithmetic::power2::lemma2_to64();
    vstd::arithmetic::power2::lemma_pow2_adds(64, 21);
    if e > 85 {
        vstd::arithmetic::power2::lemma_pow2_strictly_increases(85, e);
    }
    if e > 64 {
        vstd::arithmetic::power2::lemma_pow2_strictly_increases(64, e);
    }
}

/// The integer nearest to `p / q`.
fn round_quotient(p: u128, q: u128) -> (r: u128)
    requires
        0 < q < 0x1_0000_0000_0000_0000_0000_0000,
        p < HIGH * q,
    ensures
        r == nearest_even(p as nat, q as nat),
        r <= HIGH,
{
    let whole: u128 = p / q;
    let rest: u128 = p % q;
    assert(whole < HIGH && rest < q) by (nonlinear_arith)
        requires
            q > 0,
            p < HIGH * q,
            whole == p / q,
            rest == p % q,
    ;
    if 2 * rest < q || (2 * rest == q && whole % 2 == 0) {
        whole
    } else {
        whole + 1
    }
}

/// A double in integers: `significand * 2^exponent`.
struct Double {
    significand: u64,
    exponent: i32,
}

impl Double {
    spec fn view(&self) -> Scaled {
        Scaled { significand: self.significand as nat, exponent: self.exponent as int }
    }
}

/// The double nearest to `p / q`.
fn divide(p: u64, q: u32) -> (r: Double)
    requires
        p > 0,
        q > 0,
    ensures
        r@ == nearest_double(p as nat, q as nat),
        LOW <= r.significand <= HIGH,
        -128 <= r.exponent <= 128,
{
    let mut num: u128 = p as u128;
    let mut den: u128 = q as u128;
    let mut exponent: i32 = 0;
    assert(pow2(0) == 1) by {
        vstd::arithmetic::power2::lemma2_to64();
    }
    if num < LOW as u128 * den {
        while num < LOW as u128 * den
            invariant
                0 < num < HIGH * den,
                0 < den <= u32::MAX,
                -85 <= exponent <= 0,
                num >= pow2((-exponent) as nat),
                doubled(p as nat, den as nat).significand == doubled(
                    num as nat,
                    den as nat,
                ).significand,
                doubled(p as nat, den as nat).exponent == doubled(
                    num as nat,
                    den as nat,
                ).exponent + exponent,
            decreases HIGH * den - num,
        {
            proof {
                lemma_exponent_bound((-exponent) as nat, num as nat);
            }
            num = 2 * num;
            exponent = exponent - 1;
        }
    } else {
        while num >= HIGH as u128 * den
            invariant
                LOW * den <= num,
                num <= u64::MAX,
                HIGH * den <= 2 * num,
                0 < den <= num,
                0 <= exponent <= 64,
                den >= pow2(exponent as nat),
                halved(p as nat, q as nat).significand == halved(
                    num as nat,
                    den as nat,
                ).significand,
                halved(p as nat, q as nat).exponent == halved(num as nat, den as nat).exponent
                    + exponent,
            decreases num - den,
        {
            proof {
                lemma_exponent_bound(exponent as nat, den as nat);
            }
            assert(LOW * (2 * den) == HIGH * den && HIGH * (2 * den) == 2 * (HIGH * den))
                by (nonlinear_arith)
                requires
                    HIGH == 2 * LOW,
            ;
            den = 2 * den;
            exponent = exponent + 1;
        }
    }
    proof {
        lemma_nearest_even_range(num as nat, den as nat);
    }
    let significand: u128 = round_quotient(num, den);
    Double { significand: significand as u64, exponent }
}

/// `2^n`.
fn power_of_two(n: u32) -> (r: u128)
    requires
        n <= 64,
    ensures
        r == pow2(n as nat),
        r <= 0x1_0000_0000_0000_0000,
{
    let mut r: u128 = 1;
    let mut i: u32 = 0;
    proof {
        vstd::arithmetic::power2::lemma2_to64();
    }
    while i < n
        invariant
            i <= n <= 64,
            r == pow2(i as nat),
            r <= 0x1_0000_0000_0000_0000,
        decreases n - i,
    {
        proof {
            vstd::arithmetic::power2::lemma_pow2_unfold((i + 1) as nat);
            vstd::arithmetic::power2::lemma2_to64();
            if i + 1 < 64 {
                vstd::arithmetic::power2::lemma_pow2_strictly_increases((i + 1) as nat, 64);
            }
        }
        r = 2 * r;
        i = i + 1;
    }
    r
}

/// The integer nearest to `x`.
fn round(x: Double) -> (r: u64)
    requires
        LOW <= x.significand <= HIGH,
        -1024 <= x.exponent <= 1024,
    ensures
        r == rounded(x@),
{
    proof {
        vstd::arithmetic::power2::lemma2_to64();
        vstd::arithmetic::power2::lemma2_to64_rest();
    }
    if x.exponent >= 0 {
        if x.exponent >= 12 {
            proof {
                if x.exponent > 12 {
                    vstd::arithmetic::power2::lemma_pow2_strictly_increases(
                        12,
                        x.exponent as nat,
                    );
                }
                let power = pow2(x.exponent as nat);
                assert(x.significand * power >= LOW * 4096) by (nonlinear_arith)
                    requires
                        x.significand >= LOW,
                        power >= 4096,
                ;
            }
            u64::MAX
        } else {
            let power: u128 = power_of_two(x.exponent as u32);
            proof {
                if x.exponent < 11 {
                    vstd::arithmetic::power2::lemma_pow2_strictly_increases(
                        x.exponent as nat,
                        11,
                    );
                }
                assert(x.significand * power <= HIGH * 2048) by (nonlinear_arith)
                    requires
                        x.significand <= HIGH,
                        power <= 2048,
                ;
            }
            let whole: u128 = x.significand as u128 * power;
            if whole > u64::MAX as u128 {
                u64::MAX
            } else {
                whole as u64
            }
        }
    } else if x.exponent < -64 {
        proof {
            let bits = (-x.exponent) as nat;
            vstd::arithmetic::power2::lemma_pow2_unfold(bits);
            if bits > 65 {
                vstd::arithmetic::power2::lemma_pow2_strictly_increases(64, (bits - 1) as nat);
            }
            vstd::arithmetic::div_mod::lemma_basic_div(
                x.significand + pow2((bits - 1) as nat),
                pow2(bits) as int,
            );
        }
        0
    } else {
        let bits: u32 = (-x.exponent) as u32;
        let half: u128 = power_of_two(bits - 1);
        let power: u128 = power_of_two(bits);
        let whole: u128 = (x.significand as u128 + half) / power;
        proof {
            vstd::arithmetic::power2::lemma_pow2_unfold(bits as nat);
            assert(whole <= x.significand + half) by (nonlinear_arith)
                requires
                    power >= 1,
                    whole == (x.significand + half) / power as int,
            ;
            if bits - 1 < 63 {
                vstd::arithmetic::power2::lemma_pow2_strictly_increases((bits - 1) as nat, 63);
            }
        }
        whole as u64
    }
}

/// The milliseconds that `ticks` last at `timescale` ticks a second.
pub fn timestamp_millis(ticks: u64, timescale: u32) -> (r: u64)
    ensures
        r == millis(ticks, timescale),
{
    if ticks == 0 {
        return 0;
    }
    if timescale == 0 {
        return u64::MAX;
    }
    let dividend: Double = divide(ticks, 1);
    let quotient: Double = divide(dividend.significand, timescale);
    let product: Double = divide(quotient.significand * 1000, 1);
    round(
        Double {
            significand: product.significand,
            exponent: product.exponent + (quotient.exponent + dividend.exponent),
        },
    )
}

/// `ms` milliseconds as hours, minutes and seconds: `hh:mm:ss.mmm`.
pub open spec fn clock(ms: nat) -> Seq<char> {
    padded(ms / 3_600_000, 2) + seq![':'] + padded((ms % 3_600_000) / 60_000, 2) + seq![':']
        + padded((ms % 60_000) / 1000, 2) + seq!['.'] + padded(ms % 1000, 3)
}

/// Shows `ticks` at `timescale` ticks a second as `hh:mm:ss.mmm`. The hours have
/// more than two digits where they need them.
pub fn format_timestamp(ticks: u64, timescale: u32) -> (s: String)
    ensures
        s@ == clock(millis(ticks, timescale)),
{
    let ms: u64 = timestamp_millis(ticks, timescale);
    let mut out: String = String::new();
    push_padded(&mut out, ms / 3_600_000, 2);
    out.push(':');
    push_padded(&mut out, (ms % 3_600_000) / 60_000, 2);
    out.push(':');
    push_padded(&mut out, (ms % 60_000) / 1000, 2);
    out.push('.');
    push_padded(&mut out, ms % 1000, 3);
    assert(out@ =~= clock(ms as nat));
    out
}

/// A quotient that is an integer below `HIGH` is doubled without rounding.
proof fn lemma_doubled_exact(a: nat, q: nat) -> (j: nat)
    requires
        q > 0,
        0 < a < HIGH,
    ensures
        doubled(a * q, q).significand == a * pow2(j),
        doubled(a * q, q).exponent == -j,
        LOW <= a * pow2(j) < HIGH,
    decreases HIGH - a,
{
    vstd::arithmetic::power2::lemma2_to64();
    assert(a * q > 0 && (a >= LOW <==> a * q >= LOW * q)) by (nonlinear_arith)
        requires
            q > 0,
            a > 0,
    ;
    if a >= LOW {
        vstd::arithmetic::div_mod::lemma_div_multiples_vanish(a as int, q as int);
        vstd::arithmetic::div_mod::lemma_mod_multiples_basic(a as int, q as int);
        assert(q * a == a * q) by (nonlinear_arith);
        0
    } else {
        let i = lemma_doubled_exact(2 * a, q);
        assert((2 * a) * q == 2 * (a * q)) by (nonlinear_arith);
        vstd::arithmetic::power2::lemma_pow2_unfold(i + 1);
        assert((2 * a) * pow2(i) == a * (2 * pow2(i))) by (nonlinear_arith);
        i + 1
    }
}

/// `m * 2^t` is halved without rounding, for `m` below `HIGH`; `i` halvings are done.
proof fn lemma_halved_exact(m: nat, t: nat, i: nat) -> (r: nat)
    requires
        m < HIGH,
        i <= t,
    ensures
        i <= r <= t,
        halved(m * pow2(t), pow2(i)).significand == m * pow2((t - r) as nat),
        halved(m * pow2(t), pow2(i)).exponent == r - i,
    decreases t - i,
{
    let p = m * pow2(t);
    let q = pow2(i);
    vstd::arithmetic::power2::lemma_pow2_pos(i);
    vstd::arithmetic::power2::lemma_pow2_adds((t - i) as nat, i);
    let whole = m * pow2((t - i) as nat);
    assert(p == whole * q) by (nonlinear_arith)
        requires
            p == m * (pow2((t - i) as nat) * q),
            whole == m * pow2((t - i) as nat),
    ;
    if p < HIGH * q {
        vstd::arithmetic::div_mod::lemma_div_multiples_vanish(whole as int, q as int);
        vstd::arithmetic::div_mod::lemma_mod_multiples_basic(whole as int, q as int);
        assert(q * whole == whole * q) by (nonlinear_arith);
        i
    } else {
        if i == t {
            assert(m * q < HIGH * q) by (nonlinear_arith)
                requires
                    m < HIGH,
                    q > 0,
            ;
        }
        vstd::arithmetic::power2::lemma_pow2_unfold(i + 1);
        lemma_halved_exact(m, t, i + 1)
    }
}

/// A whole number of seconds is that many thousand milliseconds, as long as doubles can
/// count the ticks and the milliseconds.
pub proof fn law_whole_seconds(n: nat, timescale: u32)
    requires
        timescale > 0,
        n * timescale < HIGH,
        n * 1000 < HIGH,
    ensures
        millis((n * timescale) as u64, timescale) == n * 1000,
{
    let ts = timescale as nat;
    let ticks = n * ts;
    if n == 0 {
        assert(ticks == 0) by (nonlinear_arith)
            requires
                n == 0,
                ticks == n * ts,
        ;
    } else {
        assert(ticks >= n) by (nonlinear_arith)
            requires
                ts >= 1,
                ticks == n * ts,
        ;
        vstd::arithmetic::power2::lemma2_to64();
        let k = lemma_doubled_exact(ticks, 1);
        let dividend = nearest_double(ticks, 1);
        lemma_doubled_is_nearest(ticks, 1);
        let a = n * pow2(k);
        vstd::arithmetic::power2::lemma_pow2_pos(k);
        assert(0 < a && a * ts == ticks * pow2(k) && a <= ticks * pow2(k)) by (nonlinear_arith)
            requires
                a == n * pow2(k),
                ticks == n * ts,
                n > 0,
                ts > 0,
                pow2(k) > 0,
        ;
        let j = lemma_doubled_exact(a, ts);
        lemma_doubled_is_nearest(a, ts);
        let t = k + j;
        vstd::arithmetic::power2::lemma_pow2_adds(k, j);
        let m = n * 1000;
        let sig = a * pow2(j);
        assert(sig * 1000 == m * pow2(t)) by (nonlinear_arith)
            requires
                sig == a * pow2(j),
                a == n * pow2(k),
                pow2(t) == pow2(k) * pow2(j),
                m == n * 1000,
        ;
        let r = lemma_halved_exact(m, t, 0);
        let e = (t - r) as nat;
        let product = thousandfold(seconds(ticks as u64, timescale));
        assert(product.significand == m * pow2(e));
        assert(product.exponent == -e);
        if e > 0 {
            let half = pow2((e - 1) as nat);
            vstd::arithmetic::power2::lemma_pow2_unfold(e);
            vstd::arithmetic::power2::lemma_pow2_pos((e - 1) as nat);
            vstd::arithmetic::div_mod::lemma_fundamental_div_mod_converse(
                (m * pow2(e) + half) as int,
                pow2(e) as int,
                m as int,
                half as int,
            );
        } else {
            assert(m * 1 == m);
        }
    }
}

/// Below `HIGH` the nearest double is found by doubling.
proof fn lemma_doubled_is_nearest(a: nat, q: nat)
    requires
        q > 0,
        0 < a < HIGH,
    ensures
        nearest_double(a * q, q) == doubled(a * q, q),
{
    assert(a * q < HIGH * q && a * q > 0) by (nonlinear_arith)
        requires
            0 < a < HIGH,
            q > 0,
    ;
}

/// `x` comes before `y`, or is the same, in the order of exponent and significand. For
/// significands between `LOW` and `HIGH` the numbers are then in the same order.
spec fn precedes(x: Scaled, y: Scaled) -> bool {
    x.exponent < y.exponent || (x.exponent == y.exponent && x.significand <= y.significand)
}

/// The significand of `x` is that of a double.
spec fn is_normal(x: Scaled) -> bool {
    LOW <= x.significand <= HIGH
}

/// A larger dividend gives no smaller quotient.
proof fn lemma_nearest_even_grows(p1: nat, p2: nat, q: nat)
    requires
        q > 0,
        p1 <= p2,
    ensures
        nearest_even(p1, q) <= nearest_even(p2, q),
{
    let w1 = p1 / q;
    let w2 = p2 / q;
    vstd::arithmetic::div_mod::lemma_div_is_ordered(p1 as int, p2 as int, q as int);
    vstd::arithmetic::div_mod::lemma_fundamental_div_mod(p1 as int, q as int);
    vstd::arithmetic::div_mod::lemma_fundamental_div_mod(p2 as int, q as int);
    if w1 == w2 {
        assert(p1 % q <= p2 % q);
    }
}

/// A common factor of two does not change the rounded quotient.
proof fn lemma_nearest_even_scales(p: nat, q: nat)
    requires
        q > 0,
    ensures
        nearest_even(2 * p, 2 * q) == nearest_even(p, q),
{
    let whole = p / q;
    let rest = p % q;
    vstd::arithmetic::div_mod::lemma_fundamental_div_mod(p as int, q as int);
    vstd::arithmetic::div_mod::lemma_mod_bound(p as int, q as int);
    assert(2 * p == whole * (2 * q) + 2 * rest) by (nonlinear_arith)
        requires
            p == q * whole + rest,
    ;
    vstd::arithmetic::div_mod::lemma_fundamental_div_mod_converse(
        (2 * p) as int,
        (2 * q) as int,
        whole as int,
        (2 * rest) as int,
    );
}

proof fn lemma_halved(p: nat, q: nat)
    requires
        q > 0,
        LOW * q <= p,
    ensures
        is_normal(halved(p, q)),
        halved(p, q).exponent >= 0,
        halved(2 * p, 2 * q) == halved(p, q),
    decreases p - q,
{
    if p < HIGH * q {
        lemma_nearest_even_range(p, q);
        lemma_nearest_even_scales(p, q);
    } else {
        lemma_halved(p, 2 * q);
    }
}

proof fn lemma_doubled(p: nat, q: nat)
    requires
        q > 0,
        0 < p < HIGH * q,
    ensures
        is_normal(doubled(p, q)),
        doubled(p, q).exponent <= 0,
        p < LOW * q ==> doubled(p, q).exponent < 0,
    decreases HIGH * q - p,
{
    if p >= LOW * q {
        lemma_nearest_even_range(p, q);
    } else {
        lemma_doubled(2 * p, q);
    }
}

proof fn lemma_nearest_double_is_normal(p: nat, q: nat)
    requires
        p > 0,
        q > 0,
    ensures
        is_normal(nearest_double(p, q)),
{
    if p < LOW * q {
        lemma_doubled(p, q);
    } else {
        lemma_halved(p, q);
    }
}

proof fn lemma_halved_grows(p1: nat, p2: nat, q: nat)
    requires
        q > 0,
        LOW * q <= p1 <= p2,
    ensures
        precedes(halved(p1, q), halved(p2, q)),
    decreases p1 - q,
{
    if p1 < HIGH * q {
        if p2 < HIGH * q {
            lemma_nearest_even_grows(p1, p2, q);
        } else {
            lemma_halved(p2, 2 * q);
        }
    } else {
        lemma_halved_grows(p1, p2, 2 * q);
    }
}

proof fn lemma_doubled_grows(p1: nat, p2: nat, q: nat)
    requires
        q > 0,
        0 < p1 <= p2 < HIGH * q,
    ensures
        precedes(doubled(p1, q), doubled(p2, q)),
    decreases HIGH * q - p1,
{
    if p1 >= LOW * q {
        lemma_nearest_even_grows(p1, p2, q);
    } else if p2 >= LOW * q {
        lemma_doubled(p1, q);
    } else {
        lemma_doubled_grows(2 * p1, 2 * p2, q);
    }
}

/// A larger dividend gives no smaller double.
proof fn lemma_nearest_double_grows(p1: nat, p2: nat, q: nat)
    requires
        q > 0,
        0 < p1 <= p2,
    ensures
        precedes(nearest_double(p1, q), nearest_double(p2, q)),
{
    if p2 < LOW * q {
        lemma_doubled_grows(p1, p2, q);
    } else if p1 < LOW * q {
        lemma_doubled(p1, q);
        lemma_halved(p2, q);
    } else {
        lemma_halved_grows(p1, p2, q);
    }
}

/// Twice the dividend gives the same significand, with an exponent one larger.
proof fn lemma_nearest_double_of_twice(p: nat, q: nat)
    requires
        p > 0,
        q > 0,
    ensures
        nearest_double(2 * p, q).significand == nearest_double(p, q).significand,
        nearest_double(2 * p, q).exponent == nearest_double(p, q).exponent + 1,
{
    if p >= LOW * q {
        lemma_halved(p, q);
        assert(halved(2 * p, q).significand == halved(2 * p, 2 * q).significand);
    } else {
        assert(doubled(p, q).significand == doubled(2 * p, q).significand);
        if 2 * p >= LOW * q {
            assert(doubled(2 * p, q) == halved(2 * p, q));
        }
    }
}

/// Multiplying by `c`, dividing by `q` and rounding to a double keeps the order.
proof fn lemma_scaling_keeps_order(x: Scaled, y: Scaled, c: nat, q: nat)
    requires
        is_normal(x),
        is_normal(y),
        precedes(x, y),
        c > 0,
        q > 0,
    ensures
        ({
            let u = nearest_double(x.significand * c, q);
            let v = nearest_double(y.significand * c, q);
            let scaled_x = Scaled { significand: u.significand, exponent: u.exponent + x.exponent };
            let scaled_y = Scaled { significand: v.significand, exponent: v.exponent + y.exponent };
            is_normal(scaled_x) && is_normal(scaled_y) && precedes(scaled_x, scaled_y)
        }),
{
    let p1 = x.significand * c;
    let p2 = y.significand * c;
    assert(p1 > 0 && p2 > 0 && p1 <= 2 * p2) by (nonlinear_arith)
        requires
            p1 == x.significand * c,
            p2 == y.significand * c,
            0 < x.significand <= 2 * y.significand,
            c > 0,
    ;
    lemma_nearest_double_is_normal(p1, q);
    lemma_nearest_double_is_normal(p2, q);
    if x.exponent == y.exponent {
        assert(p1 <= p2) by (nonlinear_arith)
            requires
                p1 == x.significand * c,
                p2 == y.significand * c,
                x.significand <= y.significand,
        ;
        lemma_nearest_double_grows(p1, p2, q);
    } else {
        lemma_nearest_double_grows(p1, 2 * p2, q);
        lemma_nearest_double_of_twice(p2, q);
    }
}

proof fn lemma_nearest_integer_grows(a: nat, b: nat, e: int)
    requires
        a <= b,
    ensures
        nearest_integer(Scaled { significand: a, exponent: e }) <= nearest_integer(
            Scaled { significand: b, exponent: e },
        ),
{
    if e >= 0 {
        vstd::arithmetic::mul::lemma_mul_inequality(a as int, b as int, pow2(e as nat) as int);
    } else {
        let half = pow2((-e - 1) as nat);
        vstd::arithmetic::power2::lemma_pow2_pos((-e) as nat);
        vstd::arithmetic::div_mod::lemma_div_is_ordered(
            (a + half) as int,
            (b + half) as int,
            pow2((-e) as nat) as int,
        );
    }
}

/// The bound of the significands at one exponent is their least at the next.
proof fn lemma_nearest_integer_at_bound(e: int)
    ensures
        nearest_integer(Scaled { significand: HIGH as nat, exponent: e }) == nearest_integer(
            Scaled { significand: LOW as nat, exponent: e + 1 },
        ),
{
    vstd::arithmetic::power2::lemma2_to64();
    if e >= 0 {
        vstd::arithmetic::power2::lemma_pow2_unfold((e + 1) as nat);
        let power = pow2(e as nat);
        assert(HIGH * power == LOW * (2 * power)) by (nonlinear_arith)
            requires
                HIGH == 2 * LOW,
        ;
    } else if e == -1 {
        assert(pow2((-e - 1) as nat) == 1 && pow2((-e) as nat) == 2 && pow2((e + 1) as nat) == 1);
    } else {
        let bits = (-e) as nat;
        let half = pow2((bits - 2) as nat);
        let power = pow2((bits - 1) as nat);
        vstd::arithmetic::power2::lemma_pow2_unfold(bits);
        vstd::arithmetic::power2::lemma_pow2_unfold((bits - 1) as nat);
        vstd::arithmetic::power2::lemma_pow2_pos((bits - 1) as nat);
        vstd::arithmetic::div_mod::lemma_div_multiples_vanish_quotient(
            2,
            (LOW + half) as int,
            power as int,
        );
        assert(2 * (LOW + half) == HIGH + power);
        assert((-e - 1) as nat == (bits - 1) as nat && (-(e + 1) - 1) as nat == (bits - 2) as nat);
    }
}

proof fn lemma_least_grows(e1: int, e2: int)
    requires
        e1 <= e2,
    ensures
        nearest_integer(Scaled { significand: LOW as nat, exponent: e1 }) <= nearest_integer(
            Scaled { significand: LOW as nat, exponent: e2 },
        ),
    decreases e2 - e1,
{
    if e1 < e2 {
        lemma_least_grows(e1, e2 - 1);
        lemma_nearest_integer_grows(LOW as nat, HIGH as nat, e2 - 1);
        lemma_nearest_integer_at_bound(e2 - 1);
    }
}

/// Doubles in order are rounded to integers in order.
proof fn lemma_rounded_keeps_order(x: Scaled, y: Scaled)
    requires
        is_normal(x),
        is_normal(y),
        precedes(x, y),
    ensures
        rounded(x) <= rounded(y),
{
    if x.exponent == y.exponent {
        lemma_nearest_integer_grows(x.significand, y.significand, x.exponent);
    } else {
        lemma_nearest_integer_grows(x.significand, HIGH as nat, x.exponent);
        lemma_nearest_integer_at_bound(x.exponent);
        lemma_least_grows(x.exponent + 1, y.exponent);
        lemma_nearest_integer_grows(LOW as nat, y.significand, y.exponent);
    }
}

/// The milliseconds that the hours, minutes, seconds and milliseconds of the clock at `ms`
/// add up to.
pub open spec fn shown(ms: nat) -> nat {
    3_600_000 * (ms / 3_600_000) + 60_000 * ((ms % 3_600_000) / 60_000) + 1000 * ((ms % 60_000)
        / 1000) + ms % 1000
}

/// A later tick has no earlier millisecond.
proof fn lemma_millis_grow(a: u64, b: u64, timescale: u32)
    requires
        timescale > 0,
        0 < a <= b,
    ensures
        rounded(thousandfold(seconds(a, timescale))) <= rounded(
            thousandfold(seconds(b, timescale)),
        ),
{
    let x = nearest_double(a as nat, 1);
    let y = nearest_double(b as nat, 1);
    lemma_nearest_double_is_normal(a as nat, 1);
    lemma_nearest_double_is_normal(b as nat, 1);
    lemma_nearest_double_grows(a as nat, b as nat, 1);
    lemma_scaling_keeps_order(x, y, 1, timescale as nat);
    assert(x.significand * 1 == x.significand && y.significand * 1 == y.significand);
    lemma_scaling_keeps_order(seconds(a, timescale), seconds(b, timescale), 1000, 1);
    lemma_rounded_keeps_order(
        thousandfold(seconds(a, timescale)),
        thousandfold(seconds(b, timescale)),
    );
}

/// The fields of a clock add up to the time that it shows.
pub proof fn law_clock_shows_time(ms: nat)
    ensures
        shown(ms) == ms,
{
}

/// A later tick is never shown as an earlier time.
pub proof fn law_later_is_not_shown_earlier(a: u64, b: u64, timescale: u32)
    requires
        timescale > 0,
        a <= b,
    ensures
        millis(a, timescale) <= millis(b, timescale),
        shown(millis(a, timescale)) <= shown(millis(b, timescale)),
{
    if a > 0 {
        lemma_millis_grow(a, b, timescale);
    }
    law_clock_shows_time(millis(a, timescale));
    law_clock_shows_time(millis(b, timescale));
}

/// A common factor of two does not change the nearest double.
proof fn lemma_nearest_double_scales(p: nat, q: nat)
    requires
        p > 0,
        q > 0,
    ensures
        nearest_double(2 * p, 2 * q) == nearest_double(p, q),
{
    if p < LOW * q {
        lemma_doubled_scales(p, q);
    } else {
        lemma_halved(p, q);
    }
}

proof fn lemma_doubled_scales(p: nat, q: nat)
    requires
        q > 0,
        0 < p < HIGH * q,
    ensures
        doubled(2 * p, 2 * q) == doubled(p, q),
    decreases HIGH * q - p,
{
    if p >= LOW * q {
        lemma_nearest_even_scales(p, q);
    } else {
        lemma_doubled_scales(2 * p, q);
    }
}

/// Twice the ticks at twice the timescale are the same time.
pub proof fn law_doubled_clock_shows_same(ticks: u64, timescale: u32)
    requires
        2 * ticks <= u64::MAX,
        2 * timescale <= u32::MAX,
    ensures
        millis((2 * ticks) as u64, (2 * timescale) as u32) == millis(ticks, timescale),
{
    if ticks > 0 && timescale > 0 {
        let ts = timescale as nat;
        let dividend = nearest_double(ticks as nat, 1);
        lemma_nearest_double_is_normal(ticks as nat, 1);
        lemma_nearest_double_of_twice(ticks as nat, 1);
        lemma_nearest_double_scales(dividend.significand, ts);
        lemma_nearest_double_of_twice(dividend.significand, 2 * ts);
        assert(seconds((2 * ticks) as u64, (2 * timescale) as u32) == seconds(ticks, timescale));
    }
}

proof fn lemma_few_digits(n: nat)
    ensures
        n < 100 ==> decimal(n).len() <= 2,
        n < 1000 ==> decimal(n).len() <= 3,
{
    law_decimal_digits(n);
    law_decimal_digits(n / 10);
    law_decimal_digits(n / 100);
    if n >= 10 {
        assert(decimal(n).len() == decimal(n / 10).len() + 1);
        if n >= 100 {
            assert(n / 10 / 10 == n / 100);
            assert(decimal(n / 10).len() == decimal(n / 100).len() + 1);
        }
    }
}

/// A clock reads hours, minutes, seconds and milliseconds: two digits of hours or more, two
/// of minutes and of seconds and three of milliseconds, with colons and a point between
/// them. The fields are in range and add up to the time.
pub proof fn law_clock_reads_time(ms: nat)
    ensures
        ({
            let t = clock(ms);
            let n = t.len() as int;
            let h = t.take(n - 10);
            let m = t.subrange(n - 9, n - 7);
            let s = t.subrange(n - 6, n - 4);
            let f = t.subrange(n - 3, n);
            &&& n >= 12
            &&& t[n - 10] == ':'
            &&& t[n - 7] == ':'
            &&& t[n - 4] == '.'
            &&& is_number(h) && is_number(m) && is_number(s) && is_number(f)
            &&& value(m) < 60
            &&& value(s) < 60
            &&& value(f) < 1000
            &&& 3_600_000 * value(h) + 60_000 * value(m) + 1000 * value(s) + value(f) == ms
            &&& n > 12 ==> t[0] != '0'
        }),
{
    let hours = ms / 3_600_000;
    let minutes = (ms % 3_600_000) / 60_000;
    let seconds = (ms % 60_000) / 1000;
    let rest = ms % 1000;
    lemma_padded(hours, 2);
    lemma_padded(minutes, 2);
    lemma_padded(seconds, 2);
    lemma_padded(rest, 3);
    law_padding_is_zeros(hours, 2);
    law_padding_is_zeros(minutes, 2);
    law_padding_is_zeros(seconds, 2);
    law_padding_is_zeros(rest, 3);
    law_decimal_digits(hours);
    lemma_few_digits(minutes);
    lemma_few_digits(seconds);
    lemma_few_digits(rest);
    let t = clock(ms);
    let n = t.len() as int;
    assert(t.take(n - 10) =~= padded(hours, 2));
    assert(t.subrange(n - 9, n - 7) =~= padded(minutes, 2));
    assert(t.subrange(n - 6, n - 4) =~= padded(seconds, 2));
    assert(t.subrange(n - 3, n) =~= padded(rest, 3));
    law_clock_shows_time(ms);
    if n > 12 {
        assert(padded(hours, 2) == decimal(hours));
        assert(t[0] == decimal(hours)[0]);
    }
}

/// A rounded quotient is at most half of one away.
proof fn lemma_nearest_even_error(p: nat, q: nat)
    requires
        q > 0,
    ensures
        -(q as int) <= 2 * (nearest_even(p, q) * q - p) <= q,
{
    let whole = p / q;
    let rest = p % q;
    vstd::arithmetic::div_mod::lemma_fundamental_div_mod(p as int, q as int);
    vstd::arithmetic::div_mod::lemma_mod_bound(p as int, q as int);
    assert((whole + 1) * q == whole * q + q && q * whole == whole * q) by (nonlinear_arith);
}

proof fn lemma_halved_error(p: nat, q: nat)
    requires
        q > 0,
        LOW * q <= p,
    ensures
        ({
            let x = halved(p, q);
            let unit = pow2(x.exponent as nat) * q;
            &&& x.exponent >= 0
            &&& -unit <= 2 * (x.significand * unit - p) <= unit
        }),
    decreases p - q,
{
    vstd::arithmetic::power2::lemma2_to64();
    if p < HIGH * q {
        lemma_nearest_even_error(p, q);
        assert(pow2(0) * q == q);
    } else {
        lemma_halved_error(p, 2 * q);
        lemma_halved(p, 2 * q);
        let e = halved(p, 2 * q).exponent as nat;
        vstd::arithmetic::power2::lemma_pow2_unfold(e + 1);
        let power = pow2(e);
        assert(power * (2 * q) == (2 * power) * q) by (nonlinear_arith);
    }
}

proof fn lemma_doubled_error(p: nat, q: nat)
    requires
        q > 0,
        0 < p < HIGH * q,
    ensures
        ({
            let x = doubled(p, q);
            let scaled = p * pow2((-x.exponent) as nat);
            &&& x.exponent <= 0
            &&& -(q as int) <= 2 * (x.significand * q - scaled) <= q
        }),
    decreases HIGH * q - p,
{
    vstd::arithmetic::power2::lemma2_to64();
    if p >= LOW * q {
        lemma_nearest_even_error(p, q);
        assert(p * pow2(0) == p);
    } else {
        lemma_doubled_error(2 * p, q);
        lemma_doubled(2 * p, q);
        let e = (-doubled(2 * p, q).exponent) as nat;
        vstd::arithmetic::power2::lemma_pow2_unfold(e + 1);
        let power = pow2(e);
        assert((2 * p) * power == p * (2 * power)) by (nonlinear_arith);
    }
}

/// The nearest double is off by no more than a part in `HIGH`: `k` is an exponent that
/// makes integers of both sides.
proof fn lemma_nearest_double_error(p: nat, q: nat, k: nat)
    requires
        p > 0,
        q > 0,
        k >= -nearest_double(p, q).exponent,
    ensures
        ({
            let x = nearest_double(p, q);
            let a = x.significand * pow2((x.exponent + k) as nat) * q;
            let b = p * pow2(k);
            -a <= HIGH * (a - b) <= a
        }),
{
    let x = nearest_double(p, q);
    let sig = x.significand;
    let e = x.exponent;
    let top = pow2((e + k) as nat);
    let a = sig * top * q;
    let b = p * pow2(k);
    lemma_nearest_double_is_normal(p, q);
    let unit = top * q;
    assert(-unit <= 2 * (a - b) <= unit) by {
        if p < LOW * q {
            lemma_doubled_error(p, q);
            let low = pow2((-e) as nat);
            vstd::arithmetic::power2::lemma_pow2_adds((-e) as nat, (e + k) as nat);
            assert(pow2(k) == low * top);
            assert(-unit <= 2 * (a - b) <= unit) by (nonlinear_arith)
                requires
                    -(q as int) <= 2 * (sig * q - p * low) <= q,
                    a == sig * top * q,
                    b == p * (low * top),
                    unit == top * q,
                    top >= 0,
            ;
        } else {
            lemma_halved_error(p, q);
            let power = pow2(e as nat);
            let scale = pow2(k);
            vstd::arithmetic::power2::lemma_pow2_adds(e as nat, k);
            assert(-unit <= 2 * (a - b) <= unit) by (nonlinear_arith)
                requires
                    -(power * q) <= 2 * (sig * (power * q) - p) <= power * q,
                    top == power * scale,
                    a == sig * top * q,
                    b == p * scale,
                    unit == top * q,
                    scale >= 0,
            ;
        }
    }
    assert(LOW * unit <= a) by (nonlinear_arith)
        requires
            LOW <= sig,
            a == sig * top * q,
            unit == top * q,
            unit >= 0,
    ;
    assert(HIGH * (a - b) == LOW * (2 * (a - b))) by (nonlinear_arith)
        requires
            HIGH == 2 * LOW,
    ;
    assert(-(LOW * unit) <= LOW * (2 * (a - b)) <= LOW * unit) by (nonlinear_arith)
        requires
            -unit <= 2 * (a - b) <= unit,
    ;
}

/// A number is rounded to an integer that is at most half of one away.
proof fn lemma_nearest_integer_error(x: Scaled, k: nat)
    requires
        k >= -x.exponent,
    ensures
        ({
            let d = nearest_integer(x) * pow2(k);
            let a = x.significand * pow2((x.exponent + k) as nat);
            -pow2(k) <= 2 * (d - a) <= pow2(k)
        }),
{
    let sig = x.significand;
    let e = x.exponent;
    let m = nearest_integer(x);
    let top = pow2((e + k) as nat);
    let scale = pow2(k);
    let d = m * scale;
    let a = sig * top;
    if e >= 0 {
        vstd::arithmetic::power2::lemma_pow2_adds(e as nat, k);
        let power = pow2(e as nat);
        assert(d == a) by (nonlinear_arith)
            requires
                d == m * scale,
                m == sig * power,
                top == power * scale,
                a == sig * top,
        ;
    } else {
        let bits = (-e) as nat;
        let power = pow2(bits);
        let half = pow2((bits - 1) as nat);
        vstd::arithmetic::power2::lemma_pow2_unfold(bits);
        vstd::arithmetic::power2::lemma_pow2_pos(bits);
        vstd::arithmetic::power2::lemma_pow2_adds(bits, (e + k) as nat);
        let sum = sig + half;
        vstd::arithmetic::div_mod::lemma_fundamental_div_mod(sum as int, power as int);
        vstd::arithmetic::div_mod::lemma_mod_bound(sum as int, power as int);
        assert(-power <= 2 * (m * power - sig) <= power) by (nonlinear_arith)
            requires
                sum == sig + half,
                power == 2 * half,
                sum == power * m + sum % power,
                0 <= sum % power < power,
        ;
        assert(-scale <= 2 * (d - a) <= scale) by (nonlinear_arith)
            requires
                -power <= 2 * (m * power - sig) <= power,
                scale == power * top,
                d == m * scale,
                a == sig * top,
                top >= 0,
        ;
    }
}

spec fn size(e: int) -> nat {
    if e < 0 {
        (-e) as nat
    } else {
        e as nat
    }
}

/// The milliseconds of a number of ticks are the nearest to the true time, but for what
/// doubles leave out: they are off by half a millisecond and four parts in `HIGH` of the
/// time.
pub proof fn law_millis_are_nearest(ticks: u64, timescale: u32)
    requires
        ticks > 0,
        timescale > 0,
        millis(ticks, timescale) < u64::MAX,
    ensures
        ({
            let off = millis(ticks, timescale) * timescale - 1000 * ticks;
            &&& HIGH * (2 * off) <= HIGH * timescale + 8000 * ticks
            &&& HIGH * (2 * off) >= -(HIGH * timescale + 8000 * ticks)
        }),
{
    let ts = timescale as nat;
    let t = ticks as nat;
    let x1 = nearest_double(t, 1);
    let y2 = nearest_double(x1.significand, ts);
    lemma_nearest_double_is_normal(t, 1);
    lemma_nearest_double_is_normal(x1.significand, ts);
    let p3 = y2.significand * 1000;
    let y3 = nearest_double(p3, 1);
    lemma_nearest_double_is_normal(p3, 1);
    let k = size(x1.exponent) + size(y2.exponent) + size(y3.exponent);
    let k2 = (k + x1.exponent) as nat;
    let k3 = (k2 + y2.exponent) as nat;
    let k4 = (k3 + y3.exponent) as nat;
    lemma_nearest_double_error(t, 1, k);
    lemma_nearest_double_error(x1.significand, ts, k2);
    lemma_nearest_double_error(p3, 1, k3);
    let x3 = thousandfold(seconds(ticks, timescale));
    assert(x3.significand == y3.significand);
    assert(x3.exponent == y3.exponent + (y2.exponent + x1.exponent));
    lemma_nearest_integer_error(x3, k);
    let m = nearest_integer(x3);
    assert(m == millis(ticks, timescale));
    let scale = pow2(k);
    let a1 = x1.significand * pow2(k2);
    let a2 = y2.significand * pow2(k3);
    let a3 = y3.significand * pow2(k4);
    assert(a1 * 1 == a1 && a3 * 1 == a3);
    assert(p3 * pow2(k3) == 1000 * a2) by (nonlinear_arith)
        requires
            p3 == y2.significand * 1000,
            a2 == y2.significand * pow2(k3),
    ;
    vstd::arithmetic::power2::lemma_pow2_pos(k);
    lemma_errors_add_up(t as int, ts as int, scale as int, a1 as int, a2 as int, a3 as int, m as int);
}

proof fn lemma_errors_add_up(t: int, ts: int, scale: int, a1: int, a2: int, a3: int, m: int)
    requires
        t > 0,
        ts > 0,
        scale > 0,
        a1 >= 0,
        a2 >= 0,
        a3 >= 0,
        -a1 <= HIGH * (a1 - t * scale) <= a1,
        -(a2 * ts) <= HIGH * (a2 * ts - a1) <= a2 * ts,
        -a3 <= HIGH * (a3 - 1000 * a2) <= a3,
        -scale <= 2 * (m * scale - a3) <= scale,
    ensures
        HIGH * (2 * (m * ts - 1000 * t)) <= HIGH * ts + 8000 * t,
        HIGH * (2 * (m * ts - 1000 * t)) >= -(HIGH * ts + 8000 * t),
{
    let tt = t * scale;
    let b2 = a2 * ts;
    let c3 = a3 * ts;
    let d = m * scale * ts;
    let u = scale * ts;
    assert(-c3 <= HIGH * (c3 - 1000 * b2) <= c3) by (nonlinear_arith)
        requires
            -a3 <= HIGH * (a3 - 1000 * a2) <= a3,
            c3 == a3 * ts,
            b2 == a2 * ts,
            ts > 0,
    ;
    assert(-u <= 2 * (d - c3) <= u) by (nonlinear_arith)
        requires
            -scale <= 2 * (m * scale - a3) <= scale,
            d == m * scale * ts,
            c3 == a3 * ts,
            u == scale * ts,
            ts > 0,
    ;
    assert(b2 >= 0 && c3 >= 0 && tt > 0) by (nonlinear_arith)
        requires
            a2 >= 0,
            a3 >= 0,
            ts > 0,
            t > 0,
            scale > 0,
            b2 == a2 * ts,
            c3 == a3 * ts,
            tt == t * scale,
    ;
    assert(2 * (c3 + 1000 * b2 + 1000 * a1) <= 8000 * tt);
    assert(HIGH * (2 * (d - 1000 * tt)) <= HIGH * u + 8000 * tt);
    assert(HIGH * (2 * (d - 1000 * tt)) >= -(HIGH * u + 8000 * tt));
    let off = HIGH * (2 * (m * ts - 1000 * t));
    let bound = HIGH * ts + 8000 * t;
    assert(off * scale == HIGH * (2 * (d - 1000 * tt)) && bound * scale == HIGH * u + 8000 * tt)
        by (nonlinear_arith)
        requires
            off == HIGH * (2 * (m * ts - 1000 * t)),
            bound == HIGH * ts + 8000 * t,
            d == m * scale * ts,
            tt == t * scale,
            u == scale * ts,
    ;
    assert(-bound <= off <= bound) by (nonlinear_arith)
        requires
            -(bound * scale) <= off * scale <= bound * scale,
            scale > 0,
    ;
}

/// No ticks last no time. At a timescale of zero any others last for ever.
pub proof fn law_no_ticks_last_no_time(ticks: u64, timescale: u32)
    ensures
        millis(0, timescale) == 0,
        ticks > 0 ==> millis(ticks, 0) == u64::MAX,
        millis(ticks, timescale) <= u64::MAX,
{
}

} // verus!
