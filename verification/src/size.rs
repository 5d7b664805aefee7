//! Byte counts as people write and read them: `"500MB"`, `"1.5TB"`, `"11.30KB"`.
//!
//! Sizes go through double precision: a size string stands for the double that
//! is nearest to the numeral, times the unit, and a size is shown from the
//! double that is nearest to the byte count. Everything is computed on integers,
//! and rounds as IEEE 754 does: to nearest, ties to even.

use crate::text::{
    all_digits, char_digit, char_is_digit, chars_are, chars_of, debug_text, decimal, digit_char,
    digit_value, digits_value, is_digit, lemma_digits_prefix, outcome, push_decimal, quote,
    quote_last, slice_of, string_of, to_uppercase, trim, trimmed, uppercase,
};
use vstd::prelude::*;
use vstd::string::*;

verus! {

/// A power of a number.
pub open spec fn power(base: nat, e: nat) -> nat
    decreases e,
{
    if e == 0 {
        1
    } else {
        base * power(base, (e - 1) as nat)
    }
}

/// The whole number nearest to `a / b`; of two that are as near, the even one.
pub open spec fn round_half_even(a: nat, b: nat) -> nat {
    let q = a / b;
    let r = a % b;
    if 2 * r < b {
        q
    } else if 2 * r > b {
        q + 1
    } else if q % 2 == 0 {
        q
    } else {
        q + 1
    }
}

/// Two to the power of 52: the least significand of a double.
pub const SIGNIFICAND_MIN: u64 = 0x10_0000_0000_0000;

/// Two to the power of 53: above every significand of a double.
pub const SIGNIFICAND_END: u64 = 0x20_0000_0000_0000;

/// How often `a / b` must be halved to fall below two to the power of 53.
pub open spec fn halvings(a: nat, b: nat) -> nat
    decreases a - b,
{
    if b == 0 || a < SIGNIFICAND_END * b {
        0
    } else {
        1 + halvings(a, 2 * b)
    }
}

/// How often `a / b` must be doubled to reach two to the power of 52.
pub open spec fn doublings(a: nat, b: nat) -> nat
    decreases
            if a < SIGNIFICAND_MIN * b {
                SIGNIFICAND_MIN * b - a
            } else {
                0
            },
{
    if a == 0 || a >= SIGNIFICAND_MIN * b {
        0
    } else {
        1 + doublings(2 * a, b)
    }
}

/// The whole part of the double that is nearest to `a / b`.
///
/// A double has a significand of 53 bits, so `a / b` is halved or doubled until
/// it lies between two to the power of 52 and two to the power of 53, rounded,
/// and scaled back.
pub open spec fn double_floor(a: nat, b: nat) -> nat {
    let h = halvings(a, b);
    let t = doublings(a, b);
    if h > 0 {
        round_half_even(a, b * power(2, h)) * power(2, h)
    } else {
        round_half_even(a * power(2, t), b) / power(2, t)
    }
}

pub(crate) proof fn lemma_power_pos(base: nat, e: nat)
    requires
        base > 0,
    ensures
        power(base, e) > 0,
    decreases e,
{
    if e > 0 {
        lemma_power_pos(base, (e - 1) as nat);
        assert(base * power(base, (e - 1) as nat) > 0) by (nonlinear_arith)
            requires
                base > 0,
                power(base, (e - 1) as nat) > 0,
        ;
    }
}

pub(crate) proof fn lemma_halvings(a: nat, b: nat, h: nat)
    requires
        b > 0,
        SIGNIFICAND_MIN * b * power(2, h) <= a < SIGNIFICAND_END * b * power(2, h),
    ensures
        halvings(a, b) == h,
    decreases h,
{
    if h > 0 {
        let p = power(2, (h - 1) as nat);
        lemma_power_pos(2, (h - 1) as nat);
        assert(power(2, h) == 2 * p);
        assert(SIGNIFICAND_MIN * b * (2 * p) >= SIGNIFICAND_END * b) by (nonlinear_arith)
            requires
                p >= 1,
                b >= 0,
        ;
        assert(SIGNIFICAND_MIN * (2 * b) * p == SIGNIFICAND_MIN * b * (2 * p)) by (nonlinear_arith);
        assert(SIGNIFICAND_END * (2 * b) * p == SIGNIFICAND_END * b * (2 * p)) by (nonlinear_arith);
        lemma_halvings(a, 2 * b, (h - 1) as nat);
    } else {
        assert(SIGNIFICAND_END * b * power(2, h) == SIGNIFICAND_END * b) by (nonlinear_arith)
            requires
                power(2, h) == 1,
        ;
    }
}

pub(crate) proof fn lemma_doublings(a: nat, b: nat, t: nat)
    requires
        b > 0,
        SIGNIFICAND_MIN * b <= a * power(2, t) < SIGNIFICAND_END * b,
    ensures
        doublings(a, b) == t,
    decreases t,
{
    let scaled = a * power(2, t);
    assert(a > 0) by {
        if a == 0 {
            assert(scaled == 0) by (nonlinear_arith)
                requires
                    scaled == a * power(2, t),
                    a == 0,
            ;
        }
    }
    if t > 0 {
        let p = power(2, (t - 1) as nat);
        lemma_power_pos(2, (t - 1) as nat);
        assert(power(2, t) == 2 * p);
        assert(scaled >= 2 * a && scaled == (2 * a) * p) by (nonlinear_arith)
            requires
                scaled == a * (2 * p),
                p >= 1,
                a >= 0,
        ;
        assert(SIGNIFICAND_END * b == 2 * (SIGNIFICAND_MIN * b));
        assert(a < SIGNIFICAND_MIN * b);
        lemma_doublings(2 * a, b, (t - 1) as nat);
        assert(doublings(a, b) == 1 + doublings(2 * a, b));
    } else {
        assert(scaled == a) by (nonlinear_arith)
            requires
                scaled == a * power(2, t),
                power(2, t) == 1,
        ;
    }
}

pub(crate) proof fn lemma_power_step(base: nat, e: nat)
    ensures
        power(base, e + 1) == base * power(base, e),
{
}

/// Exact numbers below two to the power of 53 are doubles.
pub(crate) proof fn lemma_double_exact(n: nat, b: nat)
    requires
        b > 0,
        n < SIGNIFICAND_END,
    ensures
        double_floor(n * b, b) == n,
{
    let a = n * b;
    assert(a < SIGNIFICAND_END * b) by (nonlinear_arith)
        requires
            a == n * b,
            n < SIGNIFICAND_END,
            b > 0,
    ;
    assert(halvings(a, b) == 0);
    let t = doublings(a, b);
    let p = power(2, t);
    lemma_power_pos(2, t);
    assert(a * p == (n * p) * b) by (nonlinear_arith)
        requires
            a == n * b,
    ;
    lemma_round_exact(n * p, b);
    assert(n * p / p == n) by (nonlinear_arith)
        requires
            p > 0,
    ;
}

pub(crate) proof fn lemma_round_exact(q: nat, b: nat)
    requires
        b > 0,
    ensures
        round_half_even(q * b, b) == q,
{
    lemma_div_split(q * b, b, q, 0);
}

/// Quotient and remainder are the only ones.
proof fn lemma_div_split(a: nat, b: nat, q: nat, r: nat)
    requires
        b > 0,
        a == q * b + r,
        r < b,
    ensures
        a / b == q,
        a % b == r,
{
    vstd::arithmetic::div_mod::lemma_fundamental_div_mod_converse(
        a as int,
        b as int,
        q as int,
        r as int,
    );
}

/// The number that a run of digit values stands for.
spec fn fraction_value(s: Seq<u8>) -> nat
    decreases s.len(),
{
    if s.len() == 0 {
        0
    } else {
        (s[0] as nat) * power(10, (s.len() - 1) as nat) + fraction_value(s.skip(1))
    }
}

spec fn is_fraction(s: Seq<u8>) -> bool {
    forall|i: int| 0 <= i < s.len() ==> (#[trigger] s[i]) < 10
}

proof fn lemma_fraction_bound(s: Seq<u8>)
    requires
        is_fraction(s),
    ensures
        fraction_value(s) < power(10, s.len()),
    decreases s.len(),
{
    if s.len() > 0 {
        let p = power(10, (s.len() - 1) as nat);
        assert(is_fraction(s.skip(1))) by {
            assert forall|i: int| 0 <= i < s.skip(1).len() implies (#[trigger] s.skip(1)[i]) < 10 by {
                assert(s.skip(1)[i] == s[i + 1]);
            }
        }
        lemma_fraction_bound(s.skip(1));
        assert(s[0] < 10);
        assert(s[0] * p <= 9 * p) by (nonlinear_arith)
            requires
                s[0] <= 9,
                p >= 0,
        ;
    }
}

/// Whether a decimal fraction is zero.
fn fraction_is_zero(d: &Vec<u8>) -> (r: bool)
    requires
        is_fraction(d@),
    ensures
        r == (fraction_value(d@) == 0),
{
    let mut i: usize = d.len();
    while i > 0
        invariant
            i <= d@.len(),
            fraction_value(d@.skip(i as int)) == 0,
        decreases i,
    {
        let ghost s = d@.skip(i as int - 1);
        proof {
            assert(s.skip(1) =~= d@.skip(i as int));
            assert(s[0] == d@[i as int - 1]);
            lemma_power_pos(10, (s.len() - 1) as nat);
        }
        if d[i - 1] != 0 {
            proof {
                let p = power(10, (s.len() - 1) as nat);
                assert(s[0] * p > 0) by (nonlinear_arith)
                    requires
                        s[0] > 0,
                        p > 0,
                ;
                lemma_fraction_tail(d@, i as int - 1);
            }
            return false;
        }
        proof {
            let p = power(10, (s.len() - 1) as nat);
            assert(s[0] * p == 0) by (nonlinear_arith)
                requires
                    s[0] == 0,
            ;
        }
        i = i - 1;
    }
    proof {
        assert(d@.skip(0) =~= d@);
    }
    true
}

proof fn lemma_fraction_tail(s: Seq<u8>, i: int)
    requires
        0 <= i <= s.len(),
    ensures
        fraction_value(s) >= fraction_value(s.skip(i)),
    decreases i,
{
    if i == 0 {
        assert(s.skip(0) =~= s);
    } else {
        lemma_fraction_tail(s.skip(1), i - 1);
        assert(s.skip(1).skip(i - 1) =~= s.skip(i));
        let p = power(10, (s.len() - 1) as nat);
        assert(s[0] * p >= 0) by (nonlinear_arith)
            requires
                s[0] >= 0,
                p >= 0,
        ;
    }
}

/// Doubles a decimal fraction and hands out the whole that it carries over.
fn double_fraction(d: &mut Vec<u8>) -> (carry: u8)
    requires
        is_fraction(old(d)@),
    ensures
        is_fraction(final(d)@),
        final(d)@.len() == old(d)@.len(),
        carry <= 1,
        2 * fraction_value(old(d)@) == carry * power(10, old(d)@.len()) + fraction_value(final(d)@),
{
    let ghost s = d@;
    let mut carry: u8 = 0;
    let mut i: usize = d.len();
    while i > 0
        invariant
            i <= s.len(),
            d@.len() == s.len(),
            is_fraction(s),
            is_fraction(d@),
            carry <= 1,
            forall|j: int| 0 <= j < i ==> d@[j] == s[j],
            2 * fraction_value(s.skip(i as int)) == carry * power(10, (s.len() - i) as nat)
                + fraction_value(d@.skip(i as int)),
        decreases i,
    {
        let ghost before = d@;
        let ghost old_carry = carry;
        assert(d@[i as int - 1] < 10);
        let v: u8 = 2 * d[i - 1] + carry;
        let (w, c): (u8, u8) = if v >= 10 {
            (v - 10, 1)
        } else {
            (v, 0)
        };
        d[i - 1] = w;
        carry = c;
        proof {
            let k = i as int - 1;
            let p = power(10, (s.len() - i) as nat);
            assert(s.skip(k).skip(1) =~= s.skip(i as int));
            assert(d@.skip(k).skip(1) =~= before.skip(i as int));
            assert(s.skip(k)[0] == s[k]);
            assert(d@.skip(k)[0] == w);
            assert(power(10, (s.len() - k) as nat) == 10 * p);
            assert(2 * (s[k] * p) + old_carry * p == c * (10 * p) + w * p) by (nonlinear_arith)
                requires
                    2 * s[k] + old_carry == 10 * c + w,
            ;
        }
        i = i - 1;
    }
    proof {
        assert(s.skip(0) =~= s);
        assert(d@.skip(0) =~= d@);
    }
    carry
}

/// The quotient of a mixed number by a power of two, and what is left over.
proof fn lemma_mixed_div(n: nat, q: nat, u: nat, r: nat, one: nat, f: nat)
    requires
        n == q * u + r,
        r < u,
        f < one,
    ensures
        one * u > 0,
        (n * one + f) / (one * u) == q,
        (n * one + f) % (one * u) == r * one + f,
{
    assert(one * u > 0) by (nonlinear_arith)
        requires
            one > 0,
            u > 0,
    ;
    assert(n * one + f == q * (one * u) + (r * one + f)) by (nonlinear_arith)
        requires
            n == q * u + r,
    ;
    assert(r * one + f < one * u) by (nonlinear_arith)
        requires
            r + 1 <= u,
            f < one,
            one > 0,
    ;
    lemma_div_split(n * one + f, one * u, q, r * one + f);
}

/// Rounds a whole number `n` of 54 bits or more, with `f / one` behind it, to a
/// significand of 53 bits.
fn round_large(n: u128, sticky: bool, Ghost(one): Ghost<nat>, Ghost(f): Ghost<nat>) -> (r: u128)
    requires
        SIGNIFICAND_END <= n < 0x2_0000_0000_0000_0000,
        f < one,
        sticky == (f > 0),
    ensures
        r == double_floor((n * one + f) as nat, one),
        r <= 2 * n,
{
    let mut q: u128 = n;
    let mut u: u128 = 1;
    let mut rest: u128 = 0;
    let ghost mut h: nat = 0;
    while q >= SIGNIFICAND_END as u128
        invariant
            SIGNIFICAND_MIN <= q <= n,
            n < 0x2_0000_0000_0000_0000,
            SIGNIFICAND_END <= n,
            u == power(2, h),
            1 <= u <= 0x2000,
            n == q * u + rest,
            rest < u,
            h == 0 ==> q == n,
        decreases q,
    {
        let ghost u0 = u;
        let ghost q0 = q;
        let ghost rest0 = rest;
        proof {
            assert(u < 0x1000) by (nonlinear_arith)
                requires
                    n == q * u + rest,
                    q >= 0x20_0000_0000_0000,
                    n < 0x2_0000_0000_0000_0000,
                    rest >= 0,
                    u >= 1,
            ;
        }
        rest = if q % 2 == 1 {
            rest + u
        } else {
            rest
        };
        q = q / 2;
        u = u * 2;
        proof {
            lemma_power_step(2, h);
            h = h + 1;
            assert(n == q * u + rest) by (nonlinear_arith)
                requires
                    n == q0 * u0 + rest0,
                    u == 2 * u0,
                    q0 == 2 * q && rest == rest0 || q0 == 2 * q + 1 && rest == rest0 + u0,
            ;
        }
    }
    let ghost a: nat = (n * one + f) as nat;
    proof {
        assert(h > 0);
        assert(u == 2 * power(2, (h - 1) as nat));
        assert(SIGNIFICAND_MIN * one * u <= n * one + f < SIGNIFICAND_END * one * u)
            by (nonlinear_arith)
            requires
                n == q * u + rest,
                rest < u,
                f < one,
                SIGNIFICAND_MIN <= q,
                q + 1 <= SIGNIFICAND_END,
                one > 0,
                u > 0,
        ;
        lemma_halvings(a, one, h);
        lemma_mixed_div(n as nat, q as nat, u as nat, rest as nat, one, f);
        if 2 * rest < u {
            assert(2 * (rest * one + f) < one * u) by (nonlinear_arith)
                requires
                    2 * rest + 2 <= u,
                    f < one,
            ;
        }
        assert(2 * rest > u ==> 2 * (rest * one + f) > one * u) by (nonlinear_arith)
            requires
                f >= 0,
                one > 0,
        ;
        assert(2 * rest == u ==> 2 * (rest * one + f) == one * u + 2 * f) by (nonlinear_arith);
    }
    let up: bool = 2 * rest > u || (2 * rest == u && (sticky || q % 2 == 1));
    let m: u128 = if up {
        q + 1
    } else {
        q
    };
    proof {
        assert(m == round_half_even(a, (one * u) as nat));
        assert(m * u <= 0x20_0000_0000_0000 * 0x2000) by (nonlinear_arith)
            requires
                m <= 0x20_0000_0000_0000,
                u <= 0x2000,
        ;
    }
    proof {
        assert(m * u <= 2 * n) by (nonlinear_arith)
            requires
                n == q * u + rest,
                rest >= 0,
                q >= 1,
                m <= q + 1,
                u > 0,
        ;
    }
    m * u
}

pub(crate) proof fn lemma_halvings_range(a: nat, b: nat)
    requires
        b > 0,
        a >= SIGNIFICAND_END * b,
    ensures
        SIGNIFICAND_MIN * b * power(2, halvings(a, b)) <= a < SIGNIFICAND_END * b * power(
            2,
            halvings(a, b),
        ),
    decreases a - b,
{
    let h = halvings(a, 2 * b);
    let p = power(2, h);
    assert(halvings(a, b) == 1 + h);
    lemma_power_step(2, h);
    if a < SIGNIFICAND_END * (2 * b) {
        assert(h == 0);
        assert(p == 1);
        assert(SIGNIFICAND_MIN * b * (2 * p) == SIGNIFICAND_END * b && SIGNIFICAND_END * b * (2 * p)
            == SIGNIFICAND_END * (2 * b)) by (nonlinear_arith)
            requires
                p == 1,
                SIGNIFICAND_END == 2 * SIGNIFICAND_MIN,
        ;
    } else {
        lemma_halvings_range(a, 2 * b);
        assert(SIGNIFICAND_MIN * (2 * b) * p == SIGNIFICAND_MIN * b * (2 * p)) by (nonlinear_arith);
        assert(SIGNIFICAND_END * (2 * b) * p == SIGNIFICAND_END * b * (2 * p)) by (nonlinear_arith);
    }
}

/// Two to the power of 64: the double nearest to the greatest byte count.
pub const SIZE_END: u128 = 0x1_0000_0000_0000_0000;

/// A number of two to the power of 65 or more rounds to none below.
proof fn lemma_double_huge(a: nat, b: nat)
    requires
        b > 0,
        a >= 2 * SIZE_END * b,
    ensures
        double_floor(a, b) > SIZE_END,
{
    assert(a >= SIGNIFICAND_END * b) by (nonlinear_arith)
        requires
            a >= 2 * SIZE_END * b,
            b > 0,
    ;
    lemma_halvings_range(a, b);
    let h = halvings(a, b);
    let u = power(2, h);
    lemma_power_pos(2, h);
    assert(u > 0x1000) by (nonlinear_arith)
        requires
            a >= 2 * 0x1_0000_0000_0000_0000 * b,
            a < 0x20_0000_0000_0000 * b * u,
            b > 0,
    ;
    let q = a / (b * u);
    assert(b * u > 0) by (nonlinear_arith)
        requires
            b > 0,
            u > 0,
    ;
    assert(q >= SIGNIFICAND_MIN) by (nonlinear_arith)
        requires
            a >= SIGNIFICAND_MIN * b * u,
            b * u > 0,
            q == a / (b * u),
    ;
    let m = round_half_even(a, b * u);
    assert(m >= q);
    assert(m * u > SIZE_END) by (nonlinear_arith)
        requires
            m >= 0x10_0000_0000_0000,
            u > 0x1000,
    ;
}

/// The doublings bring a number into the range of significands.
proof fn lemma_doublings_range(a: nat, b: nat)
    requires
        0 < a < SIGNIFICAND_MIN * b,
    ensures
        SIGNIFICAND_MIN * b <= a * power(2, doublings(a, b)) < SIGNIFICAND_END * b,
    decreases SIGNIFICAND_MIN * b - a,
{
    let t = doublings(2 * a, b);
    let p = power(2, t);
    assert(doublings(a, b) == 1 + t);
    lemma_power_step(2, t);
    if 2 * a >= SIGNIFICAND_MIN * b {
        assert(p == 1);
        assert(a * (2 * p) == 2 * a) by (nonlinear_arith)
            requires
                p == 1,
        ;
    } else {
        lemma_doublings_range(2 * a, b);
        assert((2 * a) * p == a * (2 * p)) by (nonlinear_arith);
    }
}

/// What lies below one half rounds to less than one.
proof fn lemma_double_small(a: nat, b: nat)
    requires
        2 * a < b,
    ensures
        double_floor(a, b) == 0,
{
    assert(a < SIGNIFICAND_MIN * b) by (nonlinear_arith)
        requires
            2 * a < b,
    ;
    assert(halvings(a, b) == 0);
    let t = doublings(a, b);
    let p = power(2, t);
    lemma_power_pos(2, t);
    if a == 0 {
        assert(0 * p == 0);
        lemma_div_split(0, b, 0, 0);
    } else {
        lemma_doublings_range(a, b);
        assert(p > SIGNIFICAND_END) by (nonlinear_arith)
            requires
                2 * a < b,
                a > 0,
                SIGNIFICAND_MIN * b <= a * p,
                SIGNIFICAND_END == 2 * SIGNIFICAND_MIN,
        ;
        let q = a * p / b;
        assert(q < SIGNIFICAND_END) by (nonlinear_arith)
            requires
                a * p < SIGNIFICAND_END * b,
                b > 0,
                q == a * p / b,
        ;
        let m = round_half_even(a * p, b);
        assert(m <= q + 1);
        lemma_div_split(m, p, 0, m);
    }
}

/// Rounds a whole number `n` of 53 bits or fewer, with a decimal fraction behind
/// it, to the nearest double and drops what is behind the point.
fn round_small(n: u128, d: Vec<u8>) -> (r: u128)
    requires
        n < SIGNIFICAND_END,
        is_fraction(d@),
    ensures
        r == double_floor(
            (n * power(10, d@.len()) + fraction_value(d@)) as nat,
            power(10, d@.len()),
        ),
{
    let ghost one = power(10, d@.len());
    let ghost a: nat = (n * one + fraction_value(d@)) as nat;
    let mut n: u128 = n;
    let mut d: Vec<u8> = d;
    let mut t: u32 = 0;
    let mut scale: u128 = 1;
    proof {
        lemma_power_pos(10, d@.len());
        assert(a * power(2, 0) == a) by (nonlinear_arith)
            requires
                power(2, 0) == 1,
        ;
    }
    while n < SIGNIFICAND_MIN as u128 && t < 53
        invariant
            t <= 53,
            n < SIGNIFICAND_END,
            is_fraction(d@),
            one == power(10, d@.len()),
            one > 0,
            scale == power(2, t as nat),
            scale <= 0x20_0000_0000_0000,
            t < 53 ==> scale <= 0x10_0000_0000_0000,
            a * power(2, t as nat) == n * one + fraction_value(d@),
        decreases 53 - t,
    {
        let ghost f = fraction_value(d@);
        let ghost n0 = n;
        let carry = double_fraction(&mut d);
        n = 2 * n + carry as u128;
        scale = scale * 2;
        proof {
            let p = power(2, t as nat);
            lemma_power_step(2, t as nat);
            assert(a * (2 * p) == 2 * (a * p)) by (nonlinear_arith);
            assert(2 * (n0 * one) + carry * one == n * one) by (nonlinear_arith)
                requires
                    n == 2 * n0 + carry,
            ;
            lemma_scale_bound(t);
        }
        t = t + 1;
    }
    let ghost f = fraction_value(d@);
    let ghost p = power(2, t as nat);
    proof {
        lemma_fraction_bound(d@);
        lemma_power_pos(2, t as nat);
    }
    if n < SIGNIFICAND_MIN as u128 {
        proof {
            lemma_scale_bound(52);
            assert(2 * a < one) by (nonlinear_arith)
                requires
                    a * p == n * one + f,
                    p == 0x20_0000_0000_0000,
                    n + 1 <= 0x10_0000_0000_0000,
                    f < one,
            ;
            lemma_double_small(a, one);
        }
        return 0;
    }
    proof {
        assert(SIGNIFICAND_MIN * one <= a * p < SIGNIFICAND_END * one) by (nonlinear_arith)
            requires
                a * p == n * one + f,
                SIGNIFICAND_MIN <= n,
                n + 1 <= SIGNIFICAND_END,
                f < one,
        ;
        assert(a <= a * p) by (nonlinear_arith)
            requires
                p >= 1,
                a >= 0,
        ;
        lemma_doublings(a, one, t as nat);
        lemma_div_split(a * p, one, n as nat, f);
    }
    let carry = double_fraction(&mut d);
    let exact: bool = fraction_is_zero(&d);
    proof {
        lemma_fraction_bound(d@);
        assert(carry * one == if carry == 1 {
            one as int
        } else {
            0
        }) by (nonlinear_arith)
            requires
                carry <= 1,
        ;
    }
    let up: bool = carry == 1 && (!exact || n % 2 == 1);
    let m: u128 = if up {
        n + 1
    } else {
        n
    };
    proof {
        assert(m == round_half_even(a * p, one));
        assert(halvings(a, one) == 0);
    }
    m / scale
}

proof fn lemma_scale_bound(t: u32)
    requires
        t < 53,
    ensures
        power(2, (t + 1) as nat) <= 0x20_0000_0000_0000,
        t + 1 < 53 ==> power(2, (t + 1) as nat) <= 0x10_0000_0000_0000,
        t + 1 == 53 ==> power(2, (t + 1) as nat) == 0x20_0000_0000_0000,
{
    assert(power(2, 52) == 0x10_0000_0000_0000) by {
        reveal_with_fuel(power, 53);
    }
    lemma_power_step(2, 52);
    lemma_power_monotone((t + 1) as nat, 53);
    if t + 1 < 53 {
        lemma_power_monotone((t + 1) as nat, 52);
    }
}

pub(crate) proof fn lemma_power_monotone(i: nat, j: nat)
    requires
        i <= j,
    ensures
        power(2, i) <= power(2, j),
    decreases j - i,
{
    if i < j {
        lemma_power_monotone(i, (j - 1) as nat);
        lemma_power_step(2, (j - 1) as nat);
    }
}

/// The byte count of a decimal numeral with `whole` before the point and `frac`
/// behind it, in units of two to the power of `shift`: the nearest double, cut to
/// a whole number; none where it lies beyond the greatest byte count.
pub open spec fn scaled_numeral(whole: Seq<char>, frac: Seq<char>, shift: nat) -> Option<u64> {
    let n = double_floor(digits_value(whole + frac) * power(2, shift), power(10, frac.len()));
    if n > SIZE_END {
        None
    } else if n > u64::MAX {
        Some(u64::MAX)
    } else {
        Some(n as u64)
    }
}

/// The digits behind the point, as values.
spec fn values(s: Seq<char>) -> Seq<u8> {
    s.map_values(|c: char| digit_value(c) as u8)
}

proof fn lemma_digits_split(whole: Seq<char>, frac: Seq<char>)
    requires
        all_digits(frac),
    ensures
        digits_value(whole + frac) == digits_value(whole) * power(10, frac.len())
            + fraction_value(values(frac)),
        is_fraction(values(frac)),
    decreases frac.len(),
{
    if frac.len() == 0 {
        assert(whole + frac =~= whole);
        assert(digits_value(whole) * power(10, 0) == digits_value(whole)) by (nonlinear_arith)
            requires
                power(10, 0) == 1,
        ;
    } else {
        let w = whole.push(frac[0]);
        let rest = frac.skip(1);
        assert(all_digits(rest)) by {
            assert forall|i: int| 0 <= i < rest.len() implies is_digit(#[trigger] rest[i]) by {
                assert(rest[i] == frac[i + 1]);
            }
        }
        lemma_digits_split(w, rest);
        assert(w + rest =~= whole + frac);
        assert(w.drop_last() =~= whole);
        assert(values(frac).skip(1) =~= values(rest));
        assert(is_digit(frac[0]));
        assert(is_fraction(values(frac))) by {
            assert forall|i: int| 0 <= i < frac.len() implies (#[trigger] values(frac)[i]) < 10 by {
                assert(is_digit(frac[i]));
            }
        }
        let p = power(10, (frac.len() - 1) as nat);
        let d = digit_value(frac[0]);
        let v = digits_value(whole);
        assert((10 * v + d) * p == v * (10 * p) + d * p) by (nonlinear_arith);
        assert(values(frac)[0] == d);
    }
}

/// The byte count of a numeral in units of two to the power of `shift`.
fn scale_numeral(whole: &Vec<char>, frac: &Vec<char>, shift: u32) -> (r: Option<u64>)
    requires
        all_digits(whole@),
        all_digits(frac@),
        shift <= 40,
    ensures
        r == scaled_numeral(whole@, frac@, shift as nat),
{
    let ghost one = power(10, frac@.len());
    let ghost value = digits_value(whole@ + frac@);
    let ghost p = power(2, shift as nat);
    proof {
        lemma_power_pos(10, frac@.len());
        lemma_power_pos(2, shift as nat);
        lemma_digits_split(whole@, frac@);
    }
    let mut n: u128 = 0;
    let mut i: usize = 0;
    while i < whole.len()
        invariant
            i <= whole@.len(),
            all_digits(whole@),
            n == digits_value(whole@.take(i as int)),
            n < 2 * SIZE_END,
            one > 0,
            one == power(10, frac@.len()),
            p == power(2, shift as nat),
            p > 0,
            value == digits_value(whole@ + frac@),
            value == digits_value(whole@) * one + fraction_value(values(frac@)),
        decreases whole@.len() - i,
    {
        assert(is_digit(whole@[i as int]));
        n = 10 * n + char_digit(whole[i]) as u128;
        proof {
            assert(whole@.take(i as int + 1).drop_last() =~= whole@.take(i as int));
            assert(whole@.take(i as int + 1).last() == whole@[i as int]);
        }
        i = i + 1;
        if n >= 2 * SIZE_END {
            proof {
                lemma_digits_prefix(whole@, i as int);
                assert(value * p >= 2 * SIZE_END * one) by (nonlinear_arith)
                    requires
                        value == digits_value(whole@) * one + fraction_value(values(frac@)),
                        digits_value(whole@) >= n,
                        n >= 2 * SIZE_END,
                        p >= 1,
                        one > 0,
                        fraction_value(values(frac@)) >= 0,
                ;
                lemma_double_huge(value * p, one);
            }
            return None;
        }
    }
    proof {
        assert(whole@.take(whole@.len() as int) =~= whole@);
    }
    let mut d: Vec<u8> = Vec::new();
    let mut j: usize = 0;
    while j < frac.len()
        invariant
            j <= frac@.len(),
            all_digits(frac@),
            d@ == values(frac@.take(j as int)),
        decreases frac@.len() - j,
    {
        assert(is_digit(frac@[j as int]));
        d.push(char_digit(frac[j]));
        proof {
            assert(values(frac@.take(j as int + 1)) =~= values(frac@.take(j as int)).push(
                digit_value(frac@[j as int]) as u8,
            ));
        }
        j = j + 1;
    }
    proof {
        assert(frac@.take(frac@.len() as int) =~= frac@);
        assert(value * power(2, 0) == value) by (nonlinear_arith)
            requires
                power(2, 0) == 1,
        ;
    }
    let mut k: u32 = 0;
    while k < shift
        invariant
            k <= shift,
            n < 2 * SIZE_END,
            is_fraction(d@),
            d@.len() == frac@.len(),
            one == power(10, frac@.len()),
            one > 0,
            p == power(2, shift as nat),
            value == digits_value(whole@ + frac@),
            value * power(2, k as nat) == n * one + fraction_value(d@),
        decreases shift - k,
    {
        let ghost n0 = n;
        let carry = double_fraction(&mut d);
        n = 2 * n + carry as u128;
        proof {
            let pk = power(2, k as nat);
            lemma_power_step(2, k as nat);
            assert(value * (2 * pk) == 2 * (value * pk)) by (nonlinear_arith);
            assert(2 * (n0 * one) + carry * one == n * one) by (nonlinear_arith)
                requires
                    n == 2 * n0 + carry,
            ;
        }
        k = k + 1;
        if n >= 2 * SIZE_END {
            proof {
                let pk = power(2, k as nat);
                lemma_power_monotone(k as nat, shift as nat);
                assert(value * pk >= 2 * SIZE_END * one) by (nonlinear_arith)
                    requires
                        value * pk == n * one + fraction_value(d@),
                        n >= 2 * SIZE_END,
                        one > 0,
                        fraction_value(d@) >= 0,
                ;
                assert(value * p >= value * pk) by (nonlinear_arith)
                    requires
                        p >= pk,
                        value >= 0,
                ;
                lemma_double_huge(value * p, one);
            }
            return None;
        }
    }
    proof {
        lemma_fraction_bound(d@);
    }
    let rounded: u128 = if n >= SIGNIFICAND_END as u128 {
        let sticky = !fraction_is_zero(&d);
        round_large(n, sticky, Ghost(one), Ghost(fraction_value(d@)))
    } else {
        round_small(n, d)
    };
    if rounded > SIZE_END {
        None
    } else if rounded > u64::MAX as u128 {
        Some(u64::MAX)
    } else {
        Some(rounded as u64)
    }
}

/// How many digits and points a text starts with.
pub open spec fn numeral_len(s: Seq<char>) -> nat
    decreases s.len(),
{
    if s.len() > 0 && (is_digit(s[0]) || s[0] == '.') {
        1 + numeral_len(s.skip(1))
    } else {
        0
    }
}

/// How many characters stand before the first point, if there is one.
pub open spec fn point(s: Seq<char>) -> nat
    decreases s.len(),
{
    if s.len() == 0 || s[0] == '.' {
        0
    } else {
        1 + point(s.skip(1))
    }
}

/// What stands before the point of a numeral.
pub open spec fn whole_part(s: Seq<char>) -> Seq<char> {
    s.take(point(s) as int)
}

/// What stands behind the point of a numeral.
pub open spec fn fraction_part(s: Seq<char>) -> Seq<char> {
    if point(s) < s.len() {
        s.skip(point(s) as int + 1)
    } else {
        seq![]
    }
}

/// A numeral has digits, and at most one point anywhere among them.
pub open spec fn is_numeral(s: Seq<char>) -> bool {
    &&& all_digits(whole_part(s))
    &&& all_digits(fraction_part(s))
    &&& whole_part(s).len() + fraction_part(s).len() > 0
}

/// The power of two that a unit in upper case stands for.
pub open spec fn unit_shift(unit: Seq<char>) -> Option<nat> {
    if unit == ""@ || unit == "B"@ {
        Some(0)
    } else if unit == "K"@ || unit == "KB"@ || unit == "KIB"@ {
        Some(10)
    } else if unit == "M"@ || unit == "MB"@ || unit == "MIB"@ {
        Some(20)
    } else if unit == "G"@ || unit == "GB"@ || unit == "GIB"@ {
        Some(30)
    } else if unit == "T"@ || unit == "TB"@ || unit == "TIB"@ {
        Some(40)
    } else {
        None
    }
}

/// What a size string stands for: white space at the ends is dropped, then comes
/// a numeral, then a unit in either case, with white space around it or not.
pub open spec fn parsed_size(text: Seq<char>) -> Result<u64, Seq<char>> {
    let s = trim(text);
    let num = s.take(numeral_len(s) as int);
    let unit = uppercase(trim(s.skip(numeral_len(s) as int)));
    if !is_numeral(num) {
        Err("invalid size: "@ + debug_text(s))
    } else {
        match unit_shift(unit) {
            None => Err("unknown size unit "@ + debug_text(unit) + (" in "@ + debug_text(s))),
            Some(shift) => match scaled_numeral(whole_part(num), fraction_part(num), shift) {
                None => Err("size out of range: "@ + debug_text(s)),
                Some(bytes) => Ok(bytes),
            },
        }
    }
}

fn leading_numeral(s: &Vec<char>) -> (r: usize)
    ensures
        r == numeral_len(s@),
        r <= s@.len(),
{
    let mut i: usize = 0;
    proof {
        assert(s@.skip(0) =~= s@);
    }
    while i < s.len() && (char_is_digit(s[i]) || s[i] == '.')
        invariant
            i <= s@.len(),
            numeral_len(s@) == i + numeral_len(s@.skip(i as int)),
        decreases s@.len() - i,
    {
        proof {
            assert(s@.skip(i as int).skip(1) =~= s@.skip(i as int + 1));
        }
        i = i + 1;
    }
    i
}

fn find_point(s: &Vec<char>) -> (r: usize)
    ensures
        r == point(s@),
        r <= s@.len(),
{
    let mut i: usize = 0;
    proof {
        assert(s@.skip(0) =~= s@);
    }
    while i < s.len() && s[i] != '.'
        invariant
            i <= s@.len(),
            point(s@) == i + point(s@.skip(i as int)),
        decreases s@.len() - i,
    {
        proof {
            assert(s@.skip(i as int).skip(1) =~= s@.skip(i as int + 1));
        }
        i = i + 1;
    }
    i
}

fn are_digits(s: &Vec<char>) -> (r: bool)
    ensures
        r == all_digits(s@),
{
    let mut i: usize = 0;
    while i < s.len()
        invariant
            i <= s@.len(),
            forall|j: int| 0 <= j < i ==> is_digit(#[trigger] s@[j]),
        decreases s@.len() - i,
    {
        if !char_is_digit(s[i]) {
            return false;
        }
        i = i + 1;
    }
    true
}

fn find_unit(unit: &Vec<char>) -> (r: Option<u32>)
    ensures
        match r {
            Some(shift) => unit_shift(unit@) == Some(shift as nat) && shift <= 40,
            None => unit_shift(unit@) is None,
        },
{
    if chars_are(unit, "") || chars_are(unit, "B") {
        Some(0)
    } else if chars_are(unit, "K") || chars_are(unit, "KB") || chars_are(unit, "KIB") {
        Some(10)
    } else if chars_are(unit, "M") || chars_are(unit, "MB") || chars_are(unit, "MIB") {
        Some(20)
    } else if chars_are(unit, "G") || chars_are(unit, "GB") || chars_are(unit, "GIB") {
        Some(30)
    } else if chars_are(unit, "T") || chars_are(unit, "TB") || chars_are(unit, "TIB") {
        Some(40)
    } else {
        None
    }
}

/// Parses `"1024"`, `"500MB"`, `"10 GiB"`, `"1.5TB"` and the like into bytes
/// (1024-based).
pub fn parse_size(s: &str) -> (r: Result<u64, String>)
    ensures
        outcome(r) == parsed_size(s@),
{
    let all = chars_of(s);
    let s = trimmed(&all);
    let split = leading_numeral(&s);
    let num = slice_of(&s, 0, split);
    let tail = slice_of(&s, split, s.len());
    proof {
        assert(num@ =~= s@.take(split as int));
        assert(tail@ =~= s@.skip(split as int));
    }
    let at = find_point(&num);
    let whole = slice_of(&num, 0, at);
    let frac = if at < num.len() {
        slice_of(&num, at + 1, num.len())
    } else {
        Vec::new()
    };
    proof {
        assert(whole@ =~= whole_part(num@));
        assert(frac@ =~= fraction_part(num@));
    }
    let shown = string_of(&s);
    if !are_digits(&whole) || !are_digits(&frac) || (whole.len() == 0 && frac.len() == 0) {
        return Err(quote_last("invalid size: ", shown.as_str()));
    }
    let unit = to_uppercase(&trimmed(&tail));
    match find_unit(&unit) {
        None => {
            let place = quote_last(" in ", shown.as_str());
            Err(quote("unknown size unit ", string_of(&unit).as_str(), place.as_str()))
        },
        Some(shift) => match scale_numeral(&whole, &frac, shift) {
            None => Err(quote_last("size out of range: ", shown.as_str())),
            Some(bytes) => Ok(bytes),
        },
    }
}

/// The unit that a byte count is shown in: the greatest that it reaches.
pub open spec fn display_unit(bytes: u64) -> nat {
    if bytes < 0x400 {
        0
    } else if bytes < 0x10_0000 {
        1
    } else if bytes < 0x4000_0000 {
        2
    } else if bytes < 0x100_0000_0000 {
        3
    } else {
        4
    }
}

/// The name of a unit.
pub open spec fn unit_name(unit: nat) -> Seq<char> {
    if unit == 0 {
        "B"@
    } else if unit == 1 {
        "KB"@
    } else if unit == 2 {
        "MB"@
    } else if unit == 3 {
        "GB"@
    } else {
        "TB"@
    }
}

/// A byte count in hundredths of a unit: those of the double nearest to it.
pub open spec fn display_hundredths(bytes: u64, unit: nat) -> nat {
    round_half_even(100 * double_floor(bytes as nat, 1), power(1024, unit))
}

/// A byte count as shown: whole bytes below 1024, two decimals above.
pub open spec fn formatted_size(bytes: u64) -> Seq<char> {
    let unit = display_unit(bytes);
    if unit == 0 {
        decimal(bytes as nat) + unit_name(0)
    } else {
        let h = display_hundredths(bytes, unit);
        decimal(h / 100) + seq!['.', digit_char(h / 10 % 10), digit_char(h % 10)] + unit_name(unit)
    }
}

/// The double nearest to a byte count.
fn nearest_double(bytes: u64) -> (r: u128)
    ensures
        r == double_floor(bytes as nat, 1),
        r <= 2 * SIZE_END,
{
    if bytes < SIGNIFICAND_END {
        proof {
            assert(bytes as nat * 1 == bytes as nat);
            lemma_double_exact(bytes as nat, 1);
        }
        bytes as u128
    } else {
        let r = round_large(bytes as u128, false, Ghost(1), Ghost(0));
        proof {
            assert(bytes * 1nat + 0nat == bytes);
        }
        r
    }
}

/// Shows a byte count in the greatest unit that it reaches.
pub fn format_size(bytes: u64) -> (r: String)
    ensures
        r@ == formatted_size(bytes),
{
    let mut out: String = String::new();
    if bytes < 0x400 {
        push_decimal(&mut out, bytes);
        out.append("B");
        return out;
    }
    let (scale, name): (u128, &str) = if bytes < 0x10_0000 {
        (0x400, "KB")
    } else if bytes < 0x4000_0000 {
        (0x10_0000, "MB")
    } else if bytes < 0x100_0000_0000 {
        (0x4000_0000, "GB")
    } else {
        (0x100_0000_0000, "TB")
    };
    let ghost unit = display_unit(bytes);
    proof {
        reveal_with_fuel(power, 5);
        assert(scale == power(1024, unit));
    }
    let value: u128 = 100 * nearest_double(bytes);
    let q: u128 = value / scale;
    let rest: u128 = value % scale;
    let h: u128 = if 2 * rest > scale || (2 * rest == scale && q % 2 == 1) {
        q + 1
    } else {
        q
    };
    proof {
        assert(h == display_hundredths(bytes, unit));
        assert(q * 0x400 <= value) by (nonlinear_arith)
            requires
                q == value / scale,
                scale >= 0x400,
        ;
    }
    let whole: u64 = (h / 100) as u64;
    push_decimal(&mut out, whole);
    out.push('.');
    out.push((48u8 + (h / 10 % 10) as u8) as char);
    out.push((48u8 + (h % 10) as u8) as char);
    out.append(name);
    proof {
        assert(whole == h / 100);
        assert(out@ =~= decimal((h / 100) as nat) + seq![
            '.',
            digit_char((h / 10 % 10) as nat),
            digit_char((h % 10) as nat),
        ] + name@);
    }
    out
}

} // verus!
