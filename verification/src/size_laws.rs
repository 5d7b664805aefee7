//! What the reading and the showing of sizes promise.

use crate::size::{
    display_hundredths, display_unit, double_floor, doublings, formatted_size, fraction_part,
    halvings, is_numeral, lemma_double_exact, lemma_doublings, lemma_halvings,
    lemma_halvings_range, lemma_power_monotone, lemma_power_pos, lemma_power_step,
    lemma_round_exact, numeral_len, parsed_size, point, power, round_half_even, unit_name,
    unit_shift, whole_part, SIGNIFICAND_END, SIGNIFICAND_MIN, SIZE_END,
};
use crate::text::{
    all_digits, debug_text, decimal, digit_char, digits_value, is_digit, is_whitespace,
    lemma_decimal_value, trim, trim_end, trim_start, upper, uppercase,
};
use vstd::arithmetic::power::pow;
use vstd::prelude::*;

verus! {

/// A text that is read as a unit when it stands behind a numeral: it is empty, or
/// it starts with neither digit, point nor white space and ends in no white space.
pub open spec fn is_unit_text(u: Seq<char>) -> bool {
    u.len() > 0 ==> {
        &&& !is_digit(u[0]) && u[0] != '.'
        &&& !is_whitespace(u[0])
        &&& !is_whitespace(u.last())
    }
}

/// Digits and points.
pub open spec fn is_numeral_text(s: Seq<char>) -> bool {
    forall|i: int| 0 <= i < s.len() ==> is_digit(#[trigger] s[i]) || s[i] == '.'
}

proof fn lemma_numeral_len(num: Seq<char>, u: Seq<char>)
    requires
        is_numeral_text(num),
        u.len() > 0 ==> !is_digit(u[0]) && u[0] != '.',
    ensures
        numeral_len(num + u) == num.len(),
    decreases num.len(),
{
    let s = num + u;
    if num.len() == 0 {
        assert(s =~= u);
    } else {
        assert(s[0] == num[0]);
        assert(is_digit(num[0]) || num[0] == '.');
        let rest = num.skip(1);
        assert forall|i: int| 0 <= i < rest.len() implies is_digit(#[trigger] rest[i]) || rest[i]
            == '.' by {
            assert(rest[i] == num[i + 1]);
        }
        lemma_numeral_len(rest, u);
        assert(s.skip(1) =~= rest + u);
    }
}

/// A numeral and a unit put together are read apart again.
proof fn lemma_parts(num: Seq<char>, u: Seq<char>)
    requires
        num.len() > 0,
        is_numeral_text(num),
        is_unit_text(u),
    ensures
        trim(num + u) == num + u,
        numeral_len(num + u) == num.len(),
        (num + u).take(num.len() as int) == num,
        (num + u).skip(num.len() as int) == u,
        trim(u) == u,
{
    let s = num + u;
    lemma_numeral_len(num, u);
    assert(s.take(num.len() as int) =~= num);
    assert(s.skip(num.len() as int) =~= u);
    assert(s[0] == num[0]);
    assert(is_digit(num[0]) || num[0] == '.');
    if u.len() > 0 {
        assert(s.last() == u.last());
    } else {
        assert(s.last() == num[num.len() - 1]);
        assert(is_digit(num[num.len() - 1]) || num[num.len() - 1] == '.');
    }
}

/// Whole numbers of 53 bits are doubles, and stay so when they are multiplied by a
/// power of two.
proof fn lemma_double_scaled(v: nat, shift: nat)
    requires
        v <= SIGNIFICAND_END,
    ensures
        double_floor(v * power(2, shift), 1) == v * power(2, shift),
{
    let w = power(2, shift);
    let n = v * w;
    lemma_power_pos(2, shift);
    if n < SIGNIFICAND_END {
        assert(n * 1 == n);
        lemma_double_exact(n, 1);
    } else {
        lemma_halvings_range(n, 1);
        let h = halvings(n, 1);
        let u = power(2, h);
        lemma_power_pos(2, h);
        assert(1 * u == u);
        let q: nat = if h <= shift {
            let x = power(2, (shift - h) as nat);
            lemma_power_product((shift - h) as nat, h);
            assert(v * (x * u) == (v * x) * u) by (nonlinear_arith);
            v * x
        } else {
            lemma_power_step(2, shift);
            lemma_power_monotone(shift + 1, h);
            assert(u == 2 * w && v == SIGNIFICAND_END) by (nonlinear_arith)
                requires
                    SIGNIFICAND_MIN * u <= v * w,
                    v <= SIGNIFICAND_END,
                    SIGNIFICAND_END == 2 * SIGNIFICAND_MIN,
                    u >= 2 * w,
                    w > 0,
            ;
            assert(SIGNIFICAND_END * w == SIGNIFICAND_MIN * (2 * w)) by (nonlinear_arith)
                requires
                    SIGNIFICAND_END == 2 * SIGNIFICAND_MIN,
            ;
            SIGNIFICAND_MIN as nat
        };
        assert(n == q * u);
        lemma_round_exact(q, u);
    }
}

proof fn lemma_power_product(i: nat, j: nat)
    ensures
        power(2, i + j) == power(2, i) * power(2, j),
    decreases i,
{
    if i == 0 {
        assert(1 * power(2, j) == power(2, j));
    } else {
        let x = power(2, (i - 1) as nat);
        let y = power(2, j);
        lemma_power_product((i - 1) as nat, j);
        lemma_power_step(2, (i - 1 + j) as nat);
        assert(2 * (x * y) == (2 * x) * y) by (nonlinear_arith);
    }
}

/// Whole sizes are exact: up to two to the power of 53, digits and a unit stand for
/// their product, wherever it is a byte count.
pub proof fn law_whole_sizes_are_exact(num: Seq<char>, u: Seq<char>, shift: nat)
    requires
        num.len() > 0,
        all_digits(num),
        is_unit_text(u),
        unit_shift(uppercase(u)) == Some(shift),
        digits_value(num) <= SIGNIFICAND_END,
        digits_value(num) * power(2, shift) <= u64::MAX,
    ensures
        parsed_size(num + u) == Ok::<u64, Seq<char>>((digits_value(num) * power(2, shift)) as u64),
{
    assert forall|i: int| 0 <= i < num.len() implies is_digit(#[trigger] num[i]) || num[i]
        == '.' by {
    }
    lemma_parts(num, u);
    lemma_no_point(num);
    assert(whole_part(num) =~= num);
    assert(fraction_part(num) =~= seq![]);
    assert(num + fraction_part(num) =~= num);
    assert(power(10, 0) == 1);
    lemma_double_scaled(digits_value(num), shift);
}

proof fn lemma_no_point(num: Seq<char>)
    requires
        all_digits(num),
    ensures
        point(num) == num.len(),
    decreases num.len(),
{
    if num.len() > 0 {
        assert(is_digit(num[0]));
        let rest = num.skip(1);
        assert forall|i: int| 0 <= i < rest.len() implies is_digit(#[trigger] rest[i]) by {
            assert(rest[i] == num[i + 1]);
        }
        lemma_no_point(rest);
    }
}

/// The size that a text stands for, if it stands for one.
pub open spec fn size_of(text: Seq<char>) -> Option<u64> {
    match parsed_size(text) {
        Ok(bytes) => Some(bytes),
        Err(message) => None,
    }
}

proof fn lemma_trim_uppercase(s: Seq<char>)
    ensures
        trim(uppercase(s)) == uppercase(trim(s)),
{
    lemma_trim_start_uppercase(s);
    lemma_trim_end_uppercase(trim_start(s));
}

proof fn lemma_trim_start_uppercase(s: Seq<char>)
    ensures
        trim_start(uppercase(s)) == uppercase(trim_start(s)),
    decreases s.len(),
{
    if s.len() > 0 {
        assert(uppercase(s)[0] == upper(s[0]));
        assert(uppercase(s).skip(1) =~= uppercase(s.skip(1)));
        lemma_trim_start_uppercase(s.skip(1));
    }
}

proof fn lemma_trim_end_uppercase(s: Seq<char>)
    ensures
        trim_end(uppercase(s)) == uppercase(trim_end(s)),
    decreases s.len(),
{
    if s.len() > 0 {
        assert(uppercase(s).last() == upper(s.last()));
        assert(uppercase(s).drop_last() =~= uppercase(s.drop_last()));
        lemma_trim_end_uppercase(s.drop_last());
    }
}

/// The numeral that a text starts with is the same in upper case.
proof fn lemma_numeral_uppercase(s: Seq<char>)
    ensures
        numeral_len(uppercase(s)) == numeral_len(s),
        numeral_len(s) <= s.len(),
        uppercase(s).take(numeral_len(s) as int) == s.take(numeral_len(s) as int),
        uppercase(s).skip(numeral_len(s) as int) == uppercase(s.skip(numeral_len(s) as int)),
    decreases s.len(),
{
    let n = numeral_len(s) as int;
    let t = uppercase(s);
    if s.len() > 0 {
        assert(t[0] == upper(s[0]));
        if is_digit(s[0]) || s[0] == '.' {
            let rest = s.skip(1);
            lemma_numeral_uppercase(rest);
            assert(t.skip(1) =~= uppercase(rest));
            assert forall|i: int| 0 <= i < n implies #[trigger] t[i] == s[i] by {
                if i > 0 {
                    assert(uppercase(rest).take(n - 1)[i - 1] == rest.take(n - 1)[i - 1]);
                }
            }
        }
    }
    assert(t.take(n) =~= s.take(n));
    assert(t.skip(n) =~= uppercase(s.skip(n)));
}

/// A text in upper case stands for the same size.
proof fn lemma_size_uppercase(text: Seq<char>)
    ensures
        size_of(uppercase(trim(text))) == size_of(text),
{
    let s = trim(text);
    let t = uppercase(s);
    lemma_trim_uppercase(text);
    lemma_trim_uppercase(uppercase(text));
    lemma_trim_twice(uppercase(text));
    assert(trim(t) == t);
    lemma_numeral_uppercase(s);
    let tail = s.skip(numeral_len(s) as int);
    lemma_trim_uppercase(tail);
    assert(uppercase(uppercase(trim(tail))) =~= uppercase(trim(tail)));
}

proof fn lemma_trim_twice(s: Seq<char>)
    ensures
        trim(trim(s)) == trim(s),
{
    let t = trim_start(s);
    lemma_trim_start_stops(s);
    lemma_trim_end_stops(t);
}

proof fn lemma_trim_start_stops(s: Seq<char>)
    ensures
        trim_start(s).len() > 0 ==> !is_whitespace(trim_start(s)[0]),
    decreases s.len(),
{
    if s.len() > 0 && is_whitespace(s[0]) {
        lemma_trim_start_stops(s.skip(1));
    }
}

proof fn lemma_trim_end_stops(s: Seq<char>)
    ensures
        trim_end(s).len() <= s.len(),
        trim_end(s).len() > 0 ==> !is_whitespace(trim_end(s).last()) && trim_end(s)[0] == s[0],
    decreases s.len(),
{
    if s.len() > 0 && is_whitespace(s.last()) {
        lemma_trim_end_stops(s.drop_last());
    }
}

/// Sizes are read in either case, and with white space at the ends or without: two
/// texts that differ in nothing else stand for the same size, or neither stands for
/// one.
pub proof fn law_case_and_outer_space_are_ignored(a: Seq<char>, b: Seq<char>)
    requires
        uppercase(trim(a)) == uppercase(trim(b)),
    ensures
        size_of(a) == size_of(b),
{
    lemma_size_uppercase(a);
    lemma_size_uppercase(b);
}

proof fn lemma_trim_start_space(w: Seq<char>, u: Seq<char>)
    requires
        forall|i: int| 0 <= i < w.len() ==> is_whitespace(#[trigger] w[i]),
    ensures
        trim_start(w + u) == trim_start(u),
    decreases w.len(),
{
    if w.len() == 0 {
        assert(w + u =~= u);
    } else {
        let rest = w.skip(1);
        assert(is_whitespace(w[0]));
        assert((w + u)[0] == w[0]);
        assert forall|i: int| 0 <= i < rest.len() implies is_whitespace(#[trigger] rest[i]) by {
            assert(rest[i] == w[i + 1]);
        }
        assert((w + u).skip(1) =~= rest + u);
        lemma_trim_start_space(rest, u);
    }
}

proof fn lemma_trim_end_space(s: Seq<char>, w: Seq<char>)
    requires
        forall|i: int| 0 <= i < w.len() ==> is_whitespace(#[trigger] w[i]),
    ensures
        trim_end(s + w) == trim_end(s),
    decreases w.len(),
{
    if w.len() == 0 {
        assert(s + w =~= s);
    } else {
        let init = w.drop_last();
        assert(is_whitespace(w[w.len() - 1]));
        assert((s + w).last() == w[w.len() - 1]);
        assert forall|i: int| 0 <= i < init.len() implies is_whitespace(#[trigger] init[i]) by {
            assert(init[i] == w[i]);
        }
        assert((s + w).drop_last() =~= s + init);
        lemma_trim_end_space(s, init);
    }
}

/// White space between a numeral and its unit is ignored.
pub proof fn law_inner_space_is_ignored(num: Seq<char>, w: Seq<char>, u: Seq<char>)
    requires
        is_numeral_text(num),
        forall|i: int| 0 <= i < w.len() ==> is_whitespace(#[trigger] w[i]),
        is_unit_text(u),
    ensures
        size_of(num + w + u) == size_of(num + u),
{
    lemma_trim_start_space(w, u);
    if num.len() == 0 {
        assert(num + w + u =~= w + u);
        assert(num + u =~= u);
    } else if u.len() == 0 {
        assert(num + w + u =~= num + w);
        assert(num + u =~= num);
        assert(is_digit(num[0]) || num[0] == '.');
        assert((num + w)[0] == num[0]);
        lemma_trim_end_space(num, w);
    } else {
        let s = num + w + u;
        let tail = w + u;
        assert(s =~= num + tail);
        assert(is_digit(num[0]) || num[0] == '.');
        assert(s[0] == num[0]);
        assert(s.last() == u.last());
        if w.len() > 0 {
            assert(is_whitespace(w[0]));
            assert(tail[0] == w[0]);
        } else {
            assert(tail[0] == u[0]);
        }
        lemma_numeral_len(num, tail);
        assert(s.take(num.len() as int) =~= num);
        assert(s.skip(num.len() as int) =~= tail);
        lemma_parts(num, u);
    }
}

/// Rounding is off by half at most.
proof fn lemma_round_error(a: nat, b: nat)
    requires
        b > 0,
    ensures
        2 * (round_half_even(a, b) * b) <= 2 * a + b,
        2 * a <= 2 * (round_half_even(a, b) * b) + b,
{
    let q = a / b;
    let r = a % b;
    vstd::arithmetic::div_mod::lemma_fundamental_div_mod(a as int, b as int);
    assert(b * q == q * b) by (nonlinear_arith);
    assert((q + 1) * b == q * b + b) by (nonlinear_arith);
}

/// Below two to the power of 53 the whole part of the nearest double is off by less
/// than two.
proof fn lemma_double_error_small(a: nat, b: nat)
    requires
        b > 0,
        a < SIGNIFICAND_END * b,
    ensures
        2 * (double_floor(a, b) * b) <= 2 * a + b,
        a <= double_floor(a, b) * b + b,
{
    assert(halvings(a, b) == 0);
    let p = power(2, doublings(a, b));
    lemma_power_pos(2, doublings(a, b));
    let m = round_half_even(a * p, b);
    let d = m / p;
    lemma_round_error(a * p, b);
    vstd::arithmetic::div_mod::lemma_fundamental_div_mod(m as int, p as int);
    assert(2 * (d * b) <= 2 * a + b) by {
        assert((2 * (d * b)) * p <= (2 * a + b) * p) by (nonlinear_arith)
            requires
                2 * (m * b) <= 2 * (a * p) + b,
                p * d <= m,
                p >= 1,
                b > 0,
        ;
        vstd::arithmetic::mul::lemma_mul_inequality_converse(
            (2 * (d * b)) as int,
            (2 * a + b) as int,
            p as int,
        );
    }
    assert(a <= d * b + b) by {
        assert(a * p <= (d * b + b) * p) by (nonlinear_arith)
            requires
                2 * (a * p) <= 2 * (m * b) + b,
                m + 1 <= p * d + p,
                b > 0,
        ;
        vstd::arithmetic::mul::lemma_mul_inequality_converse(
            a as int,
            (d * b + b) as int,
            p as int,
        );
    }
}

/// Up to two to the power of 64 the nearest double is off by 2048 at most, and does not
/// pass that power.
proof fn lemma_double_error_large(a: nat, b: nat)
    requires
        b > 0,
        SIGNIFICAND_END * b <= a <= SIZE_END * b,
    ensures
        double_floor(a, b) * b <= a + 2048 * b,
        a <= double_floor(a, b) * b + 2048 * b,
        double_floor(a, b) <= SIZE_END,
{
    lemma_halvings_range(a, b);
    let h = halvings(a, b);
    let u = power(2, h);
    lemma_power_pos(2, h);
    assert(u <= 4096) by (nonlinear_arith)
        requires
            0x10_0000_0000_0000 * b * u <= a,
            a <= 0x1_0000_0000_0000_0000 * b,
            b > 0,
    ;
    assert(power(2, 11) == 2048 && power(2, 12) == 4096) by {
        reveal_with_fuel(power, 13);
    }
    let c = b * u;
    assert(c > 0) by (nonlinear_arith)
        requires
            c == b * u,
            b > 0,
            u > 0,
    ;
    let m = round_half_even(a, c);
    lemma_round_error(a, c);
    assert(m * c == (m * u) * b && c <= 4096 * b) by (nonlinear_arith)
        requires
            c == b * u,
            u <= 4096,
    ;
    assert(a / c < SIGNIFICAND_END) by (nonlinear_arith)
        requires
            a < SIGNIFICAND_END * b * u,
            c == b * u,
            c > 0,
    ;
    assert(m <= SIGNIFICAND_END);
    if h >= 12 {
        lemma_power_monotone(12, h);
        assert(a == SIGNIFICAND_MIN * c) by (nonlinear_arith)
            requires
                0x10_0000_0000_0000 * b * u <= a,
                a <= 0x1_0000_0000_0000_0000 * b,
                u == 4096,
                c == b * u,
                SIGNIFICAND_MIN == 0x10_0000_0000_0000,
        ;
        lemma_round_exact(SIGNIFICAND_MIN as nat, c);
    } else {
        lemma_power_monotone(h, 11);
        assert(m * u <= 0x20_0000_0000_0000 * 2048) by (nonlinear_arith)
            requires
                m <= 0x20_0000_0000_0000,
                u <= 2048,
        ;
    }
}

/// A numeral with two decimals is read as the hundredths it was made of.
proof fn lemma_hundredths(h: nat)
    ensures
        ({
            let whole = decimal(h / 100);
            let frac = seq![digit_char(h / 10 % 10), digit_char(h % 10)];
            let num = whole + seq!['.', digit_char(h / 10 % 10), digit_char(h % 10)];
            &&& is_numeral_text(num)
            &&& is_numeral(num)
            &&& whole_part(num) == whole
            &&& fraction_part(num) == frac
            &&& digits_value(whole + frac) == h
        }),
{
    let whole = decimal(h / 100);
    let d1 = h / 10 % 10;
    let d2 = h % 10;
    let frac = seq![digit_char(d1), digit_char(d2)];
    let tail = seq!['.', digit_char(d1), digit_char(d2)];
    let num = whole + tail;
    lemma_decimal_value(h / 100);
    assert forall|i: int| 0 <= i < num.len() implies is_digit(#[trigger] num[i]) || num[i]
        == '.' by {
        if i < whole.len() {
            assert(is_digit(whole[i]));
        }
    }
    lemma_point(whole, tail);
    assert(num.take(whole.len() as int) =~= whole);
    assert(num.skip(whole.len() as int + 1) =~= frac);
    let v = whole + frac;
    assert(v.drop_last() =~= whole.push(digit_char(d1)));
    assert(v.drop_last().drop_last() =~= whole);
    assert(digits_value(v.drop_last()) == 10 * digits_value(whole) + d1);
}

proof fn lemma_point(whole: Seq<char>, tail: Seq<char>)
    requires
        all_digits(whole),
        tail.len() > 0,
        tail[0] == '.',
    ensures
        point(whole + tail) == whole.len(),
    decreases whole.len(),
{
    let s = whole + tail;
    if whole.len() == 0 {
        assert(s =~= tail);
    } else {
        let rest = whole.skip(1);
        assert(is_digit(whole[0]));
        assert(s[0] == whole[0]);
        assert forall|i: int| 0 <= i < rest.len() implies is_digit(#[trigger] rest[i]) by {
            assert(rest[i] == whole[i + 1]);
        }
        assert(s.skip(1) =~= rest + tail);
        lemma_point(rest, tail);
    }
}

/// The name of a unit is read as the unit.
proof fn lemma_unit_name(unit: nat)
    requires
        unit <= 4,
    ensures
        is_unit_text(unit_name(unit)),
        unit_shift(uppercase(unit_name(unit))) == Some(10 * unit),
        power(2, 10 * unit) == power(1024, unit),
{
    reveal_strlit("");
    reveal_strlit("B");
    reveal_strlit("K");
    reveal_strlit("KB");
    reveal_strlit("KIB");
    reveal_strlit("M");
    reveal_strlit("MB");
    reveal_strlit("MIB");
    reveal_strlit("G");
    reveal_strlit("GB");
    reveal_strlit("GIB");
    reveal_strlit("T");
    reveal_strlit("TB");
    reveal_strlit("TIB");
    let name = unit_name(unit);
    assert(uppercase(name) =~= name);
    assert(name.len() <= 2);
    assert("KB"@[0] == 'K' && "MB"@[0] == 'M' && "GB"@[0] == 'G' && "TB"@[0] == 'T');
    assert(""@.len() == 0 && "B"@.len() == 1 && "KB"@.len() == 2 && "KIB"@.len() == 3);
    assert("K"@.len() == 1 && "M"@.len() == 1 && "G"@.len() == 1 && "T"@.len() == 1);
    assert("MIB"@.len() == 3 && "GIB"@.len() == 3 && "TIB"@.len() == 3);
    if unit > 0 {
        assert(name[1] == 'B');
    }
    assert(power(2, 10 * unit) == power(1024, unit)) by {
        reveal_with_fuel(power, 11);
        assert(power(2, 10) == 1024);
        if unit >= 1 {
            lemma_power_product(10, (10 * unit - 10) as nat);
        }
        if unit >= 2 {
            lemma_power_product(10, (10 * unit - 20) as nat);
        }
        if unit >= 3 {
            lemma_power_product(10, (10 * unit - 30) as nat);
        }
        if unit >= 4 {
            lemma_power_product(10, 0);
        }
    }
}

/// A size that is shown is read back as a size that differs from it by a hundredth of
/// the unit at most; one that is shown in bytes is read back as it was.
pub proof fn law_sizes_read_back(bytes: u64)
    ensures
        size_of(formatted_size(bytes)) is Some,
        ({
            let back = size_of(formatted_size(bytes))->0;
            let unit = power(1024, display_unit(bytes));
            &&& 100 * (back - bytes) <= unit
            &&& 100 * (bytes - back) <= unit
            &&& bytes < 1024 ==> back == bytes
        }),
{
    let unit = display_unit(bytes);
    let name = unit_name(unit);
    let u = power(1024, unit);
    lemma_unit_name(unit);
    reveal_with_fuel(power, 5);
    if unit == 0 {
        let num = decimal(bytes as nat);
        lemma_decimal_value(bytes as nat);
        assert(digits_value(num) * power(2, 0) == bytes);
        law_whole_sizes_are_exact(num, name, 0);
    } else {
        let d = double_floor(bytes as nat, 1);
        let h = display_hundredths(bytes, unit);
        let frac = seq![digit_char(h / 10 % 10), digit_char(h % 10)];
        let num = decimal(h / 100) + seq!['.', digit_char(h / 10 % 10), digit_char(h % 10)];
        lemma_hundredths(h);
        lemma_parts(num, name);
        assert(power(10, 2) == 100);
        let n = double_floor(h * u, 100);
        assert(bytes < SIGNIFICAND_END ==> d == bytes) by {
            if bytes < SIGNIFICAND_END {
                assert(bytes as nat * 1 == bytes);
                lemma_double_exact(bytes as nat, 1);
            }
        }
        if bytes >= SIGNIFICAND_END {
            lemma_double_error_large(bytes as nat, 1);
        }
        lemma_round_error(100 * d, u);
        assert(h * u <= SIZE_END * 100) by {
            if unit == 4 {
                assert(h <= 1_677_721_600) by (nonlinear_arith)
                    requires
                        2 * (h * u) <= 200 * d + u,
                        u == 0x100_0000_0000,
                        d <= 0x1_0000_0000_0000_0000,
                ;
                assert(h * u <= 1_677_721_600 * 0x100_0000_0000) by (nonlinear_arith)
                    requires
                        h <= 1_677_721_600,
                        u == 0x100_0000_0000,
                ;
            }
        }
        if h * u < SIGNIFICAND_END * 100 {
            lemma_double_error_small(h * u, 100);
        } else {
            lemma_double_error_large(h * u, 100);
        }
    }
}

proof fn lemma_power_is_pow(base: nat, e: nat)
    ensures
        power(base, e) == pow(base as int, e),
    decreases e,
{
    reveal(pow);
    if e > 0 {
        lemma_power_is_pow(base, (e - 1) as nat);
    }
}

/// The nearest multiple, ties to even, is the only one.
proof fn lemma_nearest_is_rounded(a: nat, c: nat, m: nat)
    requires
        c > 0,
        2 * (m * c) <= 2 * a + c,
        2 * a <= 2 * (m * c) + c,
        2 * (m * c) == 2 * a + c || 2 * a == 2 * (m * c) + c ==> m % 2 == 0,
    ensures
        round_half_even(a, c) == m,
{
    let q = a / c;
    let r = a % c;
    vstd::arithmetic::div_mod::lemma_fundamental_div_mod(a as int, c as int);
    assert(c * q == q * c) by (nonlinear_arith);
    assert(q <= m <= q + 1) by {
        if m < q {
            assert(m * c + c <= q * c) by (nonlinear_arith)
                requires
                    m + 1 <= q,
                    c > 0,
            ;
        }
        if m > q + 1 {
            assert(q * c + 2 * c <= m * c) by (nonlinear_arith)
                requires
                    q + 2 <= m,
                    c > 0,
            ;
        }
    }
    assert((q + 1) * c == q * c + c) by (nonlinear_arith);
}

/// A number of two to the power of 53 or more becomes the double nearest to it: of the
/// multiples of the power of two that leaves 53 bits the nearest one, and of two that
/// are as near the even one.
pub proof fn law_large_numbers_become_the_nearest_double(a: nat, b: nat, h: nat, m: nat)
    requires
        b > 0,
        h > 0,
        0x10_0000_0000_0000 * (pow(2, h) * b) <= a < 0x20_0000_0000_0000 * (pow(2, h) * b),
        2 * (m * (pow(2, h) * b)) <= 2 * a + pow(2, h) * b,
        2 * a <= 2 * (m * (pow(2, h) * b)) + pow(2, h) * b,
        2 * (m * (pow(2, h) * b)) == 2 * a + pow(2, h) * b || 2 * a == 2 * (m * (pow(2, h) * b))
            + pow(2, h) * b ==> m % 2 == 0,
    ensures
        double_floor(a, b) == m * pow(2, h),
{
    lemma_power_is_pow(2, h);
    lemma_power_pos(2, h);
    let u = power(2, h);
    let c = b * u;
    assert(c == u * b && c > 0) by (nonlinear_arith)
        requires
            c == b * u,
            b > 0,
            u > 0,
    ;
    assert(SIGNIFICAND_MIN * b * u == SIGNIFICAND_MIN * c) by (nonlinear_arith)
        requires
            c == b * u,
    ;
    assert(SIGNIFICAND_END * b * u == SIGNIFICAND_END * c) by (nonlinear_arith)
        requires
            c == b * u,
    ;
    lemma_halvings(a, b, h);
    lemma_nearest_is_rounded(a, c, m);
}

/// A number below two to the power of 53 becomes the double nearest to it, cut to a
/// whole number: doubled until it has 53 bits it is rounded to a whole number, ties to
/// even, and halved again. Zero stays zero.
pub proof fn law_small_numbers_become_the_nearest_double(a: nat, b: nat, t: nat, m: nat)
    requires
        b > 0,
        0x10_0000_0000_0000 * b <= a * pow(2, t) < 0x20_0000_0000_0000 * b,
        2 * (m * b) <= 2 * (a * pow(2, t)) + b,
        2 * (a * pow(2, t)) <= 2 * (m * b) + b,
        2 * (m * b) == 2 * (a * pow(2, t)) + b || 2 * (a * pow(2, t)) == 2 * (m * b) + b ==> m % 2
            == 0,
    ensures
        double_floor(a, b) == m as int / pow(2, t),
        double_floor(0, b) == 0,
{
    lemma_power_is_pow(2, t);
    lemma_power_pos(2, t);
    let p = power(2, t);
    assert(a <= a * p) by (nonlinear_arith)
        requires
            p >= 1,
    ;
    assert(halvings(a, b) == 0);
    lemma_doublings(a, b, t);
    lemma_nearest_is_rounded(a * p, b, m);
    assert(0 * b == 0);
    lemma_double_exact(0, b);
}

/// The units, in upper case, and the powers of two that they stand for; there are no
/// others.
pub proof fn law_units_are_powers_of_1024(u: Seq<char>)
    ensures
        unit_shift(""@) == Some(0nat) && unit_shift("B"@) == Some(0nat),
        unit_shift("K"@) == Some(10nat) && unit_shift("KB"@) == Some(10nat) && unit_shift("KIB"@)
            == Some(10nat),
        unit_shift("M"@) == Some(20nat) && unit_shift("MB"@) == Some(20nat) && unit_shift("MIB"@)
            == Some(20nat),
        unit_shift("G"@) == Some(30nat) && unit_shift("GB"@) == Some(30nat) && unit_shift("GIB"@)
            == Some(30nat),
        unit_shift("T"@) == Some(40nat) && unit_shift("TB"@) == Some(40nat) && unit_shift("TIB"@)
            == Some(40nat),
        unit_shift(u) is Some ==> u == ""@ || u == "B"@ || u == "K"@ || u == "KB"@ || u == "KIB"@
            || u == "M"@ || u == "MB"@ || u == "MIB"@ || u == "G"@ || u == "GB"@ || u == "GIB"@
            || u == "T"@ || u == "TB"@ || u == "TIB"@,
{
    reveal_strlit("");
    reveal_strlit("B");
    reveal_strlit("K");
    reveal_strlit("KB");
    reveal_strlit("KIB");
    reveal_strlit("M");
    reveal_strlit("MB");
    reveal_strlit("MIB");
    reveal_strlit("G");
    reveal_strlit("GB");
    reveal_strlit("GIB");
    reveal_strlit("T");
    reveal_strlit("TB");
    reveal_strlit("TIB");
    assert(""@.len() == 0 && "B"@.len() == 1 && "KB"@.len() == 2 && "KIB"@.len() == 3);
    assert("K"@.len() == 1 && "M"@.len() == 1 && "G"@.len() == 1 && "T"@.len() == 1);
    assert("MB"@.len() == 2 && "GB"@.len() == 2 && "TB"@.len() == 2);
    assert("MIB"@.len() == 3 && "GIB"@.len() == 3 && "TIB"@.len() == 3);
    assert("B"@[0] == 'B' && "K"@[0] == 'K' && "M"@[0] == 'M' && "G"@[0] == 'G' && "T"@[0] == 'T');
    assert("KB"@[0] == 'K' && "MB"@[0] == 'M' && "GB"@[0] == 'G' && "TB"@[0] == 'T');
    assert("KIB"@[0] == 'K' && "MIB"@[0] == 'M' && "GIB"@[0] == 'G' && "TIB"@[0] == 'T');
}

/// The numeral of a size: digits, a point where there is one, and digits behind it.
spec fn numeral(whole: Seq<char>, point: bool, frac: Seq<char>) -> Seq<char> {
    if point {
        whole + (seq!['.'] + frac)
    } else {
        whole
    }
}

proof fn lemma_numeral_parts(whole: Seq<char>, point: bool, frac: Seq<char>, tail: Seq<char>)
    requires
        all_digits(whole),
        all_digits(frac),
        !point ==> frac.len() == 0,
        whole.len() + frac.len() > 0,
        tail.len() > 0 ==> !is_digit(tail[0]) && tail[0] != '.',
    ensures
        ({
            let num = numeral(whole, point, frac);
            &&& is_numeral(num)
            &&& whole_part(num) == whole
            &&& fraction_part(num) == frac
            &&& numeral_len(num + tail) == num.len()
            &&& (num + tail).take(num.len() as int) == num
            &&& (num + tail).skip(num.len() as int) == tail
        }),
{
    let num = numeral(whole, point, frac);
    assert forall|i: int| 0 <= i < num.len() implies is_digit(#[trigger] num[i]) || num[i]
        == '.' by {
        if i < whole.len() {
            assert(is_digit(whole[i]));
        } else if i > whole.len() {
            assert(num[i] == frac[i - whole.len() - 1]);
        }
    }
    lemma_numeral_len(num, tail);
    assert((num + tail).take(num.len() as int) =~= num);
    assert((num + tail).skip(num.len() as int) =~= tail);
    if point {
        lemma_point(whole, seq!['.'] + frac);
        assert(num.take(whole.len() as int) =~= whole);
        assert(num.skip(whole.len() as int + 1) =~= frac);
    } else {
        lemma_no_point(num);
        assert(num.take(num.len() as int) =~= num);
        assert(frac =~= seq![]);
    }
}

/// A number with a known unit, in whatever case and with whatever white space around it,
/// stands for the nearest double of their product, cut to a whole number. At two to the
/// power of 64 it is the greatest byte count, and beyond that it is refused.
pub proof fn law_numbers_with_a_unit_are_read(
    text: Seq<char>,
    whole: Seq<char>,
    point: bool,
    frac: Seq<char>,
    tail: Seq<char>,
    shift: nat,
)
    requires
        all_digits(whole),
        all_digits(frac),
        !point ==> frac.len() == 0,
        whole.len() + frac.len() > 0,
        tail.len() > 0 ==> !is_digit(tail[0]) && tail[0] != '.',
        trim(text) == (if point {
            whole + (seq!['.'] + frac)
        } else {
            whole
        }) + tail,
        unit_shift(uppercase(trim(tail))) == Some(shift),
    ensures
        ({
            let n = double_floor(
                (digits_value(whole + frac) * pow(2, shift)) as nat,
                pow(10, frac.len()) as nat,
            );
            &&& n > 0x1_0000_0000_0000_0000 ==> parsed_size(text) == Err::<u64, Seq<char>>(
                "size out of range: "@ + debug_text(trim(text)),
            )
            &&& n == 0x1_0000_0000_0000_0000 ==> parsed_size(text) == Ok::<u64, Seq<char>>(u64::MAX)
            &&& n < 0x1_0000_0000_0000_0000 ==> parsed_size(text) == Ok::<u64, Seq<char>>(n as u64)
        }),
{
    lemma_numeral_parts(whole, point, frac, tail);
    lemma_power_is_pow(2, shift);
    lemma_power_is_pow(10, frac.len());
}

/// A number with a unit that is not known is refused, and the unit is shown in upper
/// case.
pub proof fn law_unknown_units_are_refused(
    text: Seq<char>,
    whole: Seq<char>,
    point: bool,
    frac: Seq<char>,
    tail: Seq<char>,
)
    requires
        all_digits(whole),
        all_digits(frac),
        !point ==> frac.len() == 0,
        whole.len() + frac.len() > 0,
        tail.len() > 0 ==> !is_digit(tail[0]) && tail[0] != '.',
        trim(text) == (if point {
            whole + (seq!['.'] + frac)
        } else {
            whole
        }) + tail,
        unit_shift(uppercase(trim(tail))) is None,
    ensures
        parsed_size(text) == Err::<u64, Seq<char>>(
            "unknown size unit "@ + debug_text(uppercase(trim(tail))) + (" in "@ + debug_text(
                trim(text),
            )),
        ),
{
    lemma_numeral_parts(whole, point, frac, tail);
}

proof fn lemma_first_point(s: Seq<char>)
    ensures
        point(s) <= s.len(),
        forall|k: int| 0 <= k < point(s) ==> (#[trigger] s[k]) != '.',
        point(s) < s.len() ==> s[point(s) as int] == '.',
    decreases s.len(),
{
    if s.len() > 0 && s[0] != '.' {
        let rest = s.skip(1);
        lemma_first_point(rest);
        assert forall|k: int| 0 <= k < point(s) implies (#[trigger] s[k]) != '.' by {
            if k > 0 {
                assert(rest[k - 1] == s[k]);
            }
        }
        if point(s) < s.len() {
            assert(rest[point(rest) as int] == s[point(s) as int]);
        }
    }
}

/// Where a size starts with no digit at all, or with more than one point among its
/// digits, it is refused.
pub proof fn law_other_numbers_are_refused(
    text: Seq<char>,
    num: Seq<char>,
    tail: Seq<char>,
    i: int,
    j: int,
)
    requires
        forall|k: int| 0 <= k < num.len() ==> is_digit(#[trigger] num[k]) || num[k] == '.',
        tail.len() > 0 ==> !is_digit(tail[0]) && tail[0] != '.',
        trim(text) == num + tail,
        (forall|k: int| 0 <= k < num.len() ==> !is_digit(#[trigger] num[k])) || 0 <= i < j
            < num.len() && num[i] == '.' && num[j] == '.',
    ensures
        parsed_size(text) == Err::<u64, Seq<char>>("invalid size: "@ + debug_text(trim(text))),
{
    lemma_numeral_len(num, tail);
    assert((num + tail).take(num.len() as int) =~= num);
    lemma_first_point(num);
    let p = point(num) as int;
    let frac = fraction_part(num);
    if 0 <= i < j < num.len() && num[i] == '.' && num[j] == '.' {
        assert(p <= i) by {
            if i < p {
                assert(num[i] != '.');
            }
        }
        assert(frac[j - p - 1] == num[j]);
        assert(!is_digit(frac[j - p - 1]));
    } else {
        if p > 0 {
            assert(num[0] != '.');
            assert(is_digit(num[0]));
        }
        if frac.len() > 0 {
            assert(frac[0] == num[p + 1]);
            assert(!is_digit(num[p + 1]));
        }
    }
}

/// Below 1024 a byte count is shown as it is.
pub proof fn law_small_sizes_are_shown_in_bytes(bytes: u64)
    requires
        bytes < 1024,
    ensures
        formatted_size(bytes) == decimal(bytes as nat) + "B"@,
{
}

/// From 1024 on a byte count is shown in the greatest unit that it reaches, with two
/// decimals: the hundredths nearest to its double, and of two that are as near the even
/// ones.
pub proof fn law_sizes_are_shown_in_hundredths(bytes: u64, k: nat, h: nat)
    requires
        1 <= k <= 4,
        pow(1024, k) <= bytes,
        k < 4 ==> bytes < pow(1024, k + 1),
        2 * (h * pow(1024, k)) <= 200 * double_floor(bytes as nat, 1) + pow(1024, k),
        200 * double_floor(bytes as nat, 1) <= 2 * (h * pow(1024, k)) + pow(1024, k),
        2 * (h * pow(1024, k)) == 200 * double_floor(bytes as nat, 1) + pow(1024, k) || 200
            * double_floor(bytes as nat, 1) == 2 * (h * pow(1024, k)) + pow(1024, k) ==> h % 2 == 0,
    ensures
        formatted_size(bytes) == decimal(h / 100) + seq![
            '.',
            (48 + h / 10 % 10) as char,
            (48 + h % 10) as char,
        ] + (if k == 1 {
            "KB"@
        } else if k == 2 {
            "MB"@
        } else if k == 3 {
            "GB"@
        } else {
            "TB"@
        }),
{
    lemma_power_is_pow(1024, k);
    lemma_power_is_pow(1024, k + 1);
    assert(power(1024, 1) == 0x400 && power(1024, 2) == 0x10_0000 && power(1024, 3) == 0x4000_0000
        && power(1024, 4) == 0x100_0000_0000) by {
        reveal_with_fuel(power, 5);
    }
    assert(display_unit(bytes) == k);
    lemma_power_pos(1024, k);
    lemma_nearest_is_rounded(100 * double_floor(bytes as nat, 1), power(1024, k), h);
}

} // verus!
