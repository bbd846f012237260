//! Sizes as they are shown.
use vstd::prelude::*;

use crate::text;

verus! {

/// `n / d`, rounded to the nearest integer; of two that are equally near, to the even one.
pub open spec fn nearest(n: int, d: int) -> int {
    let q = n / d;
    let r = n % d;
    if 2 * r > d || (2 * r == d && q % 2 == 1) {
        q + 1
    } else {
        q
    }
}

/// The power of two by which `b` is to be divided to have at most 53 binary digits.
pub open spec fn scale(b: int) -> int
    decreases b,
{
    if b < 9_007_199_254_740_992 {
        1
    } else {
        2 * scale(b / 2)
    }
}

/// `b` with no more than 53 significant binary digits.
pub open spec fn shortened(b: int) -> int {
    nearest(b, scale(b)) * scale(b)
}

/// 1024 to the power of `u`.
pub open spec fn kilo_power(u: int) -> int
    decreases u,
{
    if u <= 0 {
        1
    } else {
        1024 * kilo_power(u - 1)
    }
}

/// The largest unit, up to the fifth power of 1024, that is no larger than the size.
pub open spec fn unit_of(v: int) -> int {
    if v < kilo_power(1) {
        0
    } else if v < kilo_power(2) {
        1
    } else if v < kilo_power(3) {
        2
    } else if v < kilo_power(4) {
        3
    } else if v < kilo_power(5) {
        4
    } else {
        5
    }
}

pub open spec fn unit_name(u: int) -> Seq<char> {
    if u == 0 {
        "  B"@
    } else if u == 1 {
        "KiB"@
    } else if u == 2 {
        "MiB"@
    } else if u == 3 {
        "GiB"@
    } else if u == 4 {
        "TiB"@
    } else {
        "PiB"@
    }
}

/// The tenths of a unit in a size.
pub open spec fn tenths(v: int, u: int) -> int {
    nearest(10 * v, kilo_power(u))
}

/// A number of tenths with one decimal.
pub open spec fn one_decimal(t: int) -> Seq<char> {
    text::decimal((t / 10) as nat).push('.').push(text::digit(t % 10))
}

/// A size as it is shown: bytes exactly, or a number of the largest fitting unit with one decimal.
pub open spec fn size_text(bytes: int) -> Seq<char> {
    let v = shortened(bytes);
    let u = unit_of(v);
    let number = if u == 0 {
        text::decimal(bytes as nat)
    } else {
        one_decimal(tenths(v, u))
    };
    text::pad_left(number, 6, ' ') + seq![' '] + unit_name(u)
}

proof fn lemma_kilo_powers()
    ensures
        kilo_power(0) == 1,
        kilo_power(1) == 1024,
        kilo_power(2) == 1_048_576,
        kilo_power(3) == 1_073_741_824,
        kilo_power(4) == 1_099_511_627_776,
        kilo_power(5) == 1_125_899_906_842_624,
{
    reveal_with_fuel(kilo_power, 7);
}

fn nearest_of(n: u128, d: u128) -> (q: u128)
    requires
        0 < d,
        n < 0x1_0000_0000_0000_0000_0000,
        d < 0x1_0000_0000_0000_0000_0000,
    ensures
        q == nearest(n as int, d as int),
{
    let q: u128 = n / d;
    let r: u128 = n % d;
    assert(q <= n) by (nonlinear_arith)
        requires
            q == n / d,
            0 < d,
    ;
    assert(r < d) by (nonlinear_arith)
        requires
            r == n % d,
            0 < d,
    ;
    if 2 * r > d || (2 * r == d && q % 2 == 1) {
        q + 1
    } else {
        q
    }
}

fn scale_of(b: u64) -> (s: u64)
    ensures
        s == scale(b as int),
        1 <= s <= 4_096,
        b < 9_007_199_254_740_992 * s,
{
    let mut s: u64 = 1;
    let mut t: u64 = b;
    while t >= 9_007_199_254_740_992
        invariant
            1 <= s,
            scale(b as int) == s * scale(t as int),
            t * s <= b < (t + 1) * s,
            s <= 4_096,
        decreases t,
    {
        assert(s < 2_048) by (nonlinear_arith)
            requires
                t * s <= b,
                t >= 9_007_199_254_740_992,
                b <= 0xffff_ffff_ffff_ffff,
                1 <= s,
        ;
        let ghost t0 = t as int;
        let ghost s0 = s as int;
        t = t / 2;
        s = s * 2;
        proof {
            assert(scale(t0) == 2 * scale(t0 / 2));
            assert(s0 * (2 * scale(t0 / 2)) == (2 * s0) * scale(t0 / 2)) by (nonlinear_arith);
            assert((t0 / 2) * (2 * s0) <= t0 * s0) by (nonlinear_arith)
                requires
                    1 <= s0,
                    t0 >= 0,
            ;
            assert((t0 + 1) * s0 <= (t0 / 2 + 1) * (2 * s0)) by (nonlinear_arith)
                requires
                    1 <= s0,
                    t0 >= 0,
            ;
        }
    }
    assert(s * 1 == s);
    assert(b < 9_007_199_254_740_992 * s) by (nonlinear_arith)
        requires
            b < (t + 1) * s,
            t < 9_007_199_254_740_992,
            1 <= s,
    ;
    s
}

/// `b` with no more than 53 significant binary digits.
fn shorten(b: u64) -> (v: u128)
    ensures
        v == shortened(b as int),
        v < 0x4_0000_0000_0000_0000,
{
    let s: u64 = scale_of(b);
    let q: u128 = nearest_of(b as u128, s as u128);
    assert(q <= 9_007_199_254_740_992) by {
        assert((b as int) / (s as int) < 9_007_199_254_740_992) by (nonlinear_arith)
            requires
                b < 9_007_199_254_740_992 * s,
                1 <= s,
        ;
    }
    assert(q * s <= 9_007_199_254_740_992 * 4_096) by (nonlinear_arith)
        requires
            q <= 9_007_199_254_740_992,
            1 <= s <= 4_096,
            0 <= q,
    ;
    q * (s as u128)
}

/// A number of tenths with one decimal.
fn one_decimal_text(t: u64) -> (out: String)
    ensures
        out@ == one_decimal(t as int),
{
    let mut out = text::decimal_text(t / 10);
    out.push('.');
    out.push(text::digit_char(t % 10));
    out
}

/// Human-readable size: powers of 1024, like ncdu.
pub fn fmt_size(bytes: u64) -> (out: String)
    ensures
        out@ == size_text(bytes as int),
{
    proof {
        lemma_kilo_powers();
    }
    let v: u128 = shorten(bytes);
    let mut out;
    if v < 1_024 {
        out = text::padded(text::decimal_text(bytes).as_str(), 6, ' ');
        out.push(' ');
        out.append("  B");
        assert(out@ =~= size_text(bytes as int));
        return out;
    }
    let (power, name): (u128, &str) = if v < 1_048_576 {
        (1_024, "KiB")
    } else if v < 1_073_741_824 {
        (1_048_576, "MiB")
    } else if v < 1_099_511_627_776 {
        (1_073_741_824, "GiB")
    } else if v < 1_125_899_906_842_624 {
        (1_099_511_627_776, "TiB")
    } else {
        (1_125_899_906_842_624, "PiB")
    };
    assert(power == kilo_power(unit_of(v as int)));
    assert(name@ == unit_name(unit_of(v as int)));
    let t: u128 = nearest_of(10 * v, power);
    assert(t <= 0x1_0000_0000) by {
        assert(10 * v < 700_000 * power) by {
            assert(v < 70_000 * power);
        }
        assert((10 * v as int) / (power as int) < 700_000) by (nonlinear_arith)
            requires
                10 * v < 700_000 * power,
                0 < power,
        ;
    }
    out = text::padded(one_decimal_text(t as u64).as_str(), 6, ' ');
    out.push(' ');
    out.append(name);
    assert(out@ =~= size_text(bytes as int));
    out
}

proof fn lemma_nearest(n: int, d: int)
    requires
        d > 0,
    ensures
        -d <= 2 * (n - nearest(n, d) * d) <= d,
{
    let q = n / d;
    let r = n % d;
    assert(n == q * d + r && 0 <= r < d) by (nonlinear_arith)
        requires
            d > 0,
            q == n / d,
            r == n % d,
    ;
    assert((q + 1) * d == q * d + d) by (nonlinear_arith);
}

proof fn lemma_scale(b: int)
    requires
        b >= 0,
    ensures
        scale(b) >= 1,
        b < 9_007_199_254_740_992 * scale(b),
        b < 9_007_199_254_740_992 ==> scale(b) == 1,
        b >= 9_007_199_254_740_992 ==> 4_503_599_627_370_496 * scale(b) <= b,
    decreases b,
{
    if b >= 9_007_199_254_740_992 {
        lemma_scale(b / 2);
        if b / 2 < 9_007_199_254_740_992 {
            assert(scale(b) == 2);
        }
    }
}

/// `t` tenths of a power are the nearest to a size.
pub open spec fn is_near(t: int, v: int, power: int) -> bool {
    0 <= t && -power <= 2 * (10 * v - t * power) <= power
}

/// The text shows a size in tenths of a unit that stands for the power.
pub open spec fn shows(text: Seq<char>, v: int, power: int, unit: Seq<char>) -> bool {
    exists|t: int| #[trigger]
        is_near(t, v, power) && text == text::pad_left(one_decimal(t), 6, ' ') + seq![' '] + unit
}

/// A size is shown exactly below 1024 bytes, and above that as a number with one decimal of the largest
/// unit that it reaches, off by no more than half a tenth; one with more than 53 binary digits as the
/// shortened one.
pub proof fn law_sizes_are_shown_in_their_unit(b: int)
    requires
        0 <= b,
    ensures
        b < 1_024 ==> size_text(b) == text::pad_left(text::decimal(b as nat), 6, ' ') + "   B"@,
        1_024 <= b < 1_048_576 ==> shows(size_text(b), b, 1_024, "KiB"@),
        1_048_576 <= b < 1_073_741_824 ==> shows(size_text(b), b, 1_048_576, "MiB"@),
        1_073_741_824 <= b < 1_099_511_627_776 ==> shows(size_text(b), b, 1_073_741_824, "GiB"@),
        1_099_511_627_776 <= b < 1_125_899_906_842_624 ==> shows(
            size_text(b),
            b,
            1_099_511_627_776,
            "TiB"@,
        ),
        1_125_899_906_842_624 <= b < 9_007_199_254_740_992 ==> shows(
            size_text(b),
            b,
            1_125_899_906_842_624,
            "PiB"@,
        ),
        9_007_199_254_740_992 <= b ==> shows(
            size_text(b),
            shortened(b),
            1_125_899_906_842_624,
            "PiB"@,
        ),
{
    lemma_kilo_powers();
    lemma_scale(b);
    law_shortening_is_slight(b);
    let v = shortened(b);
    let u = unit_of(v);
    if u == 0 {
        reveal_strlit("  B");
        reveal_strlit("   B");
        let number = text::pad_left(text::decimal(b as nat), 6, ' ');
        assert(number + seq![' '] + "  B"@ =~= number + "   B"@);
    } else {
        let power = kilo_power(u);
        lemma_nearest(10 * v, power);
        let t = tenths(v, u);
        assert(t >= 0) by {
            if t < 0 {
                assert(t * power <= -power) by (nonlinear_arith)
                    requires
                        t < 0,
                        power > 0,
                ;
            }
        }
        assert(is_near(t, v, power));
        assert(shows(size_text(b), v, power, unit_name(u)));
    }
}

/// Sizes that take more than 53 binary digits are shortened before they are shown, by no more than one
/// part in the 53rd power of two.
pub proof fn law_shortening_is_slight(b: int)
    requires
        0 <= b,
    ensures
        -b <= 9_007_199_254_740_992 * (shortened(b) - b) <= b,
        b < 9_007_199_254_740_992 ==> shortened(b) == b,
{
    lemma_scale(b);
    let s = scale(b);
    lemma_nearest(b, s);
    if s == 1 {
        assert(nearest(b, 1) == b);
    }
}

/// One decimal: the tenth stands behind the point, the whole number before it.
pub proof fn law_one_decimal(t: int)
    requires
        0 <= t,
    ensures
        ({
            let s = one_decimal(t);
            let n = s.len();
            &&& n >= 3
            &&& s[n - 2] == '.'
            &&& 10 * text::worth(s.take(n - 2), 10) + (s[n - 1] as int - '0' as int) == t
        }),
{
    text::law_numerals_are_worth_their_number((t / 10) as nat);
    let s = one_decimal(t);
    assert(s.take(s.len() - 2) =~= text::decimal((t / 10) as nat));
}

} // verus!
