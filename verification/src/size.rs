//! Human-readable sizes (`12.4 GiB`) and the colour of a size.
use vstd::prelude::*;
use vstd::arithmetic::div_mod::lemma_fundamental_div_mod;
use crate::text::{decimal, digit_char, pad_left, repeat_char, push_decimal, decimal_len, push_repeat, push_char, lemma_decimal_len_u64};

verus! {

/// `1024` to the power `u`, for the units up to pebibytes.
pub open spec fn pow1024(u: int) -> int {
    if u <= 0 {
        1
    } else if u == 1 {
        1024
    } else if u == 2 {
        1_048_576
    } else if u == 3 {
        1_073_741_824
    } else if u == 4 {
        1_099_511_627_776
    } else {
        1_125_899_906_842_624
    }
}

/// The unit `human_size` shows `bytes` in: 0 for bytes, 1 for KiB, ...,
/// 5 for PiB; the largest `u <= 5` with `1024^u <= bytes`.
pub open spec fn size_unit(bytes: int) -> int {
    if bytes < pow1024(1) {
        0
    } else if bytes < pow1024(2) {
        1
    } else if bytes < pow1024(3) {
        2
    } else if bytes < pow1024(4) {
        3
    } else if bytes < pow1024(5) {
        4
    } else {
        5
    }
}

/// The three-character name of unit `u`.
pub open spec fn unit_name(u: int) -> Seq<char> {
    if u == 0 {
        "B  "@
    } else if u == 1 {
        "KiB"@
    } else if u == 2 {
        "MiB"@
    } else if u == 3 {
        "GiB"@
    } else if u == 4 {
        "TiB"@
    } else {
        "PiB"@
    }
}

/// `n / d` rounded to the nearest integer, a tie going to the even one
/// (for `n >= 0` and `d > 0`).
pub open spec fn div_round_half_even(n: int, d: int) -> int {
    let q = n / d;
    let r = n % d;
    if 2 * r > d || (2 * r == d && q % 2 == 1) {
        q + 1
    } else {
        q
    }
}

/// The distance between consecutive `f64` values near `n`, for
/// `0 <= n < 2^64`: 1 below `2^53`, doubling at each power of two above.
pub open spec fn f64_spacing(n: int) -> int {
    if n < 0x20_0000_0000_0000 {
        1
    } else if n < 0x40_0000_0000_0000 {
        2
    } else if n < 0x80_0000_0000_0000 {
        4
    } else if n < 0x100_0000_0000_0000 {
        8
    } else if n < 0x200_0000_0000_0000 {
        16
    } else if n < 0x400_0000_0000_0000 {
        32
    } else if n < 0x800_0000_0000_0000 {
        64
    } else if n < 0x1000_0000_0000_0000 {
        128
    } else if n < 0x2000_0000_0000_0000 {
        256
    } else if n < 0x4000_0000_0000_0000 {
        512
    } else if n < 0x8000_0000_0000_0000 {
        1024
    } else {
        2048
    }
}

/// The value of `n as f64` for `0 <= n < 2^64`: `n` rounded to the nearest
/// multiple of `f64_spacing(n)`, a tie going to the even multiple.
pub open spec fn u64_as_f64(n: int) -> int {
    div_round_half_even(n, f64_spacing(n)) * f64_spacing(n)
}

/// The number of tenths that `{:.1}` shows for `bytes` expressed in unit
/// `size_unit(bytes)`: the exact value of `(bytes as f64) / 1024^u`, in
/// tenths, rounded half to even.
pub open spec fn size_tenths(bytes: int) -> int {
    div_round_half_even(10 * u64_as_f64(bytes), pow1024(size_unit(bytes)))
}

/// The text of `human_size(bytes)`: below 1 KiB the byte count
/// right-aligned in 6 columns and `B  `; above, the size in the largest
/// unit up to PiB that it reaches, with one decimal, right-aligned in 6
/// columns, a space and the unit.
pub open spec fn human_size_text(bytes: int) -> Seq<char> {
    if size_unit(bytes) == 0 {
        pad_left(decimal(bytes as nat), 6) + seq![' '] + unit_name(0)
    } else {
        let t = size_tenths(bytes);
        pad_left(decimal((t / 10) as nat) + seq!['.', digit_char(t % 10)], 6) + seq![' ']
            + unit_name(size_unit(bytes))
    }
}

fn unit_label(u: u64) -> (s: &'static str)
    requires
        u <= 5,
    ensures
        s@ == unit_name(u as int),
{
    if u == 0 {
        "B  "
    } else if u == 1 {
        "KiB"
    } else if u == 2 {
        "MiB"
    } else if u == 3 {
        "GiB"
    } else if u == 4 {
        "TiB"
    } else {
        "PiB"
    }
}

fn round_half_even(n: u128, d: u128) -> (r: u128)
    requires
        d > 0,
        n / d < u128::MAX,
    ensures
        r == div_round_half_even(n as int, d as int),
{
    let q = n / d;
    let rem = n % d;
    if rem > d - rem || (rem == d - rem && q % 2 == 1) {
        q + 1
    } else {
        q
    }
}

fn spacing(n: u64) -> (s: u64)
    ensures
        s == f64_spacing(n as int),
        1 <= s <= 2048,
{
    if n < 0x20_0000_0000_0000 {
        1
    } else if n < 0x40_0000_0000_0000 {
        2
    } else if n < 0x80_0000_0000_0000 {
        4
    } else if n < 0x100_0000_0000_0000 {
        8
    } else if n < 0x200_0000_0000_0000 {
        16
    } else if n < 0x400_0000_0000_0000 {
        32
    } else if n < 0x800_0000_0000_0000 {
        64
    } else if n < 0x1000_0000_0000_0000 {
        128
    } else if n < 0x2000_0000_0000_0000 {
        256
    } else if n < 0x4000_0000_0000_0000 {
        512
    } else if n < 0x8000_0000_0000_0000 {
        1024
    } else {
        2048
    }
}

/// The value of `n as f64`, as an exact integer.
fn as_f64_value(n: u64) -> (v: u128)
    ensures
        v == u64_as_f64(n as int),
        v <= 0x1_0000_0000_0000_0000,
{
    let s = spacing(n);
    let q = round_half_even(n as u128, s as u128);
    assert(q <= n / s + 1);
    assert(q * s <= n + s) by (nonlinear_arith)
        requires
            q <= n / s + 1,
            s >= 1,
    {
        assert((n / s) * s <= n) by (nonlinear_arith)
            requires
                s >= 1,
        ;
    }
    assert(q * s <= 0x1_0000_0000_0000_0000) by {
        if n >= 0x8000_0000_0000_0000 {
            assert(s == 2048);
            assert(n / s <= 0x20_0000_0000_0000 - 1);
            assert(q <= 0x20_0000_0000_0000);
            assert(q * s <= 0x1_0000_0000_0000_0000) by (nonlinear_arith)
                requires
                    q <= 0x20_0000_0000_0000,
                    s == 2048,
            ;
        } else {
            assert(n + s <= 0x1_0000_0000_0000_0000);
        }
    }
    q * (s as u128)
}

/// Formats a byte count for display, e.g. ` 12.4 GiB` or `   512 B  `.
pub fn human_size(bytes: u64) -> (r: String)
    ensures
        r@ == human_size_text(bytes as int),
{
    let mut r = String::new();
    if bytes < 1024 {
        proof {
            assert(crate::text::pow10(4) == 10000) by {
                reveal_with_fuel(crate::text::pow10, 5);
            }
            crate::text::lemma_decimal_len(bytes as nat, 4);
        }
        let len = decimal_len(bytes);
        push_repeat(&mut r, ' ', 6 - len);
        push_decimal(&mut r, bytes);
        push_char(&mut r, ' ');
        r.append(unit_label(0));
        return r;
    }
    let u: u64 = if bytes < 1_048_576 {
        1
    } else if bytes < 1_073_741_824 {
        2
    } else if bytes < 1_099_511_627_776 {
        3
    } else if bytes < 1_125_899_906_842_624 {
        4
    } else {
        5
    };
    let divisor: u128 = if u == 1 {
        1024
    } else if u == 2 {
        1_048_576
    } else if u == 3 {
        1_073_741_824
    } else if u == 4 {
        1_099_511_627_776
    } else {
        1_125_899_906_842_624
    };
    assert(u == size_unit(bytes as int));
    assert(divisor == pow1024(u as int));
    let value = as_f64_value(bytes);
    let t = round_half_even(10 * value, divisor);
    assert(t == size_tenths(bytes as int));
    assert(t <= 10 * value / 1024 + 1);
    let whole: u64 = (t / 10) as u64;
    let tenth: u64 = (t % 10) as u64;
    proof {
        lemma_decimal_len_u64(whole);
    }
    let len = decimal_len(whole);
    if len + 2 < 6 {
        push_repeat(&mut r, ' ', 6 - (len + 2));
    } else {
        push_repeat(&mut r, ' ', 0);
    }
    push_decimal(&mut r, whole);
    push_char(&mut r, '.');
    push_char(&mut r, crate::text::digit(tenth));
    push_char(&mut r, ' ');
    r.append(unit_label(u));
    proof {
        let num = decimal(whole as nat) + seq!['.', digit_char(tenth as int)];
        assert(repeat_char(' ', 6 - num.len()) =~= repeat_char(' ', if len + 2 < 6 { 6 - (len + 2) } else { 0 }));
        assert(r@ =~= human_size_text(bytes as int));
    }
    r
}

/// Rounding `n / s` cannot pass `m` when `n <= m * s`.
proof fn lemma_round_le(n: int, s: int, m: int)
    requires
        s > 0,
        0 <= n <= m * s,
    ensures
        div_round_half_even(n, s) <= m,
{
    lemma_fundamental_div_mod(n, s);
    let q = n / s;
    let r = n % s;
    assert(q <= m) by (nonlinear_arith)
        requires
            s > 0,
            n == s * q + r,
            0 <= r,
            n <= m * s,
    ;
    if q == m {
        assert(r == 0) by (nonlinear_arith)
            requires
                n == s * q + r,
                q == m,
                n <= m * s,
                0 <= r,
        ;
    }
}

/// `n as f64` does not pass a bound `b >= n` that is a multiple of 2048.
proof fn lemma_f64_le(n: int, b: int)
    requires
        0 <= n <= b,
        b % 2048 == 0,
    ensures
        u64_as_f64(n) <= b,
{
    let s = f64_spacing(n);
    lemma_fundamental_div_mod(b, 2048);
    let k = b / 2048;
    assert(b == 2048 * k);
    let c: int = if s == 1 {
        2048
    } else if s == 2 {
        1024
    } else if s == 4 {
        512
    } else if s == 8 {
        256
    } else if s == 16 {
        128
    } else if s == 32 {
        64
    } else if s == 64 {
        32
    } else if s == 128 {
        16
    } else if s == 256 {
        8
    } else if s == 512 {
        4
    } else if s == 1024 {
        2
    } else {
        1
    };
    assert(c * s == 2048);
    let m = k * c;
    assert(m * s == b) by (nonlinear_arith)
        requires
            m == k * c,
            c * s == 2048,
            b == 2048 * k,
    ;
    lemma_round_le(n, s, m);
    let q = div_round_half_even(n, s);
    assert(q * s <= m * s) by (nonlinear_arith)
        requires
            q <= m,
            s > 0,
    ;
}

/// Below 2^60 bytes, `human_size` always takes ten columns: six for the
/// number, a space and three for the unit.
pub proof fn lemma_human_size_width(bytes: int)
    requires
        0 <= bytes < 0x1000_0000_0000_0000,
    ensures
        human_size_text(bytes).len() == 10,
{
    reveal_strlit("B  ");
    reveal_strlit("KiB");
    reveal_strlit("MiB");
    reveal_strlit("GiB");
    reveal_strlit("TiB");
    reveal_strlit("PiB");
    assert(crate::text::pow10(4) == 10000) by {
        reveal_with_fuel(crate::text::pow10, 5);
    }
    let u = size_unit(bytes);
    assert(unit_name(u).len() == 3);
    if u == 0 {
        crate::text::lemma_decimal_len(bytes as nat, 4);
    } else {
        let p = pow1024(u);
        let b = 1024 * p;
        assert(bytes <= b);
        assert(b % 2048 == 0);
        lemma_f64_le(bytes, b);
        let f = u64_as_f64(bytes);
        assert(10 * f <= 10240 * p);
        lemma_round_le(10 * f, p, 10240);
        let t = size_tenths(bytes);
        assert(0 <= t) by {
            lemma_fundamental_div_mod(10 * f, p);
            assert(0 <= (10 * f) / p) by (nonlinear_arith)
                requires
                    10 * f >= 0,
                    p > 0,
            ;
        }
        assert(0 <= f) by {
            let s = f64_spacing(bytes);
            lemma_fundamental_div_mod(bytes, s);
            assert(0 <= bytes / s) by (nonlinear_arith)
                requires
                    bytes >= 0,
                    s > 0,
            ;
            assert(div_round_half_even(bytes, s) * s >= 0) by (nonlinear_arith)
                requires
                    div_round_half_even(bytes, s) >= 0,
                    s > 0,
            ;
        }
        crate::text::lemma_decimal_len((t / 10) as nat, 4);
    }
}

} // verus!
