//! Human-readable byte formatting on whole-number arithmetic.
//!
//! A byte total is scaled by powers of 1024 into the largest unit that
//! keeps the figure at least 1, and printed with two decimal places,
//! rounded to nearest with ties to even - the rounding a binary float
//! renderer applies to these power-of-two fractions.

use vstd::prelude::*;

use crate::text::push_char;

verus! {

/// The decimal digit character for `d`.
pub open spec fn digit_char(d: int) -> char
    recommends
        0 <= d <= 9,
{
    (((d + 48) as u32) as char)
}

/// The decimal digits of a positive number, most significant first;
/// nothing for zero and below.
pub open spec fn dec_rep(n: int) -> Seq<char>
    decreases n,
{
    if n <= 0 {
        Seq::empty()
    } else {
        dec_rep(n / 10).push(digit_char(n % 10))
    }
}

/// The decimal digits of a nonnegative number; zero is `0`.
pub open spec fn dec_digits(n: int) -> Seq<char> {
    if n == 0 {
        seq!['0']
    } else {
        dec_rep(n)
    }
}

/// Appends the decimal digits of `n`.
pub fn push_decimal(out: &mut String, n: u128)
    ensures
        final (out)@ == old(out)@ + dec_digits(n as int),
{
    if n == 0 {
        push_char(out, '0');
        proof {
            assert(old(out)@.push('0') =~= old(out)@ + dec_digits(0));
        }
        return ;
    }
    let mut digits: Vec<char> = Vec::new();
    let mut m = n;
    while m > 0
        invariant
            dec_rep(n as int) == dec_rep(m as int) + digits@.reverse(),
        decreases m,
    {
        let d = (m % 10) as u8;
        let c = (48 + d) as char;
        proof {
            let dn = digits@;
            assert(dec_rep(m as int) == dec_rep(m as int / 10).push(digit_char(m as int % 10)));
            assert(c == digit_char(m as int % 10));
            assert(dn.push(c).reverse() =~= seq![c] + dn.reverse());
            assert(dec_rep(m as int / 10) + (seq![c] + dn.reverse()) =~= (dec_rep(
                m as int / 10,
            ).push(c)) + dn.reverse());
        }
        digits.push(c);
        m = m / 10;
    }
    proof {
        assert(dec_rep(0) + digits@.reverse() =~= digits@.reverse());
    }
    let ghost base = out@;
    let len = digits.len();
    let mut j: usize = len;
    while j > 0
        invariant
            j <= len,
            len == digits@.len(),
            out@ == base + digits@.reverse().subrange(0, len - j),
        decreases j,
    {
        j = j - 1;
        push_char(out, digits[j]);
        proof {
            let rev = digits@.reverse();
            assert(rev[len - j - 1] == digits@[j as int]);
            assert(rev.subrange(0, len - j) =~= rev.subrange(0, len - j - 1).push(
                digits@[j as int],
            ));
            assert(base + rev.subrange(0, len - j) =~= (base + rev.subrange(0, len - j - 1)).push(
                digits@[j as int],
            ));
        }
    }
    proof {
        assert(digits@.reverse().subrange(0, len as int) =~= digits@.reverse());
        assert(dec_digits(n as int) == digits@.reverse());
    }
}

/// The unit a byte total is shown in: 1024-based steps from bytes up to
/// pebibytes.
pub open spec fn byte_scale(b: int) -> int {
    if b < 1024 {
        0
    } else if b < 0x100000 {
        1
    } else if b < 0x40000000 {
        2
    } else if b < 0x10000000000 {
        3
    } else if b < 0x4000000000000 {
        4
    } else {
        5
    }
}

/// The divisor belonging to a scale step.
pub open spec fn scale_divisor(u: int) -> int {
    if u == 0 {
        1
    } else if u == 1 {
        1024
    } else if u == 2 {
        0x100000
    } else if u == 3 {
        0x40000000
    } else if u == 4 {
        0x10000000000
    } else {
        0x4000000000000
    }
}

/// The unit's suffix.
pub open spec fn scale_suffix(u: int) -> Seq<char> {
    if u == 0 {
        seq!['B']
    } else if u == 1 {
        seq!['K', 'B']
    } else if u == 2 {
        seq!['M', 'B']
    } else if u == 3 {
        seq!['G', 'B']
    } else if u == 4 {
        seq!['T', 'B']
    } else {
        seq!['P', 'B']
    }
}

/// `num / den` rounded to the nearest whole number, ties to even.
pub open spec fn round_half_even(num: int, den: int) -> int
    recommends
        den > 0,
{
    let q = num / den;
    let r = num % den;
    if 2 * r > den || (2 * r == den && q % 2 == 1) {
        q + 1
    } else {
        q
    }
}

/// Executable rounded division, nearest with ties to even.
fn round_div_even(num: u128, den: u128) -> (r: u128)
    requires
        0 < den <= u128::MAX / 2,
        num / den < u128::MAX,
    ensures
        r as int == round_half_even(num as int, den as int),
{
    let q = num / den;
    let r2 = num % den;
    if 2 * r2 > den || (2 * r2 == den && q % 2 == 1) {
        q + 1
    } else {
        q
    }
}

/// The full rendering of a byte total: the scaled figure with two
/// decimal places (nearest, ties to even), a space and the unit. A
/// fraction that rounds up to a whole carries into the figure.
pub open spec fn human_bytes_spec(b: int) -> Seq<char> {
    let u = byte_scale(b);
    let d = scale_divisor(u);
    let f = round_half_even((b % d) * 100, d);
    if f == 100 {
        dec_digits(b / d + 1) + seq!['.', '0', '0', ' '] + scale_suffix(u)
    } else {
        dec_digits(b / d) + seq!['.'] + seq![digit_char(f / 10), digit_char(f % 10)] + seq![' ']
            + scale_suffix(u)
    }
}

/// Renders a byte total for people: scaled into the largest fitting
/// 1024-based unit, with two decimal places rounded to nearest.
pub fn human_bytes(b: u128) -> (r: String)
    ensures
        r@ == human_bytes_spec(b as int),
{
    let (div, unit0, unit1): (u128, char, char) = if b < 1024 {
        (1, 'B', ' ')
    } else if b < 0x100000 {
        (1024, 'K', 'B')
    } else if b < 0x40000000 {
        (0x100000, 'M', 'B')
    } else if b < 0x10000000000 {
        (0x40000000, 'G', 'B')
    } else if b < 0x4000000000000 {
        (0x10000000000, 'T', 'B')
    } else {
        (0x4000000000000, 'P', 'B')
    };
    let whole = b / div;
    let rest = b % div;
    proof {
        assert(((rest as int) * 100) / (div as int) < 100) by (nonlinear_arith)
            requires
                0 < (div as int),
                (rest as int) < (div as int),
                (rest as int) >= 0,
        ;
    }
    let f = round_div_even(rest * 100, div);
    let mut out = String::new();
    if f == 100 {
        // Only a real fraction can round up, so the unit divisor exceeds
        // one and the incremented figure still fits.
        assert(div > 1 && whole < u128::MAX);
        push_decimal(&mut out, whole + 1);
        push_char(&mut out, '.');
        push_char(&mut out, '0');
        push_char(&mut out, '0');
    } else {
        push_decimal(&mut out, whole);
        push_char(&mut out, '.');
        push_char(&mut out, ((48 + (f / 10) as u8)) as char);
        push_char(&mut out, ((48 + (f % 10) as u8)) as char);
    }
    push_char(&mut out, ' ');
    push_char(&mut out, unit0);
    if !(b < 1024) {
        push_char(&mut out, unit1);
    }
    proof {
        assert(out@ =~= human_bytes_spec(b as int));
    }
    out
}

/// The rendering of a byte total in gibibytes: no decimals from 100 GB,
/// one from 10 GB, two below, each rounded to nearest (ties to even).
pub open spec fn format_gb_spec(b: int) -> Seq<char> {
    let gb = b / 0x40000000;
    if gb >= 100 {
        dec_digits(round_half_even(b, 0x40000000)) + seq![' ', 'G', 'B']
    } else if gb >= 10 {
        let t = round_half_even(b * 10, 0x40000000);
        dec_digits(t / 10) + seq!['.'] + seq![digit_char(t % 10)] + seq![' ', 'G', 'B']
    } else {
        let t = round_half_even(b * 100, 0x40000000);
        dec_digits(t / 100) + seq!['.'] + seq![digit_char(t / 10 % 10), digit_char(t % 10)]
            + seq![' ', 'G', 'B']
    }
}

/// Renders a byte total in gibibytes with magnitude-dependent precision.
pub fn format_gb(bytes: u128) -> (r: String)
    ensures
        r@ == format_gb_spec(bytes as int),
{
    let gb = bytes / 0x40000000;
    let mut out = String::new();
    if gb >= 100 {
        let v = round_div_even(bytes, 0x40000000);
        push_decimal(&mut out, v);
    } else if gb >= 10 {
        let t = round_div_even(bytes * 10, 0x40000000);
        push_decimal(&mut out, t / 10);
        push_char(&mut out, '.');
        push_char(&mut out, (48 + (t % 10) as u8) as char);
    } else {
        let t = round_div_even(bytes * 100, 0x40000000);
        push_decimal(&mut out, t / 100);
        push_char(&mut out, '.');
        push_char(&mut out, (48 + (t / 10 % 10) as u8) as char);
        push_char(&mut out, (48 + (t % 10) as u8) as char);
    }
    push_char(&mut out, ' ');
    push_char(&mut out, 'G');
    push_char(&mut out, 'B');
    proof {
        assert(out@ =~= format_gb_spec(bytes as int));
    }
    out
}

} // verus!
