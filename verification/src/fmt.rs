//! Verified decimal rendering for the report: unsigned and signed integers,
//! two- and four-digit zero-padded fractions, and rounded percentages, all
//! specified as character sequences and built by appending to a `String`.

use vstd::prelude::*;
use vstd::string::StringExecFns;

verus! {

/// The character for the decimal digit `d`.
pub open spec fn digit_char(d: int) -> char {
    if d == 0 {
        '0'
    } else if d == 1 {
        '1'
    } else if d == 2 {
        '2'
    } else if d == 3 {
        '3'
    } else if d == 4 {
        '4'
    } else if d == 5 {
        '5'
    } else if d == 6 {
        '6'
    } else if d == 7 {
        '7'
    } else if d == 8 {
        '8'
    } else {
        '9'
    }
}

/// The decimal representation of `n >= 0`, most significant digit first,
/// without leading zeroes (a single zero for `n == 0`).
pub open spec fn dec_rep(n: int) -> Seq<char>
    decreases n,
{
    if n < 10 {
        seq![digit_char(n)]
    } else {
        dec_rep(n / 10).push(digit_char(n % 10))
    }
}

/// The decimal representation of a signed value: a minus sign before the
/// magnitude for negative values.
pub open spec fn dec_rep_signed(x: int) -> Seq<char> {
    if x < 0 {
        seq!['-'] + dec_rep(-x)
    } else {
        dec_rep(x)
    }
}

/// Exactly two digits, zero padded: `f` in `[0, 100)`.
pub open spec fn two_digits(f: int) -> Seq<char> {
    seq![digit_char(f / 10), digit_char(f % 10)]
}

/// Exactly four digits, zero padded: `f` in `[0, 10_000)`.
pub open spec fn four_digits(f: int) -> Seq<char> {
    seq![digit_char(f / 1000), digit_char(f / 100 % 10), digit_char(f / 10 % 10), digit_char(
        f % 10,
    )]
}

/// The one-character string for the decimal digit `d`.
fn digit_str(d: u64) -> (r: &'static str)
    requires
        d < 10,
    ensures
        r@ == seq![digit_char(d as int)],
{
    let r: &'static str = if d == 0 {
        "0"
    } else if d == 1 {
        "1"
    } else if d == 2 {
        "2"
    } else if d == 3 {
        "3"
    } else if d == 4 {
        "4"
    } else if d == 5 {
        "5"
    } else if d == 6 {
        "6"
    } else if d == 7 {
        "7"
    } else if d == 8 {
        "8"
    } else {
        "9"
    };
    proof {
        reveal_strlit("0");
        reveal_strlit("1");
        reveal_strlit("2");
        reveal_strlit("3");
        reveal_strlit("4");
        reveal_strlit("5");
        reveal_strlit("6");
        reveal_strlit("7");
        reveal_strlit("8");
        reveal_strlit("9");
        assert(r@ =~= seq![digit_char(d as int)]);
    }
    r
}

/// Appends the decimal representation of `n` to `out`.
pub fn push_u128(out: &mut String, n: u128)
    ensures
        final(out)@ == old(out)@ + dec_rep(n as int),
    decreases n,
{
    if n < 10 {
        out.append(digit_str(n as u64));
        proof {
            assert(final(out)@ =~= old(out)@ + dec_rep(n as int));
        }
    } else {
        push_u128(out, n / 10);
        out.append(digit_str((n % 10) as u64));
        proof {
            assert(final(out)@ =~= old(out)@ + dec_rep(n as int));
        }
    }
}

/// Appends the decimal representation of `n` to `out`.
pub fn push_u64(out: &mut String, n: u64)
    ensures
        final(out)@ == old(out)@ + dec_rep(n as int),
{
    push_u128(out, n as u128)
}

/// Appends the decimal representation of `n` to `out`.
pub fn push_usize(out: &mut String, n: usize)
    ensures
        final(out)@ == old(out)@ + dec_rep(n as int),
{
    push_u128(out, n as u128)
}

/// The decimal representation of `n` as a fresh string.
pub fn u64_to_string(n: u64) -> (r: String)
    ensures
        r@ == dec_rep(n as int),
{
    let mut s = String::new();
    push_u64(&mut s, n);
    proof {
        assert(s@ =~= dec_rep(n as int));
    }
    s
}

/// Appends the signed decimal representation of `x` to `out`.
pub fn push_i64(out: &mut String, x: i64)
    ensures
        final(out)@ == old(out)@ + dec_rep_signed(x as int),
{
    if x < 0 {
        out.append("-");
        let mag: u64 = (-(x as i128)) as u64;
        push_u64(out, mag);
        proof {
            reveal_strlit("-");
            assert("-"@ =~= seq!['-']);
            assert(final(out)@ =~= old(out)@ + dec_rep_signed(x as int));
        }
    } else {
        push_u64(out, x as u64);
    }
}

/// Appends `v` hundredths as a decimal with exactly two fraction digits
/// (`v == 1234` renders as `12.34`).
pub fn push_fixed2(out: &mut String, v: u128)
    ensures
        final(out)@ == old(out)@ + (dec_rep(v as int / 100) + seq!['.'] + two_digits(
            v as int % 100,
        )),
{
    push_u128(out, v / 100);
    out.append(".");
    let f: u64 = (v % 100) as u64;
    out.append(digit_str(f / 10));
    out.append(digit_str(f % 10));
    proof {
        reveal_strlit(".");
        assert("."@ =~= seq!['.']);
        assert(final(out)@ =~= old(out)@ + (dec_rep(v as int / 100) + seq!['.'] + two_digits(
            v as int % 100,
        )));
    }
}

/// Appends `v` ten-thousandths as a decimal with exactly four fraction
/// digits (`v == 12345` renders as `1.2345`).
pub fn push_fixed4(out: &mut String, v: u128)
    ensures
        final(out)@ == old(out)@ + (dec_rep(v as int / 10_000) + seq!['.'] + four_digits(
            v as int % 10_000,
        )),
{
    push_u128(out, v / 10_000);
    out.append(".");
    let f: u64 = (v % 10_000) as u64;
    out.append(digit_str(f / 1000));
    out.append(digit_str(f / 100 % 10));
    out.append(digit_str(f / 10 % 10));
    out.append(digit_str(f % 10));
    proof {
        reveal_strlit(".");
        assert("."@ =~= seq!['.']);
        assert(final(out)@ =~= old(out)@ + (dec_rep(v as int / 10_000) + seq!['.'] + four_digits(
            v as int % 10_000,
        )));
    }
}

/// The share of `part` in `total`, in hundredths of a percent, rounded to
/// the nearest hundredth (half away from zero).
pub open spec fn percent_hundredths(part: int, total: int) -> int
    recommends
        total >= 1,
{
    if part >= 0 {
        (part * 10_000 + total / 2) / total
    } else {
        -(((-part) * 10_000 + total / 2) / total)
    }
}

/// The percentage of `part` against `total` rendered with two fraction
/// digits, with a minus sign for a negative share.
pub open spec fn percent_chars(part: int, total: int) -> Seq<char>
    recommends
        total >= 1,
{
    let h = percent_hundredths(part, total);
    if h < 0 {
        seq!['-'] + (dec_rep((-h) / 100) + seq!['.'] + two_digits((-h) % 100))
    } else {
        dec_rep(h / 100) + seq!['.'] + two_digits(h % 100)
    }
}

/// Appends the rounded percentage of `part` against `total` to `out`.
pub fn push_percent(out: &mut String, part: i128, total: u64)
    requires
        total >= 1,
        -0x8000_0000_0000_0000 <= part <= 0xffff_ffff_ffff_ffff,
    ensures
        final(out)@ == old(out)@ + percent_chars(part as int, total as int),
{
    if part >= 0 {
        let num: u128 = (part as u128) * 10_000 + (total / 2) as u128;
        let h: u128 = num / total as u128;
        push_fixed2(out, h);
        proof {
            assert(h as int == percent_hundredths(part as int, total as int));
        }
    } else {
        let num: u128 = ((-part) as u128) * 10_000 + (total / 2) as u128;
        let h: u128 = num / total as u128;
        if h == 0 {
            push_fixed2(out, 0);
            proof {
                assert(percent_hundredths(part as int, total as int) == 0);
                assert(final(out)@ =~= old(out)@ + percent_chars(part as int, total as int));
            }
        } else {
            out.append("-");
            push_fixed2(out, h);
            proof {
                reveal_strlit("-");
                assert("-"@ =~= seq!['-']);
                assert(h as int == -percent_hundredths(part as int, total as int));
                assert(final(out)@ =~= old(out)@ + percent_chars(part as int, total as int));
            }
        }
    }
}

} // verus!
