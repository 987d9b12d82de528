//! Number rendering for the report tables.
//!
//! Amounts are fixed-point (scale 10^-4); they render with two decimals,
//! thousands separators, and an explicit sign on changes, exactly as the
//! spec functions here state character by character.

use vstd::prelude::*;

use crate::calendar::{digit_char, digit_str};

verus! {

/// Largest magnitude the renderers accept; comfortably above every total
/// and percentage the engine can produce.
pub const RENDER_CAP: i128 = 1_000_000_000_000_000_000_000_000_000_000;

/// The decimal digits of `n`, most significant first. Negative values are
/// not used.
pub open spec fn decimal(n: int) -> Seq<char>
    decreases n,
{
    if n < 10 {
        seq![digit_char(n)]
    } else {
        decimal(n / 10).push(digit_char(n % 10))
    }
}

/// Digits grouped with a comma before every block of three from the right.
pub open spec fn with_commas(ds: Seq<char>) -> Seq<char>
    decreases ds.len(),
{
    if ds.len() <= 3 {
        ds
    } else {
        with_commas(ds.take(ds.len() - 3)) + seq![','] + ds.skip(ds.len() - 3)
    }
}

/// A scaled amount rounded to cents and rendered as
/// `[-]i,nnn.cc`.
pub open spec fn currency_text(v: int) -> Seq<char> {
    let a = if v < 0 {
        -v
    } else {
        v
    };
    let cents = (a + 50) / 100;
    let sign: Seq<char> = if v < 0 {
        seq!['-']
    } else {
        Seq::empty()
    };
    sign + with_commas(decimal(cents / 100)) + seq!['.'] + seq![
        digit_char(cents / 10 % 10),
        digit_char(cents % 10),
    ]
}

/// A change: the currency text with a leading `+` for non-negative values.
pub open spec fn change_text(v: int) -> Seq<char> {
    if v >= 0 {
        seq!['+'] + currency_text(v)
    } else {
        currency_text(v)
    }
}

/// A scaled percentage rendered as `[+|-]i.cc%`, two decimals, no commas.
pub open spec fn pct_text(p: int) -> Seq<char> {
    let a = if p < 0 {
        -p
    } else {
        p
    };
    let cents = (a + 50) / 100;
    let sign: Seq<char> = if p < 0 {
        seq!['-']
    } else {
        seq!['+']
    };
    sign + decimal(cents / 100) + seq!['.'] + seq![
        digit_char(cents / 10 % 10),
        digit_char(cents % 10),
    ] + seq!['%']
}

/// The decimal digits of `n` as a string.
fn u128_decimal(n: u128) -> (r: String)
    ensures
        r@ == decimal(n as int),
    decreases n,
{
    if n < 10 {
        digit_str(n as u32).to_owned()
    } else {
        let mut r = u128_decimal(n / 10);
        r.append(digit_str((n % 10) as u32));
        proof {
            assert(r@ =~= decimal(n as int));
        }
        r
    }
}

/// Group a digit string with commas.
fn group_digits(s: &str) -> (r: String)
    ensures
        r@ == with_commas(s@),
    decreases s@.len(),
{
    proof {
        reveal_strlit(",");
    }
    let n = s.unicode_len();
    if n <= 3 {
        s.to_owned()
    } else {
        let head = s.substring_char(0, n - 3);
        let tail = s.substring_char(n - 3, n);
        proof {
            assert(head@ =~= s@.take(s@.len() - 3));
            assert(tail@ =~= s@.skip(s@.len() - 3));
        }
        let mut r = group_digits(head);
        r.append(",");
        r.append(tail);
        proof {
            assert(","@ =~= seq![',']);
            assert(r@ =~= with_commas(s@));
        }
        r
    }
}

/// An unsigned number with thousands separators.
pub fn fmt_with_commas(n: u64) -> (r: String)
    ensures
        r@ == with_commas(decimal(n as int)),
{
    let digits = u128_decimal(n as u128);
    group_digits(digits.as_str())
}

/// Magnitude and cent-rounding shared by the renderers: whole part and the
/// two cent digits of `|v|` rounded half-up to cents.
fn split_cents(v: i128) -> (r: (bool, u128, u128))
    requires
        -RENDER_CAP <= v <= RENDER_CAP,
    ensures
        r.0 == (v < 0),
        r.1 == ((if v < 0 {
            -v
        } else {
            v as int
        }) + 50) / 100 / 100,
        r.2 == ((if v < 0 {
            -v
        } else {
            v as int
        }) + 50) / 100 % 100,
{
    let a: u128 = if v < 0 {
        (-v) as u128
    } else {
        v as u128
    };
    let cents = (a + 50) / 100;
    (v < 0, cents / 100, cents % 100)
}

/// A scaled amount as `[-]i,nnn.cc`, rounded half-up to cents.
pub fn fmt_currency(value: i128) -> (r: String)
    requires
        -RENDER_CAP <= value <= RENDER_CAP,
    ensures
        r@ == currency_text(value as int),
{
    proof {
        reveal_strlit("-");
        reveal_strlit(".");
    }
    let (neg, whole, frac) = split_cents(value);
    let mut r = if neg {
        let mut s = String::new();
        s.append("-");
        s
    } else {
        String::new()
    };
    let digits = u128_decimal(whole);
    let grouped = group_digits(digits.as_str());
    r.append(grouped.as_str());
    r.append(".");
    r.append(digit_str((frac / 10) as u32));
    r.append(digit_str((frac % 10) as u32));
    proof {
        assert("-"@ =~= seq!['-']);
        assert("."@ =~= seq!['.']);
        assert(r@ =~= currency_text(value as int));
    }
    r
}

/// A change as `+i,nnn.cc` or `-i,nnn.cc`.
pub fn fmt_change(value: i128) -> (r: String)
    requires
        -RENDER_CAP <= value <= RENDER_CAP,
    ensures
        r@ == change_text(value as int),
{
    proof {
        reveal_strlit("+");
    }
    if value >= 0 {
        let mut r = String::new();
        r.append("+");
        let c = fmt_currency(value);
        r.append(c.as_str());
        proof {
            assert("+"@ =~= seq!['+']);
            assert(r@ =~= change_text(value as int));
        }
        r
    } else {
        fmt_currency(value)
    }
}

/// A scaled percentage as `[+|-]i.cc%`.
#[verifier::rlimit(40)]
pub fn fmt_pct(value: i128) -> (r: String)
    requires
        -RENDER_CAP <= value <= RENDER_CAP,
    ensures
        r@ == pct_text(value as int),
{
    proof {
        reveal_strlit("+");
        reveal_strlit("-");
        reveal_strlit(".");
        reveal_strlit("%");
    }
    let (neg, whole, frac) = split_cents(value);
    let mut r = String::new();
    if neg {
        r.append("-");
    } else {
        r.append("+");
    }
    let digits = u128_decimal(whole);
    r.append(digits.as_str());
    r.append(".");
    r.append(digit_str((frac / 10) as u32));
    r.append(digit_str((frac % 10) as u32));
    r.append("%");
    proof {
        assert("+"@ =~= seq!['+']);
        assert("-"@ =~= seq!['-']);
        assert("."@ =~= seq!['.']);
        assert("%"@ =~= seq!['%']);
        assert(r@ =~= pct_text(value as int));
    }
    r
}

} // verus!
