//! Text of probabilities as percentages with two decimal places.
use vstd::prelude::*;
use vstd::string::*;
use crate::bayes::Posterior;
use crate::percent::Probability;

verus! {

/// Units of a probability that make up one hundredth of a percent (10^14).
pub const PER_HUNDREDTH: u64 = 100000000000000;

/// `num / den` rounded to a whole number, a half going to the even side.
pub open spec fn round_half_even(num: nat, den: nat) -> nat
    recommends
        den > 0,
{
    let q = num / den;
    let r = num % den;
    if 2 * r > den || (2 * r == den && q % 2 == 1) {
        q + 1
    } else {
        q
    }
}

pub open spec fn digit_char(d: nat) -> char {
    if d == 0 {
        '0'
    } else if d == 1 {
        '1'
    } else if d == 2 {
        '2'
    } else if d == 3 {
        '3'
    } else if d == 4 {
        '4'
    } else if d == 5 {
        '5'
    } else if d == 6 {
        '6'
    } else if d == 7 {
        '7'
    } else if d == 8 {
        '8'
    } else {
        '9'
    }
}

/// The decimal digits of `n`, without leading zeros.
pub open spec fn decimal_text(n: nat) -> Seq<char>
    decreases n,
{
    if n < 10 {
        seq![digit_char(n)]
    } else {
        decimal_text(n / 10).push(digit_char(n % 10))
    }
}

/// `h` hundredths written with two decimal places (`1234` is `12.34`).
pub open spec fn two_places_text(h: nat) -> Seq<char> {
    decimal_text(h / 100) + seq!['.', digit_char((h / 10) % 10), digit_char(h % 10)]
}

/// A probability in hundredths of a percent, rounded.
pub open spec fn probability_hundredths(p: Probability) -> nat {
    round_half_even(p.units as nat, PER_HUNDREDTH as nat)
}

/// A posterior in hundredths of a percent, rounded.
pub open spec fn posterior_hundredths(num: nat, den: nat) -> nat {
    round_half_even(num, den * (PER_HUNDREDTH as nat))
}

/// The text of a posterior that is no number.
pub open spec fn not_a_number_text() -> Seq<char> {
    seq!['N', 'a', 'N']
}

fn digit_str(d: u128) -> (r: &'static str)
    requires
        d < 10,
    ensures
        r@ == seq![digit_char(d as nat)],
{
    proof {
        reveal_strlit("0");
        reveal_strlit("1");
        reveal_strlit("2");
        reveal_strlit("3");
        reveal_strlit("4");
        reveal_strlit("5");
        reveal_strlit("6");
        reveal_strlit("7");
        reveal_strlit("8");
        reveal_strlit("9");
    }
    if d == 0 {
        "0"
    } else if d == 1 {
        "1"
    } else if d == 2 {
        "2"
    } else if d == 3 {
        "3"
    } else if d == 4 {
        "4"
    } else if d == 5 {
        "5"
    } else if d == 6 {
        "6"
    } else if d == 7 {
        "7"
    } else if d == 8 {
        "8"
    } else {
        assert(seq!['9'] =~= "9"@);
        "9"
    }
}

fn push_decimal(out: &mut String, n: u128)
    ensures
        final(out)@ == old(out)@ + decimal_text(n as nat),
    decreases n,
{
    if n >= 10 {
        push_decimal(out, n / 10);
        out.append(digit_str(n % 10));
        assert(decimal_text(n as nat) == decimal_text((n / 10) as nat).push(digit_char((n % 10) as nat)));
    } else {
        out.append(digit_str(n));
    }
}

/// `h` hundredths written with two decimal places.
pub fn format_hundredths(h: u128) -> (r: String)
    ensures
        r@ == two_places_text(h as nat),
{
    let mut out = String::new();
    push_decimal(&mut out, h / 100);
    proof {
        reveal_strlit(".");
    }
    out.append(".");
    out.append(digit_str((h / 10) % 10));
    out.append(digit_str(h % 10));
    assert(out@ =~= two_places_text(h as nat));
    out
}

/// `num / den` rounded to a whole number, a half going to the even side.
pub fn round_ratio(num: u128, den: u128) -> (r: u128)
    requires
        den > 0,
    ensures
        r == round_half_even(num as nat, den as nat),
{
    let q = num / den;
    let rem = num % den;
    if rem > den - rem || (rem == den - rem && q % 2 == 1) {
        assert(den >= 2 ==> q <= num / 2) by (nonlinear_arith)
            requires
                q == num / den,
                den > 0,
        ;
        q + 1
    } else {
        q
    }
}

/// A probability as a percentage with two decimal places (`0.255` is
/// `25.50`).
pub fn format_probability(p: Probability) -> (r: String)
    ensures
        r@ == two_places_text(probability_hundredths(p)),
{
    format_hundredths(round_ratio(p.units as u128, PER_HUNDREDTH as u128))
}

/// A posterior as a percentage with two decimal places, or `NaN` where it is
/// no number.
pub fn format_posterior(x: Posterior) -> (r: String)
    ensures
        x is Undefined ==> r@ == not_a_number_text(),
        x matches Posterior::Defined { num, den } ==> r@ == (if den == 0 {
            not_a_number_text()
        } else {
            two_places_text(posterior_hundredths(num as nat, den as nat))
        }),
{
    match x {
        Posterior::Undefined => {
            proof {
                reveal_strlit("NaN");
            }
            assert(not_a_number_text() =~= "NaN"@);
            String::from_str("NaN")
        },
        Posterior::Defined { num, den } => {
            if den == 0 {
                proof {
                    reveal_strlit("NaN");
                }
                assert(not_a_number_text() =~= "NaN"@);
                String::from_str("NaN")
            } else {
                assert(den * PER_HUNDREDTH <= 0xffffffffffffffffu64 as nat * PER_HUNDREDTH)
                    by (nonlinear_arith)
                    requires
                        den <= 0xffffffffffffffffu64,
                ;
                format_hundredths(round_ratio(num, den as u128 * PER_HUNDREDTH as u128))
            }
        },
    }
}

} // verus!
