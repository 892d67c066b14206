//! What decimal numbers look like.

use vstd::prelude::*;

use crate::number::{all_digits, decimal, law_parse_decimal, parse_uint, value};
use crate::text::is_digit;

verus! {

/// Numbers are written in base ten: the last digit is the remainder by ten, what precedes
/// it is the number without it, and no number but zero starts with a zero.
pub proof fn law_decimal(n: nat)
    ensures
        decimal(n).len() > 0,
        decimal(n).last() as int == 48 + n % 10,
        n < 10 ==> decimal(n).len() == 1,
        n >= 10 ==> decimal(n).drop_last() == decimal(n / 10),
        n > 0 ==> decimal(n)[0] != '0',
        forall|i: int|
            0 <= i < decimal(n).len() ==> 48 <= (#[trigger] decimal(n)[i]) as int <= 57,
    decreases n,
{
    if n >= 10 {
        law_decimal(n / 10);
        assert(decimal(n).drop_last() =~= decimal(n / 10));
    }
}

/// Only digits are read, with or without a plus in front: a text gives a number if and only
/// if it is some digits that do not exceed the greatest number allowed.
pub proof fn law_parse_reads_digits(s: Seq<char>, max: nat)
    ensures
        parse_uint(s, max) is Some ==> {
            let d = if s.len() > 0 && s[0] == '+' {
                s.skip(1)
            } else {
                s
            };
            &&& d.len() > 0
            &&& forall|i: int| 0 <= i < d.len() ==> 48 <= (#[trigger] d[i]) as int <= 57
            &&& parse_uint(s, max)->0 <= max
        },
{
}

/// Different numbers are written differently.
pub proof fn law_decimal_distinct(a: nat, b: nat)
    requires
        decimal(a) == decimal(b),
    ensures
        a == b,
{
    let max = if a < b {
        b
    } else {
        a
    };
    law_parse_decimal(a, max);
    law_parse_decimal(b, max);
}

/// The number that some digits are: each digit counts ten times the one behind it.
pub open spec fn numeral(digits: Seq<char>) -> nat
    decreases digits.len(),
{
    if digits.len() == 0 {
        0
    } else {
        10 * numeral(digits.drop_last()) + (digits.last() as int - 48) as nat
    }
}

/// Digits are read as the number that they are, leading zeros and a plus in front allowed,
/// if and only if that is not too great.
pub proof fn law_digits_are_read(digits: Seq<char>, max: nat)
    requires
        digits.len() > 0,
        forall|i: int| 0 <= i < digits.len() ==> 48 <= (#[trigger] digits[i]) as int <= 57,
    ensures
        parse_uint(digits, max) == if numeral(digits) <= max {
            Some(numeral(digits))
        } else {
            None
        },
        parse_uint(seq!['+'] + digits, max) == parse_uint(digits, max),
{
    lemma_numeral(digits);
    let signed = seq!['+'] + digits;
    assert(signed.skip(1) =~= digits);
    assert(digits[0] != '+');
    assert(all_digits(digits)) by {
        assert forall|i: int| 0 <= i < digits.len() implies is_digit(#[trigger] digits[i]) by {
            assert(48 <= digits[i] as int <= 57);
        }
    }
}

proof fn lemma_numeral(digits: Seq<char>)
    ensures
        numeral(digits) == value(digits),
    decreases digits.len(),
{
    if digits.len() > 0 {
        lemma_numeral(digits.drop_last());
    }
}

} // verus!
