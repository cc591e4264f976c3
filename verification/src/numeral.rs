//! The ordinals that number the items of a list: decimal numbers, letters of
//! the alphabet, and roman numerals, the last by the `numerals` crate.

use vstd::prelude::*;
use numerals::roman::{Numeral, Roman};
use crate::chars::push_char;

verus! {

/// The roman numeral for `number`, in upper case letters.
pub uninterp spec fn roman_upper_text(number: i16) -> Seq<char>;

/// The roman numeral for `number`, in lower case letters.
pub uninterp spec fn roman_lower_text(number: i16) -> Seq<char>;

/// Whether `c` is one of the seven roman numeral letters, in either case.
pub open spec fn roman_char(c: char) -> bool {
    c == 'I' || c == 'i' || c == 'V' || c == 'v' || c == 'X' || c == 'x' || c == 'L' || c == 'l'
        || c == 'C' || c == 'c' || c == 'D' || c == 'd' || c == 'M' || c == 'm'
}

/// `Numeral::from_char` of the `numerals` crate, asked whether it finds a
/// numeral: it does for the seven letters I, V, X, L, C, D and M, in upper and
/// in lower case, and for no other character.
#[verifier::external_body]
pub(crate) fn is_roman_numeral(c: char) -> (b: bool)
    ensures
        b == roman_char(c),
{
    Numeral::from_char(c).is_some()
}

/// `Roman::from` an `i16` and the `UpperHex` format of the `numerals` crate:
/// the numeral for `number` in upper case. The conversion panics on a number
/// below 1, which `requires` keeps out; the text depends on the number alone,
/// and no more than that is claimed of it.
#[verifier::external_body]
pub(crate) fn roman_upper(number: i16) -> (text: String)
    requires
        number > 0,
    ensures
        text@ == roman_upper_text(number),
{
    format!("{:X}", Roman::from(number))
}

/// `Roman::from` an `i16` and the `LowerHex` format of the `numerals` crate:
/// the numeral for `number` in lower case. The conversion panics on a number
/// below 1, which `requires` keeps out; the text depends on the number alone,
/// and no more than that is claimed of it.
#[verifier::external_body]
pub(crate) fn roman_lower(number: i16) -> (text: String)
    requires
        number > 0,
    ensures
        text@ == roman_lower_text(number),
{
    format!("{:x}", Roman::from(number))
}

/// The roman numeral for `number`, in upper or in lower case.
pub open spec fn roman_text(number: i16, uppercase: bool) -> Seq<char> {
    if uppercase {
        roman_upper_text(number)
    } else {
        roman_lower_text(number)
    }
}

/// The roman numeral for `number`, in upper or in lower case.
pub fn roman(number: i16, uppercase: bool) -> (text: String)
    requires
        number > 0,
    ensures
        text@ == roman_text(number, uppercase),
{
    if uppercase {
        roman_upper(number)
    } else {
        roman_lower(number)
    }
}

/// The decimal digit for `d`, which is below 10.
pub open spec fn digit_char(d: nat) -> char {
    (('0' as nat) + d) as char
}

/// The decimal numeral for `n`, without leading zeros.
pub open spec fn decimal(n: nat) -> Seq<char>
    decreases n,
{
    if n < 10 {
        seq![digit_char(n)]
    } else {
        decimal(n / 10).push(digit_char(n % 10))
    }
}

/// Appends the decimal numeral for `n` to `buf`.
pub fn push_decimal(buf: &mut String, n: usize)
    ensures
        final(buf)@ == old(buf)@ + decimal(n as nat),
    decreases n,
{
    if n >= 10 {
        push_decimal(buf, n / 10);
    }
    let d: u8 = (n % 10) as u8;
    let c: char = (48u8 + d) as char;
    push_char(buf, c);
    proof {
        assert(c == digit_char((n % 10) as nat));
        if n >= 10 {
            assert(old(buf)@ + decimal((n / 10) as nat).push(c) =~= (old(buf)@ + decimal(
                (n / 10) as nat,
            )).push(c));
        } else {
            assert(old(buf)@ + seq![c] =~= old(buf)@.push(c));
        }
    }
}

/// The number of letters in the alphabet.
pub const ALPHABET_SIZE: usize = 26;

/// The greatest number that has a roman numeral here.
pub const ROMAN_LIMIT: usize = 32767;

/// The letter of the alphabet at position `index`, counted from 1, in upper
/// or in lower case.
pub open spec fn letter(index: nat, uppercase: bool) -> char {
    if uppercase {
        (('A' as nat) + index - 1) as char
    } else {
        (('a' as nat) + index - 1) as char
    }
}

/// The letter of the alphabet at position `index`, counted from 1.
pub fn letter_at(index: usize, uppercase: bool) -> (c: char)
    requires
        1 <= index <= ALPHABET_SIZE,
    ensures
        c == letter(index as nat, uppercase),
{
    let offset: u8 = (index - 1) as u8;
    if uppercase {
        (65u8 + offset) as char
    } else {
        (97u8 + offset) as char
    }
}

} // verus!
