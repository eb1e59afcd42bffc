//! The text form of a pixel: `x y r g b`, in decimal, separated by single
//! spaces. The alpha channel is not part of it.

use vstd::prelude::*;
use crate::Pixel;

verus! {

/// `String::push` appends one character to the end of the string.
pub assume_specification[ String::push ](s: &mut String, ch: char)
    ensures
        final(s)@ == old(s)@.push(ch),
;

/// The character of a decimal digit.
pub open spec fn digit_char(d: int) -> char {
    if d == 0 {
        '0'
    } else if d == 1 {
        '1'
    } else if d == 2 {
        '2'
    } else if d == 3 {
        '3'
    } else if d == 4 {
        '4'
    } else if d == 5 {
        '5'
    } else if d == 6 {
        '6'
    } else if d == 7 {
        '7'
    } else if d == 8 {
        '8'
    } else {
        '9'
    }
}

/// The decimal digits of `n`, most significant first, without leading zeros.
pub open spec fn digits(n: nat) -> Seq<char>
    decreases n,
{
    if n < 10 {
        seq![digit_char(n as int)]
    } else {
        digits(n / 10).push(digit_char((n % 10) as int))
    }
}

/// The decimal form of `i`, with a minus sign where it is negative.
pub open spec fn decimal(i: int) -> Seq<char> {
    if i < 0 {
        seq!['-'] + digits((-i) as nat)
    } else {
        digits(i as nat)
    }
}

/// The text form of `p`.
pub open spec fn pixel_text(p: Pixel) -> Seq<char> {
    decimal(p.x as int) + seq![' '] + decimal(p.y as int) + seq![' '] + decimal(p.color.0 as int)
        + seq![' '] + decimal(p.color.1 as int) + seq![' '] + decimal(p.color.2 as int)
}

fn digit(d: u8) -> (c: char)
    requires
        d < 10,
    ensures
        c == digit_char(d as int),
{
    if d == 0 {
        '0'
    } else if d == 1 {
        '1'
    } else if d == 2 {
        '2'
    } else if d == 3 {
        '3'
    } else if d == 4 {
        '4'
    } else if d == 5 {
        '5'
    } else if d == 6 {
        '6'
    } else if d == 7 {
        '7'
    } else if d == 8 {
        '8'
    } else {
        '9'
    }
}

fn push_digits(out: &mut String, n: u128)
    ensures
        final(out)@ == old(out)@ + digits(n as nat),
    decreases n,
{
    if n >= 10 {
        push_digits(out, n / 10);
    }
    out.push(digit((n % 10) as u8));
}

/// Appends the decimal form of `value` to `out`.
pub fn push_decimal(out: &mut String, value: isize)
    ensures
        final(out)@ == old(out)@ + decimal(value as int),
{
    if value < 0 {
        out.push('-');
        push_digits(out, (-(value as i128)) as u128);
    } else {
        push_digits(out, value as u128);
    }
}

impl Pixel {
    /// Writes the pixel as `x y r g b`.
    pub fn to_string(&self) -> (text: String)
        ensures
            text@ == pixel_text(*self),
    {
        let mut text = String::new();
        push_decimal(&mut text, self.x);
        text.push(' ');
        push_decimal(&mut text, self.y);
        text.push(' ');
        push_digits(&mut text, self.color.0 as u128);
        text.push(' ');
        push_digits(&mut text, self.color.1 as u128);
        text.push(' ');
        push_digits(&mut text, self.color.2 as u128);
        text
    }
}

} // verus!
