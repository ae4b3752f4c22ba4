//! Integers written out in decimal.

use vstd::prelude::*;

verus! {

/// `String::push` appends the given character to the end of the string.
pub assume_specification[ String::push ](s: &mut String, ch: char)
    ensures
        final(s)@ == old(s)@.push(ch),
;

/// The character that stands for the digit `d`.
pub open spec fn digit_char(d: int) -> char {
    seq!['0', '1', '2', '3', '4', '5', '6', '7', '8', '9'][d]
}

/// The decimal digits of `n`, most significant first, without leading
/// zeros.
pub open spec fn natural_text(n: nat) -> Seq<char>
    decreases n,
{
    if n < 10 {
        seq![digit_char(n as int)]
    } else {
        natural_text(n / 10).push(digit_char((n % 10) as int))
    }
}

/// `v` in decimal, with a leading `-` where it is negative.
pub open spec fn integer_text(v: int) -> Seq<char> {
    if v < 0 {
        seq!['-'] + natural_text((-v) as nat)
    } else {
        natural_text(v as nat)
    }
}

/// The character of a digit.
pub fn digit_to_char(d: u64) -> (c: char)
    requires
        d < 10,
    ensures
        c == digit_char(d as int),
{
    if d == 0 {
        '0'
    } else if d == 1 {
        '1'
    } else if d == 2 {
        '2'
    } else if d == 3 {
        '3'
    } else if d == 4 {
        '4'
    } else if d == 5 {
        '5'
    } else if d == 6 {
        '6'
    } else if d == 7 {
        '7'
    } else if d == 8 {
        '8'
    } else {
        '9'
    }
}

/// Appends `n` in decimal to `text`.
pub fn push_natural(text: &mut String, n: u64)
    ensures
        final(text)@ == old(text)@ + natural_text(n as nat),
{
    let ghost full = natural_text(n as nat);
    let mut digits: Vec<char> = Vec::new();
    digits.push(digit_to_char(n % 10));
    let mut rest: u64 = n / 10;
    let ghost mut written: Seq<char> = seq![digit_char((n % 10) as int)];
    assert(rest == 0 ==> full =~= written);
    assert(rest > 0 ==> full =~= natural_text(rest as nat) + written);
    while rest > 0
        invariant
            digits@.len() == written.len(),
            forall|i: int| 0 <= i < digits@.len() ==> digits@[i] == written[written.len() - 1 - i],
            rest == 0 ==> full == written,
            rest > 0 ==> full == natural_text(rest as nat) + written,
        decreases rest,
    {
        let ghost digit = digit_char((rest % 10) as int);
        proof {
            if rest >= 10 {
                assert(natural_text(rest as nat) + written =~= natural_text((rest / 10) as nat) + (
                seq![digit] + written));
            } else {
                assert(natural_text(rest as nat) + written =~= seq![digit] + written);
            }
            written = seq![digit] + written;
        }
        digits.push(digit_to_char(rest % 10));
        rest = rest / 10;
    }
    let ghost before = text@;
    let mut left: usize = digits.len();
    while left > 0
        invariant
            left <= digits@.len(),
            digits@.len() == written.len(),
            forall|i: int| 0 <= i < digits@.len() ==> digits@[i] == written[written.len() - 1 - i],
            text@ == before + written.subrange(0, digits@.len() - left),
        decreases left,
    {
        left = left - 1;
        text.push(digits[left]);
        assert(text@ =~= before + written.subrange(0, digits@.len() - left));
    }
    assert(written.subrange(0, written.len() as int) =~= written);
}

/// `v` written out in decimal.
pub fn integer_to_text(v: i64) -> (text: String)
    ensures
        text@ == integer_text(v as int),
{
    let mut text = String::new();
    if v < 0 {
        text.push('-');
        let magnitude: u64 = (-(v + 1)) as u64 + 1;
        push_natural(&mut text, magnitude);
    } else {
        push_natural(&mut text, v as u64);
        assert(Seq::<char>::empty() + natural_text(v as nat) =~= natural_text(v as nat));
    }
    text
}

} // verus!
