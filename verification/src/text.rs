use vstd::prelude::*;
use vstd::string::StringExecFns;

verus! {

/// Appends one character to `s` (`String::push`).
///
/// Trusted: std documents that `push` appends the character at the end.
#[verifier::external_body]
pub(crate) fn push_char(s: &mut String, c: char)
    ensures
        final(s)@ == old(s)@.push(c),
{
    s.push(c);
}

/// A new string holding the characters of `t`.
pub fn text(t: &str) -> (r: String)
    ensures
        r@ == t@,
{
    let mut s = String::new();
    s.append(t);
    assert(s@ =~= t@);
    s
}

/// The lower-case hexadecimal digit for `d` (taken modulo 16).
pub open spec fn hex_char(d: u8) -> char {
    let d = d % 16;
    if d == 0 { '0' } else if d == 1 { '1' } else if d == 2 { '2' } else if d == 3 { '3' }
    else if d == 4 { '4' } else if d == 5 { '5' } else if d == 6 { '6' } else if d == 7 { '7' }
    else if d == 8 { '8' } else if d == 9 { '9' } else if d == 10 { 'a' } else if d == 11 { 'b' }
    else if d == 12 { 'c' } else if d == 13 { 'd' } else if d == 14 { 'e' } else { 'f' }
}

/// The two lower-case hexadecimal digits of a byte.
pub open spec fn hex2(b: u8) -> Seq<char> {
    seq![hex_char(b / 16), hex_char(b % 16)]
}

fn hex_digit(d: u8) -> (c: char)
    ensures
        c == hex_char(d),
{
    let d = d % 16;
    if d == 0 { '0' } else if d == 1 { '1' } else if d == 2 { '2' } else if d == 3 { '3' }
    else if d == 4 { '4' } else if d == 5 { '5' } else if d == 6 { '6' } else if d == 7 { '7' }
    else if d == 8 { '8' } else if d == 9 { '9' } else if d == 10 { 'a' } else if d == 11 { 'b' }
    else if d == 12 { 'c' } else if d == 13 { 'd' } else if d == 14 { 'e' } else { 'f' }
}

/// Appends the two lower-case hexadecimal digits of `b` to `s`.
pub fn push_hex2(s: &mut String, b: u8)
    ensures
        final(s)@ == old(s)@ + hex2(b),
{
    push_char(s, hex_digit(b / 16));
    push_char(s, hex_digit(b % 16));
    assert(s@ =~= old(s)@ + hex2(b));
}

/// The decimal digits of `v`, most significant first.
pub open spec fn decimal(v: u64) -> Seq<char>
    decreases v,
{
    if v < 10 {
        seq![hex_char(v as u8)]
    } else {
        decimal(v / 10) + seq![hex_char((v % 10) as u8)]
    }
}

/// Appends the decimal digits of `v` to `s`.
pub fn push_decimal(s: &mut String, v: u64)
    ensures
        final(s)@ == old(s)@ + decimal(v),
    decreases v,
{
    if v < 10 {
        push_char(s, hex_digit(v as u8));
    } else {
        push_decimal(s, v / 10);
        push_char(s, hex_digit((v % 10) as u8));
    }
    assert(s@ =~= old(s)@ + decimal(v));
}


/// The eight lower-case hexadecimal digits of `v`, most significant first.
pub open spec fn hex8(v: u32) -> Seq<char> {
    hex2((v >> 24u32) as u8) + hex2(((v >> 16u32) & 0xff) as u8) + hex2(((v >> 8u32) & 0xff) as u8)
        + hex2((v & 0xff) as u8)
}

/// Appends the eight lower-case hexadecimal digits of `v` to `s`.
pub fn push_hex8(s: &mut String, v: u32)
    ensures
        final(s)@ == old(s)@ + hex8(v),
{
    push_hex2(s, (v >> 24u32) as u8);
    push_hex2(s, ((v >> 16u32) & 0xff) as u8);
    push_hex2(s, ((v >> 8u32) & 0xff) as u8);
    push_hex2(s, (v & 0xff) as u8);
    assert(s@ =~= old(s)@ + hex8(v));
}

} // verus!
