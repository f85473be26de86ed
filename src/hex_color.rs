use vstd::prelude::*;

use crate::label::{Color, ColorError};

verus! {

/// The lowercase hexadecimal digit of a value below sixteen.
pub open spec fn hex_char(n: u8) -> char {
    if n < 10 {
        (n + 48) as char
    } else {
        (n + 87) as char
    }
}

/// The two lowercase digits of a byte, high digit first.
pub open spec fn byte_hex(b: u8) -> Seq<char> {
    seq![hex_char(b / 16), hex_char(b % 16)]
}

/// The wire form of a colour: six lowercase digits, no prefix.
pub open spec fn color_hex(c: Color) -> Seq<char> {
    byte_hex(c.r) + byte_hex(c.g) + byte_hex(c.b)
}

pub open spec fn is_hex_digit(c: char) -> bool {
    ('0' <= c && c <= '9') || ('a' <= c && c <= 'f') || ('A' <= c && c <= 'F')
}

/// The value of a hexadecimal digit of either case.
pub open spec fn hex_val(c: char) -> int {
    if '0' <= c && c <= '9' {
        c as int - 48
    } else if 'a' <= c && c <= 'f' {
        c as int - 87
    } else {
        c as int - 55
    }
}

/// Exactly six hexadecimal digits.
pub open spec fn is_color_hex(s: Seq<char>) -> bool {
    s.len() == 6 && forall|i: int| 0 <= i < 6 ==> #[trigger] is_hex_digit(s[i])
}

/// The byte written by the digit pair starting at `2 * k`.
pub open spec fn pair_val(s: Seq<char>, k: int) -> u8 {
    (hex_val(s[2 * k]) * 16 + hex_val(s[2 * k + 1])) as u8
}

/// The colour that six hexadecimal digits stand for.
pub open spec fn color_of_hex(s: Seq<char>) -> Color {
    Color { r: pair_val(s, 0), g: pair_val(s, 1), b: pair_val(s, 2) }
}

/// hex's decoding error, carried only to be mapped to `ColorError`.
#[verifier::external_type_specification]
#[verifier::external_body]
pub struct ExFromHexError(hex::FromHexError);

/// Relies on hex::decode_to_slice: it succeeds exactly when the input is
/// twice as many hexadecimal digits (of either case) as the three output
/// bytes, and then writes each byte as `high << 4 | low` of a digit pair.
#[verifier::external_body]
fn decode_three(s: &str) -> (r: Result<[u8; 3], hex::FromHexError>)
    ensures
        r.is_ok() <==> is_color_hex(s@),
        r matches Ok(b) ==> b@ == seq![pair_val(s@, 0), pair_val(s@, 1), pair_val(s@, 2)],
{
    let mut buf = [0u8; 3];
    hex::decode_to_slice(s, &mut buf).map(|_| buf)
}

/// The lowercase digit of a value below sixteen, as a one-character string.
fn digit_str(n: u8) -> (r: &'static str)
    requires
        n < 16,
    ensures
        r@ == seq![hex_char(n)],
{
    let digits = "0123456789abcdef";
    proof {
        reveal_strlit("0123456789abcdef");
    }
    digits.substring_ascii(n as usize, n as usize + 1)
}

fn push_byte(out: &mut String, b: u8)
    ensures
        final(out)@ == old(out)@ + byte_hex(b),
{
    out.append(digit_str(b / 16));
    out.append(digit_str(b % 16));
}

/// Writes a colour as six lowercase hexadecimal digits.
pub fn serialize(color: &Color) -> (r: String)
    ensures
        r@ == color_hex(*color),
{
    let mut out = String::new();
    push_byte(&mut out, color.r);
    push_byte(&mut out, color.g);
    push_byte(&mut out, color.b);
    proof {
        assert(out@ =~= color_hex(*color));
    }
    out
}

/// Reads a colour from six hexadecimal digits; anything else is
/// `InvalidColorFormat`, which keeps the string.
pub fn deserialize(s: &str) -> (r: Result<Color, ColorError>)
    ensures
        is_color_hex(s@) ==> r == Ok::<Color, ColorError>(color_of_hex(s@)),
        !is_color_hex(s@) ==> (r matches Err(ColorError::InvalidColorFormat(t)) && t@ == s@),
{
    match decode_three(s) {
        Ok(buf) => Ok(Color { r: buf[0], g: buf[1], b: buf[2] }),
        Err(_) => Err(ColorError::InvalidColorFormat(s.to_owned())),
    }
}

/// Every colour survives writing and reading back, and its written form is
/// six lowercase hexadecimal digits.
pub proof fn lemma_color_round_trip(c: Color)
    ensures
        is_color_hex(color_hex(c)),
        color_of_hex(color_hex(c)) == c,
        forall|i: int| 0 <= i < 6 ==> {
            let d = #[trigger] color_hex(c)[i];
            ('0' <= d && d <= '9') || ('a' <= d && d <= 'f')
        },
{
    let s = color_hex(c);
    assert(s[0] == hex_char(c.r / 16) && s[1] == hex_char(c.r % 16));
    assert(s[2] == hex_char(c.g / 16) && s[3] == hex_char(c.g % 16));
    assert(s[4] == hex_char(c.b / 16) && s[5] == hex_char(c.b % 16));
    assert(pair_val(s, 0) == c.r);
    assert(pair_val(s, 1) == c.g);
    assert(pair_val(s, 2) == c.b);
}

} // verus!
