use vstd::prelude::*;
use vstd::utf8::{encode_utf8, is_ascii_chars};

use crate::string::{str_eq, str_starts_with};

verus! {

broadcast use vstd::string::group_string_axioms;

/// A terminal colour: one of the sixteen named colours, an index into the
/// 256-colour palette, or a 24-bit RGB value.
#[derive(Debug, Clone, Copy, PartialEq, Eq, Structural)]
pub enum Color {
    Black,
    DarkGrey,
    Red,
    DarkRed,
    Green,
    DarkGreen,
    Yellow,
    DarkYellow,
    Blue,
    DarkBlue,
    Magenta,
    DarkMagenta,
    Cyan,
    DarkCyan,
    White,
    Grey,
    Rgb { r: u8, g: u8, b: u8 },
    AnsiValue(u8),
}

#[verifier::external_type_specification]
#[verifier::external_body]
pub struct ExParseIntError(std::num::ParseIntError);

/// Why a hex colour was refused.
#[derive(Debug, PartialEq, Eq)]
pub enum ParseHexError {
    InvalidLength,
    ParseIntError(std::num::ParseIntError),
}

/// The value of digit `c` in base `radix`, if it is one: `0-9`, then `a-z` or
/// `A-Z` from ten on.
pub open spec fn digit_value(c: char, radix: nat) -> Option<nat> {
    let v: int = if '0' <= c && c <= '9' {
        c as int - '0' as int
    } else if 'a' <= c && c <= 'z' {
        c as int - 'a' as int + 10
    } else if 'A' <= c && c <= 'Z' {
        c as int - 'A' as int + 10
    } else {
        radix as int
    };
    if v < radix {
        Some(v as nat)
    } else {
        None
    }
}

/// The value of the digit string `s` in base `radix`, if every character is a digit.
pub open spec fn digits_value(s: Seq<char>, radix: nat) -> Option<nat>
    decreases s.len(),
{
    if s.len() == 0 {
        Some(0)
    } else {
        match (digits_value(s.drop_last(), radix), digit_value(s.last(), radix)) {
            (Some(v), Some(d)) => Some(v * radix + d),
            _ => None,
        }
    }
}

/// The byte that `s` spells in base `radix`: an optional `+`, then at least one
/// digit, with a value below 256.
pub open spec fn byte_text(s: Seq<char>, radix: nat) -> Option<u8> {
    let body = if s.len() > 0 && s[0] == '+' {
        s.drop_first()
    } else {
        s
    };
    match digits_value(body, radix) {
        Some(v) => if body.len() > 0 && v < 256 {
            Some(v as u8)
        } else {
            None
        },
        None => None,
    }
}

/// Relies on `u8::from_str_radix`: an optional `+` followed by digits of the base,
/// whose value fits in a byte, parses to that value; anything else is an error.
#[verifier::external_body]
fn parse_byte(s: &str, radix: u32) -> (r: Result<u8, std::num::ParseIntError>)
    requires
        2 <= radix <= 36,
    ensures
        match byte_text(s@, radix as nat) {
            Some(v) => r == Ok::<u8, std::num::ParseIntError>(v),
            None => r is Err,
        },
{
    u8::from_str_radix(s, radix)
}

proof fn lemma_digits_ascii(s: Seq<char>, radix: nat)
    requires
        radix <= 36,
        digits_value(s, radix) is Some,
    ensures
        is_ascii_chars(s),
    decreases s.len(),
{
    if s.len() > 0 {
        lemma_digits_ascii(s.drop_last(), radix);
        assert forall|i: int| 0 <= i < s.len() implies '\0' <= #[trigger] s[i] <= '\u{7f}' by {
            if i < s.len() - 1 {
                assert(s[i] == s.drop_last()[i]);
            }
        }
    }
}

/// Text that spells a byte is plain ASCII.
proof fn lemma_byte_text_ascii(s: Seq<char>, radix: nat)
    requires
        radix <= 36,
        byte_text(s, radix) is Some,
    ensures
        is_ascii_chars(s),
{
    if s.len() > 0 && s[0] == '+' {
        lemma_digits_ascii(s.drop_first(), radix);
        assert forall|i: int| 0 <= i < s.len() implies '\0' <= #[trigger] s[i] <= '\u{7f}' by {
            if i > 0 {
                assert(s[i] == s.drop_first()[i - 1]);
            }
        }
    } else {
        lemma_digits_ascii(s, radix);
    }
}

/// `s` without one leading `#`.
pub open spec fn without_hash(s: Seq<char>) -> Seq<char> {
    if s.len() > 0 && s[0] == '#' {
        s.drop_first()
    } else {
        s
    }
}

/// The colour that the six hex digits `t` spell, when each pair spells a byte.
pub open spec fn rgb_text(t: Seq<char>) -> Option<Color> {
    match (
        byte_text(t.subrange(0, 2), 16),
        byte_text(t.subrange(2, 4), 16),
        byte_text(t.subrange(4, 6), 16),
    ) {
        (Some(r), Some(g), Some(b)) => Some(Color::Rgb { r, g, b }),
        _ => None,
    }
}

/// Parses `#rrggbb` (the `#` optional) into an RGB colour. Text of any byte
/// length other than six, after the `#`, has an invalid length; six bytes that do
/// not make three hex pairs fail to parse as numbers.
pub fn parse_hex(src: &str) -> (r: Result<Color, ParseHexError>)
    ensures
        ({
            let t = without_hash(src@);
            if encode_utf8(t).len() != 6 {
                r == Err::<Color, ParseHexError>(ParseHexError::InvalidLength)
            } else if is_ascii_chars(t) && rgb_text(t) is Some {
                r == Ok::<Color, ParseHexError>(rgb_text(t)->0)
            } else {
                r is Err && r->Err_0 is ParseIntError
            }
        }),
{
    proof {
        reveal_strlit("#");
        assert("#"@ =~= seq!['#']);
        assert(src@.len() > 0 ==> src@.subrange(0, 1) =~= seq![src@[0]]);
    }
    let rest: &str = if str_starts_with(src, "#") {
        let rest = src.substring_char(1, src.unicode_len());
        assert(rest@ =~= src@.drop_first());
        assert(src@.subrange(0, 1)[0] == "#"@[0]);
        rest
    } else {
        assert(!(src@.len() > 0 && src@[0] == '#'));
        src
    };
    assert(rest@ == without_hash(src@));
    if rest.as_bytes().len() != 6 {
        return Err(ParseHexError::InvalidLength);
    }
    if !rest.is_ascii() {
        return match parse_byte(rest, 16) {
            Ok(_) => {
                proof {
                    lemma_byte_text_ascii(rest@, 16);
                }
                Err(ParseHexError::InvalidLength)
            },
            Err(e) => {
                Err(ParseHexError::ParseIntError(e))
            },
        };
    }
    let r = match parse_byte(rest.substring_ascii(0, 2), 16) {
        Ok(v) => v,
        Err(e) => {
            return Err(ParseHexError::ParseIntError(e));
        },
    };
    let g = match parse_byte(rest.substring_ascii(2, 4), 16) {
        Ok(v) => v,
        Err(e) => {
            return Err(ParseHexError::ParseIntError(e));
        },
    };
    let b = match parse_byte(rest.substring_ascii(4, 6), 16) {
        Ok(v) => v,
        Err(e) => {
            return Err(ParseHexError::ParseIntError(e));
        },
    };
    Ok(Color::Rgb { r, g, b })
}

/// The colour that a highlight name stands for.
pub open spec fn named_color(s: Seq<char>) -> Option<Color> {
    if s == "black"@ {
        Some(Color::Black)
    } else if s == "bright-black"@ {
        Some(Color::DarkGrey)
    } else if s == "red"@ {
        Some(Color::DarkRed)
    } else if s == "bright-red"@ {
        Some(Color::Red)
    } else if s == "green"@ {
        Some(Color::DarkGreen)
    } else if s == "bright-green"@ {
        Some(Color::Green)
    } else if s == "yellow"@ {
        Some(Color::DarkYellow)
    } else if s == "bright-yellow"@ {
        Some(Color::Yellow)
    } else if s == "blue"@ {
        Some(Color::DarkBlue)
    } else if s == "bright-blue"@ {
        Some(Color::Blue)
    } else if s == "magenta"@ {
        Some(Color::DarkMagenta)
    } else if s == "bright-magenta"@ {
        Some(Color::Magenta)
    } else if s == "cyan"@ {
        Some(Color::DarkCyan)
    } else if s == "bright-cyan"@ {
        Some(Color::Cyan)
    } else if s == "white"@ {
        Some(Color::Grey)
    } else if s == "bright-white"@ {
        Some(Color::White)
    } else {
        None
    }
}

/// The colour that `#rrggbb` text spells, as `parse_hex` reads it.
pub open spec fn hex_color(s: Seq<char>) -> Option<Color> {
    let t = without_hash(s);
    if encode_utf8(t).len() == 6 && is_ascii_chars(t) {
        rgb_text(t)
    } else {
        None
    }
}

/// The colour of a highlight setting: a colour name, else a palette index in
/// decimal, else a hex colour.
pub open spec fn highlight_color(s: Seq<char>) -> Option<Color> {
    match named_color(s) {
        Some(c) => Some(c),
        None => match byte_text(s, 10) {
            Some(v) => Some(Color::AnsiValue(v)),
            None => hex_color(s),
        },
    }
}

/// Parses a highlight setting: one of the sixteen colour names (`bright-` for
/// the light shades), a palette index in decimal, or a hex colour.
pub fn parse_highlight(src: &str) -> (r: Result<Color, String>)
    ensures
        match highlight_color(src@) {
            Some(c) => r == Ok::<Color, String>(c),
            None => r is Err && r->Err_0@ == "could not parse highlight"@,
        },
{
    if str_eq(src, "black") {
        Ok(Color::Black)
    } else if str_eq(src, "bright-black") {
        Ok(Color::DarkGrey)
    } else if str_eq(src, "red") {
        Ok(Color::DarkRed)
    } else if str_eq(src, "bright-red") {
        Ok(Color::Red)
    } else if str_eq(src, "green") {
        Ok(Color::DarkGreen)
    } else if str_eq(src, "bright-green") {
        Ok(Color::Green)
    } else if str_eq(src, "yellow") {
        Ok(Color::DarkYellow)
    } else if str_eq(src, "bright-yellow") {
        Ok(Color::Yellow)
    } else if str_eq(src, "blue") {
        Ok(Color::DarkBlue)
    } else if str_eq(src, "bright-blue") {
        Ok(Color::Blue)
    } else if str_eq(src, "magenta") {
        Ok(Color::DarkMagenta)
    } else if str_eq(src, "bright-magenta") {
        Ok(Color::Magenta)
    } else if str_eq(src, "cyan") {
        Ok(Color::DarkCyan)
    } else if str_eq(src, "bright-cyan") {
        Ok(Color::Cyan)
    } else if str_eq(src, "white") {
        Ok(Color::Grey)
    } else if str_eq(src, "bright-white") {
        Ok(Color::White)
    } else {
        match parse_byte(src, 10) {
            Ok(v) => Ok(Color::AnsiValue(v)),
            Err(_) => match parse_hex(src) {
                Ok(c) => Ok(c),
                Err(_) => Err("could not parse highlight".to_string()),
            },
        }
    }
}

} // verus!
