//! Rendering of literals in the checked tree's pretty printer.
use vstd::prelude::*;

use crate::text::push_char;

verus! {

/// The characters of Unicode general category `Cc`, which `char::is_control`
/// accepts.
pub open spec fn is_control_code(character: char) -> bool {
    let code = character as u32;
    code <= 0x1f || (0x7f <= code && code <= 0x9f)
}

/// The lowercase hexadecimal digit of `digit`.
pub open spec fn hex_digit(digit: nat) -> char {
    if digit < 10 {
        (48 + digit) as char
    } else {
        (87 + digit) as char
    }
}

/// How a character literal is written: escapes for newline, carriage
/// return, tab, backslash, quote and NUL, two lowercase hexadecimal digits
/// for the other control characters, and the character itself otherwise,
/// all between single quotes.
pub open spec fn character_literal_text(value: char) -> Seq<char> {
    let code = value as u32;
    if value == '\n' {
        seq!['\'', '\\', 'n', '\'']
    } else if value == '\r' {
        seq!['\'', '\\', 'r', '\'']
    } else if value == '\t' {
        seq!['\'', '\\', 't', '\'']
    } else if value == '\\' {
        seq!['\'', '\\', '\\', '\'']
    } else if value == '\'' {
        seq!['\'', '\\', '\'', '\'']
    } else if value == '\0' {
        seq!['\'', '\\', '0', '\'']
    } else if is_control_code(value) {
        seq!['\'', '\\', 'x', hex_digit((code / 16) as nat), hex_digit((code % 16) as nat), '\'']
    } else {
        seq!['\'', value, '\'']
    }
}

/// The lowercase hexadecimal digit of `digit`.
fn hex_digit_char(digit: u32) -> (character: char)
    requires
        digit < 16,
    ensures
        character == hex_digit(digit as nat),
{
    if digit < 10 {
        let byte = 48u8 + digit as u8;
        assert(byte as char == (48 + digit) as char);
        byte as char
    } else {
        let byte = 87u8 + digit as u8;
        assert(byte as char == (87 + digit) as char);
        byte as char
    }
}

/// Writes a character literal as the checked tree's printer shows it.
pub fn character_literal(value: char) -> (text: String)
    ensures
        text@ == character_literal_text(value),
{
    let mut text = String::new();
    push_char(&mut text, '\'');
    if value == '\n' {
        push_char(&mut text, '\\');
        push_char(&mut text, 'n');
    } else if value == '\r' {
        push_char(&mut text, '\\');
        push_char(&mut text, 'r');
    } else if value == '\t' {
        push_char(&mut text, '\\');
        push_char(&mut text, 't');
    } else if value == '\\' {
        push_char(&mut text, '\\');
        push_char(&mut text, '\\');
    } else if value == '\'' {
        push_char(&mut text, '\\');
        push_char(&mut text, '\'');
    } else if value == '\0' {
        push_char(&mut text, '\\');
        push_char(&mut text, '0');
    } else {
        let code = value as u32;
        if code <= 0x1f || (0x7f <= code && code <= 0x9f) {
            push_char(&mut text, '\\');
            push_char(&mut text, 'x');
            push_char(&mut text, hex_digit_char(code / 16));
            push_char(&mut text, hex_digit_char(code % 16));
        } else {
            push_char(&mut text, value);
        }
    }
    push_char(&mut text, '\'');
    assert(text@ =~= character_literal_text(value));
    text
}

/// Different characters are written as different literals, so a literal
/// can be read back: the escapes and hexadecimal codes lose nothing.
pub proof fn law_character_literal_injective(first: char, second: char)
    requires
        character_literal_text(first) == character_literal_text(second),
    ensures
        first == second,
{
    let a = character_literal_text(first);
    let b = character_literal_text(second);
    assert(a.len() == b.len());
    assert(a[1] == b[1] && a[2] == b[2]);
    if a.len() == 6 {
        let x = first as u32;
        let y = second as u32;
        assert(is_control_code(first) && is_control_code(second));
        assert(x <= 0x9f && y <= 0x9f);
        assert(hex_digit((x / 16) as nat) == hex_digit((y / 16) as nat));
        assert(hex_digit((x % 16) as nat) == hex_digit((y % 16) as nat));
        assert(x / 16 == y / 16);
        assert(x % 16 == y % 16);
        assert(x == 16 * (x / 16) + x % 16);
        assert(y == 16 * (y / 16) + y % 16);
    }
}

} // verus!
