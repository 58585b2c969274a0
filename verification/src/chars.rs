//! Characters shown for bytes in the text column of a hex dump.
use vstd::prelude::*;

verus! {

/// How bytes are shown as characters.
#[derive(Debug, Clone, Copy, PartialEq, Eq, Structural)]
pub enum CharacterTable {
    Default,
    Ascii,
    Codepage1047,
    Codepage437,
    Braille,
}

/// Code page 437, position by position (with a lozenge for the NUL byte).
pub open spec fn cp437_table() -> Seq<char> {
    seq!['⋄', '☺', '☻', '♥', '♦', '♣', '♠', '•', '◘', '○', '◙', '♂', '♀', '♪', '♫', '☼', '►', '◄', '↕', '‼', '¶', '§', '▬', '↨', '↑', '↓', '→', '←', '∟', '↔', '▲', '▼', ' ', '!', '"', '#', '$', '%', '&', '\'', '(', ')', '*', '+', ',', '-', '.', '/', '0', '1', '2', '3', '4', '5', '6', '7', '8', '9', ':', ';', '<', '=', '>', '?', '@', 'A', 'B', 'C', 'D', 'E', 'F', 'G', 'H', 'I', 'J', 'K', 'L', 'M', 'N', 'O', 'P', 'Q', 'R', 'S', 'T', 'U', 'V', 'W', 'X', 'Y', 'Z', '[', '\\', ']', '^', '_', '`', 'a', 'b', 'c', 'd', 'e', 'f', 'g', 'h', 'i', 'j', 'k', 'l', 'm', 'n', 'o', 'p', 'q', 'r', 's', 't', 'u', 'v', 'w', 'x', 'y', 'z', '{', '|', '}', '~', '⌂', 'Ç', 'ü', 'é', 'â', 'ä', 'à', 'å', 'ç', 'ê', 'ë', 'è', 'ï', 'î', 'ì', 'Ä', 'Å', 'É', 'æ', 'Æ', 'ô', 'ö', 'ò', 'û', 'ù', 'ÿ', 'Ö', 'Ü', '¢', '£', '¥', '₧', 'ƒ', 'á', 'í', 'ó', 'ú', 'ñ', 'Ñ', 'ª', 'º', '¿', '⌐', '¬', '½', '¼', '¡', '«', '»', '░', '▒', '▓', '│', '┤', '╡', '╢', '╖', '╕', '╣', '║', '╗', '╝', '╜', '╛', '┐', '└', '┴', '┬', '├', '─', '┼', '╞', '╟', '╚', '╔', '╩', '╦', '╠', '═', '╬', '╧', '╨', '╤', '╥', '╙', '╘', '╒', '╓', '╫', '╪', '┘', '┌', '█', '▄', '▌', '▐', '▀', 'α', 'ß', 'Γ', 'π', 'Σ', 'σ', 'µ', 'τ', 'Φ', 'Θ', 'Ω', 'δ', '∞', 'φ', 'ε', '∩', '≡', '±', '≥', '≤', '⌠', '⌡', '÷', '≈', '°', '∙', '·', '√', 'ⁿ', '²', '■', 'ﬀ']
}

/// The code page 437 character of `b`.
fn cp437_char(b: u8) -> (c: char)
    ensures
        c == cp437_table()[b as int],
{
    let table: [char; 256] = ['⋄', '☺', '☻', '♥', '♦', '♣', '♠', '•', '◘', '○', '◙', '♂', '♀', '♪', '♫', '☼', '►', '◄', '↕', '‼', '¶', '§', '▬', '↨', '↑', '↓', '→', '←', '∟', '↔', '▲', '▼', ' ', '!', '"', '#', '$', '%', '&', '\'', '(', ')', '*', '+', ',', '-', '.', '/', '0', '1', '2', '3', '4', '5', '6', '7', '8', '9', ':', ';', '<', '=', '>', '?', '@', 'A', 'B', 'C', 'D', 'E', 'F', 'G', 'H', 'I', 'J', 'K', 'L', 'M', 'N', 'O', 'P', 'Q', 'R', 'S', 'T', 'U', 'V', 'W', 'X', 'Y', 'Z', '[', '\\', ']', '^', '_', '`', 'a', 'b', 'c', 'd', 'e', 'f', 'g', 'h', 'i', 'j', 'k', 'l', 'm', 'n', 'o', 'p', 'q', 'r', 's', 't', 'u', 'v', 'w', 'x', 'y', 'z', '{', '|', '}', '~', '⌂', 'Ç', 'ü', 'é', 'â', 'ä', 'à', 'å', 'ç', 'ê', 'ë', 'è', 'ï', 'î', 'ì', 'Ä', 'Å', 'É', 'æ', 'Æ', 'ô', 'ö', 'ò', 'û', 'ù', 'ÿ', 'Ö', 'Ü', '¢', '£', '¥', '₧', 'ƒ', 'á', 'í', 'ó', 'ú', 'ñ', 'Ñ', 'ª', 'º', '¿', '⌐', '¬', '½', '¼', '¡', '«', '»', '░', '▒', '▓', '│', '┤', '╡', '╢', '╖', '╕', '╣', '║', '╗', '╝', '╜', '╛', '┐', '└', '┴', '┬', '├', '─', '┼', '╞', '╟', '╚', '╔', '╩', '╦', '╠', '═', '╬', '╧', '╨', '╤', '╥', '╙', '╘', '╒', '╓', '╫', '╪', '┘', '┌', '█', '▄', '▌', '▐', '▀', 'α', 'ß', 'Γ', 'π', 'Σ', 'σ', 'µ', 'τ', 'Φ', 'Θ', 'Ω', 'δ', '∞', 'φ', 'ε', '∩', '≡', '±', '≥', '≤', '⌠', '⌡', '÷', '≈', '°', '∙', '·', '√', 'ⁿ', '²', '■', 'ﬀ'];
    assert(table@ =~= cp437_table());
    table[b as usize]
}


/// `char::from_u32`: as std documents, the character with code `v`, or
/// `None` for a surrogate or a code above `0x10FFFF`.
#[verifier::external_body]
pub(crate) fn char_from_u32(v: u32) -> (r: Option<char>)
    ensures
        r == (if v <= 0xD7FF || (0xE000 <= v && v <= 0x10FFFF) {
            Some(v as char)
        } else {
            None::<char>
        }),
{
    char::from_u32(v)
}

/// The character for `b` in the default table: a lozenge for NUL, space,
/// `_` for tab, newline, form feed and carriage return, printable ASCII as
/// itself, a bullet for other ASCII, a cross otherwise.
pub open spec fn spec_default_char(b: u8) -> char {
    if b == 0 {
        '\u{22c4}'
    } else if b == 0x20 {
        ' '
    } else if b == 0x09 || b == 0x0a || b == 0x0c || b == 0x0d {
        '_'
    } else if 0x21 <= b && b <= 0x7e {
        b as char
    } else if b <= 0x7f {
        '\u{2022}'
    } else {
        '\u{00d7}'
    }
}

fn default_char(b: u8) -> (c: char)
    ensures
        c == spec_default_char(b),
{
    if b == 0 {
        '\u{22c4}'
    } else if b == 0x20 {
        ' '
    } else if b == 0x09 || b == 0x0a || b == 0x0c || b == 0x0d {
        '_'
    } else if 0x21 <= b && b <= 0x7e {
        b as char
    } else if b <= 0x7f {
        '\u{2022}'
    } else {
        '\u{00d7}'
    }
}

/// Printable ASCII as itself, a dot otherwise.
pub open spec fn spec_ascii_char(b: u8) -> char {
    if 0x20 <= b && b <= 0x7e {
        b as char
    } else {
        '.'
    }
}

fn ascii_char(b: u8) -> (c: char)
    ensures
        c == spec_ascii_char(b),
{
    if 0x20 <= b && b <= 0x7e {
        b as char
    } else {
        '.'
    }
}

/// The letter, digit or space that EBCDIC code page 1047 gives `b`, if any.
pub open spec fn spec_ebcdic1047_to_char(b: u8) -> Option<char> {
    if b == 0x40 {
        Some(' ')
    } else if 0x4a <= b && b <= 0x51 {
        Some(((b - 0x4a + 0x61) as u8) as char)
    } else if 0x59 <= b && b <= 0x61 {
        Some(((b - 0x59 + 0x6a) as u8) as char)
    } else if 0x62 <= b && b <= 0x69 {
        Some(((b - 0x62 + 0x72) as u8) as char)
    } else if 0x6a <= b && b <= 0x71 {
        Some(((b - 0x6a + 0x7a) as u8) as char)
    } else if 0x72 <= b && b <= 0x79 {
        Some(((b - 0x72 + 0x41) as u8) as char)
    } else if 0x81 <= b && b <= 0x89 {
        Some(((b - 0x81 + 0x49) as u8) as char)
    } else if 0x91 <= b && b <= 0x99 {
        Some(((b - 0x91 + 0x52) as u8) as char)
    } else if 0xa2 <= b && b <= 0xa9 {
        Some(((b - 0xa2 + 0x5a) as u8) as char)
    } else if 0xc1 <= b && b <= 0xc9 {
        Some(((b - 0xc1 + 0x41) as u8) as char)
    } else if 0xd1 <= b && b <= 0xd9 {
        Some(((b - 0xd1 + 0x4a) as u8) as char)
    } else if 0xe2 <= b && b <= 0xe9 {
        Some(((b - 0xe2 + 0x52) as u8) as char)
    } else if 0xf0 <= b && b <= 0xf9 {
        Some(((b - 0xf0 + 0x30) as u8) as char)
    } else {
        None
    }
}

fn ebcdic1047_to_char(b: u8) -> (r: Option<char>)
    ensures
        r == spec_ebcdic1047_to_char(b),
{
    if b == 0x40 {
        Some(' ')
    } else if 0x4a <= b && b <= 0x51 {
        Some(((b - 0x4a) + 0x61) as char)
    } else if 0x59 <= b && b <= 0x61 {
        Some(((b - 0x59) + 0x6a) as char)
    } else if 0x62 <= b && b <= 0x69 {
        Some(((b - 0x62) + 0x72) as char)
    } else if 0x6a <= b && b <= 0x71 {
        Some(((b - 0x6a) + 0x7a) as char)
    } else if 0x72 <= b && b <= 0x79 {
        Some(((b - 0x72) + 0x41) as char)
    } else if 0x81 <= b && b <= 0x89 {
        Some(((b - 0x81) + 0x49) as char)
    } else if 0x91 <= b && b <= 0x99 {
        Some(((b - 0x91) + 0x52) as char)
    } else if 0xa2 <= b && b <= 0xa9 {
        Some(((b - 0xa2) + 0x5a) as char)
    } else if 0xc1 <= b && b <= 0xc9 {
        Some(((b - 0xc1) + 0x41) as char)
    } else if 0xd1 <= b && b <= 0xd9 {
        Some(((b - 0xd1) + 0x4a) as char)
    } else if 0xe2 <= b && b <= 0xe9 {
        Some(((b - 0xe2) + 0x52) as char)
    } else if 0xf0 <= b && b <= 0xf9 {
        Some(((b - 0xf0) + 0x30) as char)
    } else {
        None
    }
}

/// Code page 1047: a lozenge for NUL, printable ASCII as itself, the
/// EBCDIC letters and digits, a dot otherwise.
pub open spec fn spec_codepage1047_char(b: u8) -> char {
    if b == 0 {
        '\u{22c4}'
    } else if 0x20 <= b && b <= 0x7e {
        b as char
    } else {
        match spec_ebcdic1047_to_char(b) {
            Some(c) => c,
            None => '.',
        }
    }
}

fn codepage1047_char(b: u8) -> (c: char)
    ensures
        c == spec_codepage1047_char(b),
{
    if b == 0 {
        '\u{22c4}'
    } else if 0x20 <= b && b <= 0x7e {
        b as char
    } else {
        match ebcdic1047_to_char(b) {
            Some(c) => c,
            None => '.',
        }
    }
}

/// Code page 437: a lozenge for NUL, printable ASCII as itself, the table
/// otherwise.
pub open spec fn spec_codepage437_char(b: u8) -> char {
    if b == 0 {
        '\u{22c4}'
    } else if 0x20 <= b && b <= 0x7e {
        b as char
    } else {
        cp437_table()[b as int]
    }
}

fn codepage437_char(b: u8) -> (c: char)
    ensures
        c == spec_codepage437_char(b),
{
    if b == 0 {
        '\u{22c4}'
    } else if 0x20 <= b && b <= 0x7e {
        b as char
    } else {
        cp437_char(b)
    }
}

/// Braille: a lozenge for NUL, arrows for tab, newline and carriage return,
/// printable ASCII as itself, otherwise the Braille pattern `U+2800 + b`.
pub open spec fn spec_braille_char(b: u8) -> char {
    if b == 0 {
        '\u{22c4}'
    } else if b == 0x09 {
        '\u{2192}'
    } else if b == 0x0a {
        '\u{21b5}'
    } else if b == 0x0d {
        '\u{2190}'
    } else if 0x20 <= b && b <= 0x7e {
        b as char
    } else {
        ((0x2800 + b) as u32) as char
    }
}

fn braille_char(b: u8) -> (c: char)
    ensures
        c == spec_braille_char(b),
{
    if b == 0 {
        '\u{22c4}'
    } else if b == 0x09 {
        '\u{2192}'
    } else if b == 0x0a {
        '\u{21b5}'
    } else if b == 0x0d {
        '\u{2190}'
    } else if 0x20 <= b && b <= 0x7e {
        b as char
    } else {
        match char_from_u32(0x2800 + b as u32) {
            Some(c) => c,
            None => '\u{00d7}',
        }
    }
}

/// The character that `table` shows for `b`.
pub open spec fn spec_map(table: CharacterTable, b: u8) -> char {
    match table {
        CharacterTable::Default => spec_default_char(b),
        CharacterTable::Ascii => spec_ascii_char(b),
        CharacterTable::Codepage1047 => spec_codepage1047_char(b),
        CharacterTable::Codepage437 => spec_codepage437_char(b),
        CharacterTable::Braille => spec_braille_char(b),
    }
}

impl CharacterTable {
    /// The character shown for byte `b`.
    pub fn map(self, b: u8) -> (c: char)
        ensures
            c == spec_map(self, b),
    {
        match self {
            CharacterTable::Default => default_char(b),
            CharacterTable::Ascii => ascii_char(b),
            CharacterTable::Codepage1047 => codepage1047_char(b),
            CharacterTable::Codepage437 => codepage437_char(b),
            CharacterTable::Braille => braille_char(b),
        }
    }
}


/// In the default and ASCII tables the space and every printable ASCII byte
/// shows as the character with that code. Otherwise the ASCII table shows a
/// dot, and the default table a lozenge for NUL, `_` for tab, newline, form
/// feed and carriage return, a bullet for other ASCII bytes and a cross for
/// bytes above ASCII.
pub proof fn ascii_bytes_show_as_themselves(b: u8)
    ensures
        0x20 <= b <= 0x7e ==> spec_default_char(b) as u32 == b as u32 && spec_ascii_char(b) as u32 == b as u32,
        !(0x20 <= b <= 0x7e) ==> spec_ascii_char(b) == '.',
        b == 0 ==> spec_default_char(b) == '\u{22c4}',
        (b == 0x09 || b == 0x0a || b == 0x0c || b == 0x0d) ==> spec_default_char(b) == '_',
        (0x01 <= b <= 0x08 || 0x0e <= b <= 0x1f || b == 0x7f) ==> spec_default_char(b) == '\u{2022}',
        b >= 0x80 ==> spec_default_char(b) == '\u{00d7}',
{
    if 0x20 <= b <= 0x7e {
        assert((b as char) as u32 == b as u32);
        assert((' ' as u32) == 0x20);
    }
}
} // verus!
