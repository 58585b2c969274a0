//! Settings of the hex dump renderer.
use vstd::prelude::*;
use crate::charset::CharacterTable;

verus! {

/// The base in which bytes are written.
#[derive(Debug, Clone, Copy, PartialEq, Eq, Structural)]
pub enum Base {
    Binary,
    Octal,
    Decimal,
    Hexadecimal,
}

/// The byte order of a group.
#[derive(Debug, Clone, Copy, PartialEq, Eq, Structural)]
pub enum Endianness {
    Little,
    Big,
}

/// How the dump is framed.
#[derive(Debug, Clone, Copy, PartialEq, Eq, Structural)]
pub enum BorderStyle {
    Unicode,
    Ascii,
    NoBorder,
}

/// When to color the output.
#[derive(Debug, Clone, Copy, PartialEq, Eq, Structural)]
pub enum ColorMode {
    Always,
    Auto,
    Never,
    Force,
}

/// What the renderer shows and how.
#[derive(Debug, Clone)]
pub struct Config {
    pub length: Option<String>,
    pub skip: Option<String>,
    pub block_size: u64,
    pub no_squeezing: bool,
    pub color: ColorMode,
    pub border: BorderStyle,
    pub plain: bool,
    pub show_characters: bool,
    pub character_table: CharacterTable,
    pub show_position: bool,
    pub display_offset: i64,
    pub panels: Option<usize>,
    pub group_size: u8,
    pub endianness: Endianness,
    pub base: Base,
    pub include_array: bool,
    pub file_name: Option<String>,
}

impl Default for Config {
    fn default() -> (r: Self)
        ensures
            r.length is None,
            r.skip is None,
            r.block_size == 512,
            !r.no_squeezing,
            r.color == ColorMode::Always,
            r.border == BorderStyle::Unicode,
            !r.plain,
            r.show_characters,
            r.character_table == CharacterTable::Default,
            r.show_position,
            r.display_offset == 0,
            r.panels is None,
            r.group_size == 1,
            r.endianness == Endianness::Big,
            r.base == Base::Hexadecimal,
            !r.include_array,
            r.file_name is None,
    {
        Config {
            length: None,
            skip: None,
            block_size: 512,
            no_squeezing: false,
            color: ColorMode::Always,
            border: BorderStyle::Unicode,
            plain: false,
            show_characters: true,
            character_table: CharacterTable::Default,
            show_position: true,
            display_offset: 0,
            panels: None,
            group_size: 1,
            endianness: Endianness::Big,
            base: Base::Hexadecimal,
            include_array: false,
            file_name: None,
        }
    }
}

impl Config {
    /// Plain output: no characters, no positions, no border, no color.
    pub fn apply_plain(&mut self)
        ensures
            final(self).plain,
            !final(self).show_characters,
            !final(self).show_position,
            final(self).border == BorderStyle::NoBorder,
            final(self).color == ColorMode::Never,
            final(self).length == old(self).length,
            final(self).skip == old(self).skip,
            final(self).block_size == old(self).block_size,
            final(self).no_squeezing == old(self).no_squeezing,
            final(self).character_table == old(self).character_table,
            final(self).display_offset == old(self).display_offset,
            final(self).panels == old(self).panels,
            final(self).group_size == old(self).group_size,
            final(self).endianness == old(self).endianness,
            final(self).base == old(self).base,
            final(self).include_array == old(self).include_array,
            final(self).file_name == old(self).file_name,
    {
        self.plain = true;
        self.show_characters = false;
        self.show_position = false;
        self.border = BorderStyle::NoBorder;
        self.color = ColorMode::Never;
    }
}

} // verus!
