//! Option values of the hex viewer's command line.
use vstd::prelude::*;
use crate::text::to_string;

verus! {

/// When to color the output.
#[derive(Copy, Clone, Debug, Eq, PartialEq, Structural)]
pub enum ColorWhen {
    Always,
    Auto,
    Never,
    Force,
}

/// How the dump is framed.
#[derive(Copy, Clone, Debug, Eq, PartialEq, Structural)]
pub enum BorderStyle {
    Unicode,
    Ascii,
    NoBorder,
}

/// How bytes are shown as characters.
#[derive(Copy, Clone, Debug, Eq, PartialEq, Structural)]
pub enum CharacterTable {
    Default,
    Ascii,
    Codepage1047,
    Codepage437,
    Braille,
}

/// How bytes are colored.
#[derive(Copy, Clone, Debug, Eq, PartialEq, Structural)]
pub enum ColorScheme {
    Default,
    Gradient,
}

/// The byte order of a group.
#[derive(Copy, Clone, Debug, Eq, PartialEq, Structural)]
pub enum Endianness {
    Little,
    Big,
}

/// The base in which bytes are written.
#[derive(Copy, Clone, Debug, Eq, PartialEq, Structural)]
pub enum NumericBase {
    Binary,
    Octal,
    Decimal,
    Hexadecimal,
}

/// How many bytes form a group.
#[derive(Copy, Clone, Debug, Eq, PartialEq, Structural)]
pub enum GroupSizeArg {
    One,
    Two,
    Four,
    Eight,
}

impl GroupSizeArg {
    /// The number of bytes in a group.
    pub fn as_usize(self) -> (n: usize)
        ensures
            n == match self {
                GroupSizeArg::One => 1usize,
                GroupSizeArg::Two => 2,
                GroupSizeArg::Four => 4,
                GroupSizeArg::Eight => 8,
            },
    {
        match self {
            GroupSizeArg::One => 1,
            GroupSizeArg::Two => 2,
            GroupSizeArg::Four => 4,
            GroupSizeArg::Eight => 8,
        }
    }
}


/// The hex viewer's command line, as plain values: the file path and the
/// completion shell are held by name.
pub struct Cli {
    pub file: Option<String>,
    pub length: Option<String>,
    pub length_alias_c: Option<String>,
    pub length_alias_l: Option<String>,
    pub skip: Option<String>,
    pub block_size: u64,
    pub no_squeezing: bool,
    pub color: ColorWhen,
    pub border: BorderStyle,
    pub plain: bool,
    pub no_characters: bool,
    pub characters: bool,
    pub character_table: CharacterTable,
    pub color_scheme: ColorScheme,
    pub no_position: bool,
    pub display_offset: Option<String>,
    pub panels: String,
    pub group_size: GroupSizeArg,
    pub endianness: Endianness,
    pub base: NumericBase,
    pub terminal_width: Option<usize>,
    pub print_color_table: bool,
    pub include_array: bool,
    pub completion: Option<String>,
}

/// The view of an optional string.
pub open spec fn opt_seq(o: Option<String>) -> Option<Seq<char>> {
    match o {
        Some(s) => Some(s@),
        None => None,
    }
}

/// Two command lines hold the same values.
pub open spec fn same_cli(a: Cli, b: Cli) -> bool {
    &&& opt_seq(a.file) == opt_seq(b.file)
    &&& opt_seq(a.length) == opt_seq(b.length)
    &&& opt_seq(a.length_alias_c) == opt_seq(b.length_alias_c)
    &&& opt_seq(a.length_alias_l) == opt_seq(b.length_alias_l)
    &&& opt_seq(a.skip) == opt_seq(b.skip)
    &&& a.block_size == b.block_size
    &&& a.no_squeezing == b.no_squeezing
    &&& a.color == b.color
    &&& a.border == b.border
    &&& a.plain == b.plain
    &&& a.no_characters == b.no_characters
    &&& a.characters == b.characters
    &&& a.character_table == b.character_table
    &&& a.color_scheme == b.color_scheme
    &&& a.no_position == b.no_position
    &&& opt_seq(a.display_offset) == opt_seq(b.display_offset)
    &&& a.panels@ == b.panels@
    &&& a.group_size == b.group_size
    &&& a.endianness == b.endianness
    &&& a.base == b.base
    &&& a.terminal_width == b.terminal_width
    &&& a.print_color_table == b.print_color_table
    &&& a.include_array == b.include_array
    &&& opt_seq(a.completion) == opt_seq(b.completion)
}

fn copy_opt(o: &Option<String>) -> (r: Option<String>)
    ensures
        opt_seq(r) == opt_seq(*o),
{
    match o {
        Some(s) => Some(to_string(s.as_str())),
        None => None,
    }
}

impl Clone for Cli {
    fn clone(&self) -> (r: Self)
        ensures
            same_cli(r, *self),
    {
        Cli {
            file: copy_opt(&self.file),
            length: copy_opt(&self.length),
            length_alias_c: copy_opt(&self.length_alias_c),
            length_alias_l: copy_opt(&self.length_alias_l),
            skip: copy_opt(&self.skip),
            block_size: self.block_size,
            no_squeezing: self.no_squeezing,
            color: self.color,
            border: self.border,
            plain: self.plain,
            no_characters: self.no_characters,
            characters: self.characters,
            character_table: self.character_table,
            color_scheme: self.color_scheme,
            no_position: self.no_position,
            display_offset: copy_opt(&self.display_offset),
            panels: to_string(self.panels.as_str()),
            group_size: self.group_size,
            endianness: self.endianness,
            base: self.base,
            terminal_width: self.terminal_width,
            print_color_table: self.print_color_table,
            include_array: self.include_array,
            completion: copy_opt(&self.completion),
        }
    }
}

impl Cli {
    /// The length that was given, under any of its three option names, in
    /// that order of preference.
    pub fn effective_length(&self) -> (r: Option<&str>)
        ensures
            match r {
                Some(s) => Some(s@) == (if self.length is Some {
                    opt_seq(self.length)
                } else if self.length_alias_c is Some {
                    opt_seq(self.length_alias_c)
                } else {
                    opt_seq(self.length_alias_l)
                }),
                None => self.length is None && self.length_alias_c is None
                    && self.length_alias_l is None,
            },
    {
        match &self.length {
            Some(s) => Some(s.as_str()),
            None => match &self.length_alias_c {
                Some(s) => Some(s.as_str()),
                None => match &self.length_alias_l {
                    Some(s) => Some(s.as_str()),
                    None => None,
                },
            },
        }
    }

    /// The command line with its shorthands applied: `plain` turns off the
    /// characters, the position, the border and colors, and forced colors
    /// become colors always.
    pub fn resolved(&self) -> (r: Self)
        ensures
            r.no_characters == (self.no_characters || self.plain),
            r.no_position == (self.no_position || self.plain),
            r.border == (if self.plain {
                BorderStyle::NoBorder
            } else {
                self.border
            }),
            r.color == (if self.plain {
                ColorWhen::Never
            } else if self.color == ColorWhen::Force {
                ColorWhen::Always
            } else {
                self.color
            }),
            same_cli(
                r,
                Cli {
                    no_characters: r.no_characters,
                    no_position: r.no_position,
                    border: r.border,
                    color: r.color,
                    ..*self
                },
            ),
    {
        let mut cli = self.clone();
        if cli.plain {
            cli.no_characters = true;
            cli.no_position = true;
            cli.border = BorderStyle::NoBorder;
            cli.color = ColorWhen::Never;
        }
        if cli.color == ColorWhen::Force {
            cli.color = ColorWhen::Always;
        }
        cli
    }
}

} // verus!
