//! Line-oriented hex dump printing with colors, squeezing of repeated lines
//! and optional borders.
use vstd::prelude::*;
use crate::chars::{spec_map, CharacterTable};
use crate::colors::{spec_color_for_byte, ColorScheme, Colors};
use crate::num::{
    all_digits, decimal, digits_value, is_upper, lemma_padded_number, pad_left, radix_digits,
    radix_padded, rpow,
};
use crate::display::{hex8, lemma_hex8_len, pad_right, rep};
use crate::text::{concat, join, push_char, push_str, str_eq, to_string, views};

verus! {

/// How the dump is framed.
#[derive(Debug, Clone, Copy, PartialEq, Eq, Structural)]
pub enum BorderStyle {
    Unicode,
    Ascii,
    NoBorder,
}

/// The base in which bytes are written.
#[derive(Debug, Clone, Copy, PartialEq, Eq, Structural)]
pub enum DisplayBase {
    Binary,
    Octal,
    Decimal,
    Hexadecimal,
}

/// The byte order of a group.
#[derive(Debug, Clone, Copy, PartialEq, Eq, Structural)]
pub enum Endianness {
    Little,
    Big,
}

/// What the printer shows and how. `gradient` holds the escape sequence of
/// each byte value under the gradient color scheme.
pub struct PrinterConfig {
    pub show_position: bool,
    pub show_characters: bool,
    pub border: BorderStyle,
    pub squeeze: bool,
    pub colors: Colors,
    pub use_color: bool,
    pub color_scheme: ColorScheme,
    pub character_table: CharacterTable,
    pub display_offset: u64,
    pub group_size: usize,
    pub endianness: Endianness,
    pub base: DisplayBase,
    pub bytes_per_panel: usize,
    pub panel_count: usize,
    pub gradient: Vec<String>,
}

/// A formatted line: its offset, bytes, text without and with colors, and
/// the text that decides whether two lines repeat.
pub struct LineContent {
    pub offset: u64,
    pub bytes: Vec<u8>,
    pub plain_body: String,
    pub colored_body: String,
    pub squeeze_key: String,
}

impl PrinterConfig {
    /// The number of bytes per line.
    pub fn bytes_per_line(&self) -> (r: usize)
        requires
            self.bytes_per_panel * self.panel_count <= usize::MAX,
        ensures
            r == self.bytes_per_panel * self.panel_count,
    {
        self.bytes_per_panel * self.panel_count
    }
}

/// The bytes of `data` that remain after skipping `skip` (at most the
/// effective length) and keeping at most `length`.
pub open spec fn spec_read_input(data: Seq<u8>, skip: u64, length: Option<u64>, file_len: Option<u64>) -> Seq<u8> {
    let eff: int = match file_len {
        Some(n) => n as int,
        None => data.len() as int,
    };
    let start: int = if skip > eff {
        eff
    } else {
        skip as int
    };
    let sliced = if start >= data.len() {
        Seq::empty()
    } else {
        data.skip(start)
    };
    match length {
        Some(n) => if sliced.len() > n {
            sliced.take(n as int)
        } else {
            sliced
        },
        None => sliced,
    }
}

/// Skips and limits the input bytes.
pub fn read_input(data: &[u8], skip: u64, length: Option<u64>, file_len: Option<u64>) -> (r: Vec<u8>)
    ensures
        r@ == spec_read_input(data@, skip, length, file_len),
{
    let eff = match file_len {
        Some(n) => n,
        None => data.len() as u64,
    };
    let start = if skip > eff {
        eff
    } else {
        skip
    };
    let mut sliced = if start >= data.len() as u64 {
        Vec::new()
    } else {
        crate::text::slice_bytes(data, start as usize, data.len())
    };
    if let Some(n) = length {
        if sliced.len() as u64 > n {
            sliced.truncate(n as usize);
        }
    }
    proof {
        if !(start >= data@.len()) {
            assert(data@.subrange(start as int, data@.len() as int) =~= data@.skip(start as int));
        }
    }
    sliced
}

/// Where a skip starts: a non-negative skip as it is, a negative one counted
/// back from the end (not before the start).
pub open spec fn spec_resolve_skip(skip: i64, file_len: u64) -> u64 {
    if skip >= 0 {
        skip as u64
    } else if file_len >= -skip {
        (file_len + skip) as u64
    } else {
        0
    }
}

/// The offset at which reading starts.
pub fn resolve_skip(skip: i64, file_len: u64) -> (r: u64)
    requires
        skip != i64::MIN,
    ensures
        r == spec_resolve_skip(skip, file_len),
{
    if skip >= 0 {
        skip as u64
    } else {
        let abs = (-skip) as u64;
        file_len.saturating_sub(abs)
    }
}

/// ASCII letters and digits stay, other characters become `_`.
pub open spec fn spec_sanitize_name(name: Seq<char>) -> Seq<char> {
    name.map_values(|c: char| crate::display::ident_char(c))
}

fn sanitize_name(name: &str) -> (r: String)
    ensures
        r@ == spec_sanitize_name(name@),
{
    let cs = crate::text::chars_of(name);
    let mut out = String::new();
    let mut i: usize = 0;
    while i < cs.len()
        invariant
            i <= cs@.len(),
            cs@ == name@,
            out@ == cs@.take(i as int).map_values(|c: char| crate::display::ident_char(c)),
        decreases cs.len() - i,
    {
        let c = cs[i];
        let k = if ('a' <= c && c <= 'z') || ('A' <= c && c <= 'Z') || ('0' <= c && c <= '9') {
            c
        } else {
            '_'
        };
        push_char(&mut out, k);
        assert(cs@.take(i + 1).map_values(|c: char| crate::display::ident_char(c)) =~= cs@.take(
            i as int,
        ).map_values(|c: char| crate::display::ident_char(c)).push(crate::display::ident_char(cs@[i as int])));
        i = i + 1;
    }
    assert(cs@.take(cs@.len() as int) == cs@);
    out
}

/// Two hexadecimal digits.
pub open spec fn hex2(b: u8) -> Seq<char> {
    pad_left(radix_digits(b as nat, 16), 2, '0')
}

/// The lines of the C array body from byte `i` on: twelve items a line,
/// each line but the last ending in a comma.
pub open spec fn include_lines(data: Seq<u8>, i: int) -> Seq<char>
    decreases data.len() - i,
{
    if i < 0 || i >= data.len() {
        Seq::empty()
    } else {
        let end = if i + 12 < data.len() {
            i + 12
        } else {
            data.len() as int
        };
        "  "@ + join(data.subrange(i, end).map_values(|b: u8| "0x"@ + hex2(b)), ", "@) + (if end
            < data.len() {
            ","@
        } else {
            Seq::empty()
        }) + "\n"@ + include_lines(data, end)
    }
}

/// The dump as a C array named after `name`, with its length.
pub open spec fn spec_include_text(name: Seq<char>, data: Seq<u8>) -> Seq<char> {
    let var = spec_sanitize_name(name);
    "unsigned char "@ + var + "[] = {\n"@ + include_lines(data, 0) + "};\nunsigned int "@ + var
        + "_len = "@ + decimal(data.len()) + ";\n"@
}

/// The text that prints `data` as a C array named after `name`.
pub fn print_include(name: &str, data: &[u8]) -> (r: String)
    ensures
        r@ == spec_include_text(name@, data@),
{
    let var = sanitize_name(name);
    let mut out = to_string("unsigned char ");
    push_str(&mut out, var.as_str());
    push_str(&mut out, "[] = {\n");
    let ghost head = out@;
    let mut i: usize = 0;
    while i < data.len()
        invariant
            i <= data@.len(),
            head + include_lines(data@, 0) == out@ + include_lines(data@, i as int),
        decreases data.len() - i,
    {
        let end = if 12 < data.len() - i {
            i + 12
        } else {
            data.len()
        };
        let ghost before = out@;
        let ghost items = data@.subrange(i as int, end as int).map_values(|b: u8| "0x"@ + hex2(b));
        push_str(&mut out, "  ");
        let ghost mid = out@;
        let mut k = i;
        assert(items.take(0) =~= Seq::<Seq<char>>::empty());
        while k < end
            invariant
                i <= k <= end <= data@.len(),
                items == data@.subrange(i as int, end as int).map_values(|b: u8| "0x"@ + hex2(b)),
                out@ == mid + join(items.take(k - i), ", "@),
            decreases end - k,
        {
            if k > i {
                push_str(&mut out, ", ");
            }
            push_str(&mut out, "0x");
            let h = radix_padded(data[k] as u64, 16, 2);
            push_str(&mut out, h.as_str());
            proof {
                assert(items.take(k - i + 1) =~= items.take(k - i).push(items[k - i]));
                crate::text::lemma_join_push(items.take(k - i), items[k - i], ", "@);
            }
            assert(out@ =~= mid + join(items.take(k - i + 1), ", "@));
            k = k + 1;
        }
        assert(items.take(end - i) =~= items);
        if end < data.len() {
            push_str(&mut out, ",");
        }
        push_str(&mut out, "\n");
        i = end;
    }
    assert(include_lines(data@, i as int) =~= Seq::<char>::empty());
    push_str(&mut out, "};\nunsigned int ");
    push_str(&mut out, var.as_str());
    push_str(&mut out, "_len = ");
    crate::num::push_radix(&mut out, data.len() as u64, 10);
    push_str(&mut out, ";\n");
    out
}

/// The number of panels a terminal fits: a fixed number (at least one), or
/// as many as the width allows, from one to four.
#[derive(Debug, Clone, Copy, PartialEq, Eq, Structural)]
pub enum PanelSetting {
    Fixed(usize),
    Auto,
}

/// The number of panels that a setting gives for a terminal of `width` columns.
pub open spec fn spec_compute_panel_count(
    requested: PanelSetting,
    width: Option<u16>,
    bytes_per_panel: int,
    show_position: bool,
    show_characters: bool,
) -> int {
    match requested {
        PanelSetting::Fixed(n) => if n < 1 {
            1
        } else {
            n as int
        },
        PanelSetting::Auto => {
            let w: int = match width {
                Some(x) => x as int,
                None => 80,
            };
            let overhead: int = if show_position {
                10
            } else {
                1
            };
            let char_width: int = if show_characters {
                bytes_per_panel + 1
            } else {
                0
            };
            let panel_width = bytes_per_panel * 3 + 3 + char_width;
            let room: int = if w > overhead + 2 {
                w - (overhead + 2)
            } else {
                0
            };
            let fit = room / panel_width;
            let m: int = if fit < 1 {
                1
            } else {
                fit
            };
            if m > 4 {
                4
            } else {
                m
            }
        },
    }
}

/// The number of panels to print.
pub fn compute_panel_count(
    requested: PanelSetting,
    terminal_width: Option<u16>,
    bytes_per_panel: usize,
    show_position: bool,
    show_characters: bool,
) -> (r: usize)
    requires
        requested is Auto ==> bytes_per_panel * 3 + 3 + (if show_characters {
            bytes_per_panel + 1
        } else {
            0
        }) <= usize::MAX,
    ensures
        r == spec_compute_panel_count(
            requested,
            terminal_width,
            bytes_per_panel as int,
            show_position,
            show_characters,
        ),
{
    match requested {
        PanelSetting::Fixed(n) => if n < 1 {
            1
        } else {
            n
        },
        PanelSetting::Auto => {
            let width: usize = match terminal_width {
                Some(x) => x as usize,
                None => 80,
            };
            let overhead: usize = if show_position {
                10
            } else {
                1
            };
            let char_width: usize = if show_characters {
                bytes_per_panel + 1
            } else {
                0
            };
            let panel_width = bytes_per_panel * 3 + 3 + char_width;
            let room = width.saturating_sub(overhead + 2);
            let fit = room / panel_width;
            let m = if fit < 1 {
                1
            } else {
                fit
            };
            if m > 4 {
                4
            } else {
                m
            }
        },
    }
}

/// The default number of panels: two.
pub fn default_panel_count(terminal_width: Option<u16>) -> (r: usize)
    ensures
        r == 2,
{
    2
}

/// The number of panels for a binary dump: at most two, and two only when
/// the terminal is wide enough; otherwise as configured.
pub open spec fn spec_effective_panel_count(show_position: bool, panel_count: int, base: DisplayBase, width: Option<u16>) -> int {
    if base == DisplayBase::Binary {
        let w: int = match width {
            Some(x) => x as int,
            None => 80,
        };
        let overhead: int = if show_position {
            11
        } else {
            2
        };
        if w >= overhead + (8 * 9 - 1 + 3 + 18) * 2 {
            let p: int = if panel_count < 1 {
                1
            } else {
                panel_count
            };
            if p > 2 {
                2
            } else {
                p
            }
        } else {
            1
        }
    } else {
        panel_count
    }
}

/// The number of panels that fit the terminal.
pub fn effective_panel_count(cfg: &PrinterConfig, terminal_width: Option<u16>) -> (r: usize)
    ensures
        r == spec_effective_panel_count(cfg.show_position, cfg.panel_count as int, cfg.base, terminal_width),
{
    if cfg.base == DisplayBase::Binary {
        let width: usize = match terminal_width {
            Some(x) => x as usize,
            None => 80,
        };
        let panel_total: usize = 8 * 9 - 1 + 3 + 18;
        let overhead: usize = if cfg.show_position {
            11
        } else {
            2
        };
        if width >= overhead + panel_total * 2 {
            let p = if cfg.panel_count < 1 {
                1
            } else {
                cfg.panel_count
            };
            if p > 2 {
                2
            } else {
                p
            }
        } else {
            1
        }
    } else {
        cfg.panel_count
    }
}


/// The number of groups of `gs` bytes in `bytes` bytes (the last may be shorter).
pub open spec fn group_count(bytes: int, gs: int) -> int {
    bytes / gs + if bytes % gs == 0 {
        0int
    } else {
        1int
    }
}

/// The width of the hex text of a full panel of `bytes` bytes.
pub open spec fn spec_panel_hex_width(bytes: int, c: PrinterConfig) -> int {
    let gs = c.group_size as int;
    let groups = group_count(bytes, gs);
    let gaps: int = if groups > 0 {
        groups - 1
    } else {
        0
    };
    match c.base {
        DisplayBase::Hexadecimal => groups * (gs * 3 - 1) + gaps,
        DisplayBase::Binary => groups * (gs * 8 + gaps),
        _ => bytes * 4 - 1,
    }
}

/// The width of the hex text of a full line: the panels with three spaces
/// between neighbours.
pub open spec fn spec_hex_section_width(c: PrinterConfig) -> int {
    if c.panel_count == 0 {
        0
    } else {
        c.panel_count * spec_panel_hex_width(c.bytes_per_panel as int, c) + 3 * (c.panel_count - 1)
    }
}

/// The column at which the character text starts.
pub open spec fn spec_char_section_start(c: PrinterConfig) -> int {
    (if c.show_position {
        11int
    } else {
        2int
    }) + spec_hex_section_width(c) + 2
}

/// The width of the character text of a full line.
pub open spec fn spec_char_section_width(c: PrinterConfig) -> int {
    c.bytes_per_panel * c.panel_count + if c.panel_count > 0 {
        c.panel_count - 1
    } else {
        0int
    }
}

/// Whether the character text starts at a fixed column: single hexadecimal bytes.
pub open spec fn fixed_char_column(c: PrinterConfig) -> bool {
    c.base == DisplayBase::Hexadecimal && c.group_size == 1
}

/// The width every plain line is padded to, where there is one.
pub open spec fn spec_target_line_width(c: PrinterConfig) -> Option<int> {
    if !fixed_char_column(c) {
        None
    } else if c.show_position {
        Some(
            if c.show_characters {
                80
            } else {
                spec_char_section_start(c)
            },
        )
    } else {
        Some(
            if c.show_characters {
                71
            } else {
                spec_char_section_start(c) - 9
            },
        )
    }
}

/// The width of the lines that mark squeezed output.
pub open spec fn spec_default_line_width(c: PrinterConfig) -> int {
    match spec_target_line_width(c) {
        Some(w) => w,
        None => 80,
    }
}

/// A configuration the printer can lay out: groups, panels and lines that
/// are not empty, and widths that fit a machine word.
pub open spec fn printer_fits(c: PrinterConfig) -> bool {
    &&& c.group_size >= 1
    &&& c.bytes_per_panel >= 1
    &&& c.panel_count >= 1
    &&& spec_char_section_start(c) + spec_char_section_width(c) + 4 * c.bytes_per_panel + 80
        <= usize::MAX
}

/// Room for the offset column where a plain line without offsets and
/// characters is cut back by its width.
pub open spec fn room_for_offset(c: PrinterConfig) -> bool {
    (fixed_char_column(c) && !c.show_position && !c.show_characters) ==> spec_char_section_start(c)
        >= 9
}

proof fn lemma_widths(c: PrinterConfig)
    requires
        printer_fits(c),
    ensures
        spec_panel_hex_width(c.bytes_per_panel as int, c) <= spec_hex_section_width(c),
        0 <= spec_panel_hex_width(c.bytes_per_panel as int, c),
        c.bytes_per_panel * c.panel_count <= spec_char_section_width(c),
        c.bytes_per_panel <= c.bytes_per_panel * c.panel_count,
        group_count(c.bytes_per_panel as int, c.group_size as int) >= 1,
        c.base == DisplayBase::Hexadecimal ==> c.group_size * 3 <= spec_panel_hex_width(
            c.bytes_per_panel as int,
            c,
        ) + 1,
        c.base == DisplayBase::Binary ==> c.group_size * 8 + group_count(
            c.bytes_per_panel as int,
            c.group_size as int,
        ) - 1 <= spec_panel_hex_width(c.bytes_per_panel as int, c),
{
    let gs = c.group_size as int;
    let b = c.bytes_per_panel as int;
    let pc = c.panel_count as int;
    let groups = group_count(b, gs);
    assert(0 <= b / gs) by (nonlinear_arith)
        requires
            gs >= 1,
            b >= 1,
    ;
    assert(b % gs == 0 ==> b / gs >= 1) by (nonlinear_arith)
        requires
            gs >= 1,
            b >= 1,
    ;
    assert(groups >= 1);
    assert(groups * (gs * 3 - 1) >= gs * 3 - 1) by (nonlinear_arith)
        requires
            groups >= 1,
            gs >= 1,
    ;
    assert(groups * (gs * 8 + groups - 1) >= gs * 8 + groups - 1) by (nonlinear_arith)
        requires
            groups >= 1,
            gs >= 1,
    ;
    assert(groups * (gs * 8 + (if groups > 0 {
        groups - 1
    } else {
        0
    })) >= 0) by (nonlinear_arith)
        requires
            groups >= 0,
            gs >= 1,
    ;
    let w = spec_panel_hex_width(b, c);
    assert(w <= pc * w) by (nonlinear_arith)
        requires
            pc >= 1,
            w >= 0,
    ;
    assert(b <= b * pc) by (nonlinear_arith)
        requires
            pc >= 1,
            b >= 0,
    ;
}

fn panel_hex_width(cfg: &PrinterConfig) -> (r: usize)
    requires
        printer_fits(*cfg),
    ensures
        r == spec_panel_hex_width(cfg.bytes_per_panel as int, *cfg),
{
    proof {
        lemma_widths(*cfg);
    }
    let gs = cfg.group_size;
    let bytes = cfg.bytes_per_panel;
    let groups = bytes / gs + if bytes % gs == 0 {
        0
    } else {
        1
    };
    let gaps: usize = if groups > 0 {
        groups - 1
    } else {
        0
    };
    match cfg.base {
        DisplayBase::Hexadecimal => groups * (gs * 3 - 1) + gaps,
        DisplayBase::Binary => groups * (gs * 8 + gaps),
        _ => bytes * 4 - 1,
    }
}

fn hex_section_width(cfg: &PrinterConfig) -> (r: usize)
    requires
        printer_fits(*cfg),
    ensures
        r == spec_hex_section_width(*cfg),
{
    let w = panel_hex_width(cfg);
    cfg.panel_count * w + 3 * (cfg.panel_count - 1)
}

fn char_section_start(cfg: &PrinterConfig) -> (r: usize)
    requires
        printer_fits(*cfg),
    ensures
        r == spec_char_section_start(*cfg),
{
    let h = hex_section_width(cfg);
    if cfg.show_position {
        9 + 2 + h + 2
    } else {
        2 + h + 2
    }
}

fn uses_fixed_char_column(cfg: &PrinterConfig) -> (r: bool)
    ensures
        r == fixed_char_column(*cfg),
{
    cfg.base == DisplayBase::Hexadecimal && cfg.group_size == 1
}

fn target_line_width(cfg: &PrinterConfig) -> (r: Option<usize>)
    requires
        printer_fits(*cfg),
        room_for_offset(*cfg),
    ensures
        match r {
            Some(w) => spec_target_line_width(*cfg) == Some(w as int),
            None => spec_target_line_width(*cfg) is None,
        },
{
    if !uses_fixed_char_column(cfg) {
        return None;
    }
    if cfg.show_position {
        Some(
            if cfg.show_characters {
                80
            } else {
                char_section_start(cfg)
            },
        )
    } else {
        Some(
            if cfg.show_characters {
                71
            } else {
                char_section_start(cfg) - 9
            },
        )
    }
}

fn default_line_width(cfg: &PrinterConfig) -> (r: usize)
    requires
        printer_fits(*cfg),
        room_for_offset(*cfg),
    ensures
        r == spec_default_line_width(*cfg),
{
    match target_line_width(cfg) {
        Some(w) => w,
        None => 80,
    }
}

/// The escape sequence that colors byte `b`: the class color, or under the
/// gradient scheme the byte's own entry of `gradient` (nothing if missing).
pub open spec fn byte_color(c: PrinterConfig, b: u8) -> Seq<char> {
    match spec_color_for_byte(c.colors, b, c.color_scheme) {
        Some(s) => s,
        None => if (b as int) < c.gradient@.len() {
            c.gradient@[b as int]@
        } else {
            Seq::empty()
        },
    }
}

fn push_byte_color(out: &mut String, cfg: &PrinterConfig, b: u8)
    ensures
        final(out)@ == old(out)@ + byte_color(*cfg, b),
{
    match cfg.colors.color_for_byte(b, cfg.color_scheme) {
        Some(s) => {
            push_str(out, s);
            assert(byte_color(*cfg, b) == s@);
        },
        None => {
            assert(spec_color_for_byte(cfg.colors, b, cfg.color_scheme) is None);
            if (b as usize) < cfg.gradient.len() {
                push_str(out, cfg.gradient[b as usize].as_str());
            } else {
                assert(old(out)@ + Seq::<char>::empty() =~= old(out)@);
            }
        },
    }
}

/// Two hexadecimal digits, in the byte's color when colored.
pub open spec fn single_hex(c: PrinterConfig, b: u8, color: bool) -> Seq<char> {
    if color {
        byte_color(c, b) + hex2(b) + c.colors.reset@
    } else {
        hex2(b)
    }
}

fn format_single_hex(b: u8, cfg: &PrinterConfig, use_color: bool) -> (r: String)
    ensures
        r@ == single_hex(*cfg, b, use_color),
{
    let s = radix_padded(b as u64, 16, 2);
    if use_color {
        let mut out = String::new();
        push_byte_color(&mut out, cfg, b);
        push_str(&mut out, s.as_str());
        push_str(&mut out, cfg.colors.reset.as_str());
        out
    } else {
        s
    }
}

/// The big-endian value of `bytes`, kept to 64 bits.
pub open spec fn be_value(bytes: Seq<u8>) -> u64
    decreases bytes.len(),
{
    if bytes.len() == 0 {
        0
    } else {
        (be_value(bytes.drop_last()) << 8u64) | (bytes.last() as u64)
    }
}

/// The value of a group in the given byte order.
pub open spec fn group_value(bytes: Seq<u8>, e: Endianness) -> u64 {
    match e {
        Endianness::Big => be_value(bytes),
        Endianness::Little => be_value(bytes.reverse()),
    }
}

fn grouped_value(group: &[u8], endianness: Endianness) -> (r: u64)
    ensures
        r == group_value(group@, endianness),
{
    let mut value: u64 = 0;
    match endianness {
        Endianness::Big => {
            let mut i: usize = 0;
            while i < group.len()
                invariant
                    i <= group@.len(),
                    value == be_value(group@.take(i as int)),
                decreases group.len() - i,
            {
                assert(group@.take(i + 1).drop_last() =~= group@.take(i as int));
                value = (value << 8) | group[i] as u64;
                i = i + 1;
            }
            assert(group@.take(group@.len() as int) =~= group@);
        },
        Endianness::Little => {
            let mut i: usize = group.len();
            while i > 0
                invariant
                    i <= group@.len(),
                    value == be_value(group@.subrange(i as int, group@.len() as int).reverse()),
                decreases i,
            {
                i = i - 1;
                assert(group@.subrange(i as int, group@.len() as int).reverse().drop_last()
                    =~= group@.subrange(i + 1, group@.len() as int).reverse());
                value = (value << 8) | group[i] as u64;
            }
            assert(group@.subrange(0, group@.len() as int) =~= group@);
        },
    }
    value
}

/// A group's hex text in the color of its first byte (a single byte as a
/// colored byte).
pub open spec fn colored_group(group: Seq<u8>, s: Seq<char>, c: PrinterConfig) -> Seq<char> {
    if group.len() == 1 {
        single_hex(c, group[0], true)
    } else {
        byte_color(c, group[0]) + s + c.colors.reset@
    }
}

fn colorize_group_string(group: &[u8], s: &str, cfg: &PrinterConfig) -> (r: String)
    requires
        group@.len() >= 1,
    ensures
        r@ == colored_group(group@, s@, *cfg),
{
    if group.len() == 1 {
        return format_single_hex(group[0], cfg, true);
    }
    let mut out = String::new();
    push_byte_color(&mut out, cfg, group[0]);
    push_str(&mut out, s);
    push_str(&mut out, cfg.colors.reset.as_str());
    out
}

/// A byte in a base other than hexadecimal, zero-padded: eight binary,
/// three octal or three decimal digits.
pub open spec fn padded_byte(b: u8, base: DisplayBase) -> Seq<char> {
    match base {
        DisplayBase::Binary => pad_left(radix_digits(b as nat, 2), 8, '0'),
        DisplayBase::Octal => pad_left(radix_digits(b as nat, 8), 3, '0'),
        _ => pad_left(radix_digits(b as nat, 10), 3, '0'),
    }
}

/// The text of one group: single hexadecimal bytes separated by spaces; a
/// wider hexadecimal group as one zero-padded number in its byte order,
/// colored by its first byte; other bases byte by byte, separated by spaces.
pub open spec fn spec_format_group(group: Seq<u8>, c: PrinterConfig, color: bool) -> Seq<char> {
    if c.base == DisplayBase::Hexadecimal {
        if c.group_size == 1 {
            join(group.map_values(|b: u8| single_hex(c, b, color)), seq![' '])
        } else {
            let s = pad_left(
                radix_digits(group_value(group, c.endianness) as nat, 16),
                (c.group_size * 2) as nat,
                '0',
            );
            if !color {
                s
            } else {
                colored_group(group, s, c)
            }
        }
    } else {
        join(group.map_values(|b: u8| padded_byte(b, c.base)), seq![' '])
    }
}

fn format_group(group: &[u8], cfg: &PrinterConfig, use_color: bool) -> (r: String)
    requires
        printer_fits(*cfg),
        group@.len() >= 1,
    ensures
        r@ == spec_format_group(group@, *cfg, use_color),
{
    if cfg.base == DisplayBase::Hexadecimal && cfg.group_size != 1 {
        proof {
            lemma_widths(*cfg);
        }
        let value = grouped_value(group, cfg.endianness);
        let s = radix_padded(value, 16, cfg.group_size * 2);
        if !use_color {
            return s;
        }
        return colorize_group_string(group, s.as_str(), cfg);
    }
    let ghost texts = group@.map_values(
        |b: u8|
            if cfg.base == DisplayBase::Hexadecimal {
                single_hex(*cfg, b, use_color)
            } else {
                padded_byte(b, cfg.base)
            },
    );
    let mut out = String::new();
    let mut i: usize = 0;
    assert(texts.take(0) =~= Seq::<Seq<char>>::empty());
    while i < group.len()
        invariant
            i <= group@.len(),
            texts == group@.map_values(
                |b: u8|
                    if cfg.base == DisplayBase::Hexadecimal {
                        single_hex(*cfg, b, use_color)
                    } else {
                        padded_byte(b, cfg.base)
                    },
            ),
            out@ == join(texts.take(i as int), seq![' ']),
        decreases group.len() - i,
    {
        let b = group[i];
        let t = match cfg.base {
            DisplayBase::Hexadecimal => format_single_hex(b, cfg, use_color),
            DisplayBase::Binary => radix_padded(b as u64, 2, 8),
            DisplayBase::Octal => radix_padded(b as u64, 8, 3),
            DisplayBase::Decimal => radix_padded(b as u64, 10, 3),
        };
        if i > 0 {
            push_char(&mut out, ' ');
        }
        push_str(&mut out, t.as_str());
        proof {
            assert(texts.take(i + 1) =~= texts.take(i as int).push(texts[i as int]));
            crate::text::lemma_join_push(texts.take(i as int), texts[i as int], seq![' ']);
        }
        i = i + 1;
    }
    assert(texts.take(group@.len() as int) =~= texts);
    if cfg.base == DisplayBase::Hexadecimal {
        assert(texts =~= group@.map_values(|b: u8| single_hex(*cfg, b, use_color)));
    } else {
        assert(texts =~= group@.map_values(|b: u8| padded_byte(b, cfg.base)));
    }
    out
}

/// The consecutive groups of `bytes` from `i` on, `gs` bytes each (the
/// last may be shorter).
pub open spec fn groups_of(bytes: Seq<u8>, gs: int, i: int) -> Seq<Seq<u8>>
    decreases bytes.len() - i,
{
    if gs <= 0 || i < 0 || i >= bytes.len() {
        Seq::empty()
    } else {
        let end = if i + gs < bytes.len() {
            i + gs
        } else {
            bytes.len() as int
        };
        seq![bytes.subrange(i, end)] + groups_of(bytes, gs, end)
    }
}

/// The hex text of a panel: its groups separated by spaces.
pub open spec fn spec_format_panel_hex(bytes: Seq<u8>, c: PrinterConfig, color: bool) -> Seq<char> {
    join(
        groups_of(bytes, c.group_size as int, 0).map_values(
            |g: Seq<u8>| spec_format_group(g, c, color),
        ),
        seq![' '],
    )
}

fn format_panel_hex(data: &[u8], cfg: &PrinterConfig, use_color: bool) -> (r: String)
    requires
        printer_fits(*cfg),
    ensures
        r@ == spec_format_panel_hex(data@, *cfg, use_color),
{
    let gs = cfg.group_size;
    let ghost all = groups_of(data@, gs as int, 0).map_values(
        |g: Seq<u8>| spec_format_group(g, *cfg, use_color),
    );
    let mut parts: Vec<String> = Vec::new();
    let mut i: usize = 0;
    while i < data.len()
        invariant
            printer_fits(*cfg),
            gs == cfg.group_size,
            i <= data@.len(),
            all == groups_of(data@, gs as int, 0).map_values(
                |g: Seq<u8>| spec_format_group(g, *cfg, use_color),
            ),
            all == views(parts@) + groups_of(data@, gs as int, i as int).map_values(
                |g: Seq<u8>| spec_format_group(g, *cfg, use_color),
            ),
        decreases data.len() - i,
    {
        let end = if gs < data.len() - i {
            i + gs
        } else {
            data.len()
        };
        let group = crate::text::slice_bytes(data, i, end);
        let t = format_group(group.as_slice(), cfg, use_color);
        let ghost before = views(parts@);
        parts.push(t);
        let ghost rest = groups_of(data@, gs as int, end as int);
        assert(groups_of(data@, gs as int, i as int) == seq![group@] + rest);
        assert((seq![group@] + rest).map_values(|g: Seq<u8>| spec_format_group(g, *cfg, use_color))
            =~= seq![spec_format_group(group@, *cfg, use_color)] + rest.map_values(
            |g: Seq<u8>| spec_format_group(g, *cfg, use_color),
        ));
        assert(views(parts@) =~= before.push(t@));
        i = end;
    }
    assert(groups_of(data@, gs as int, i as int) =~= Seq::<Seq<u8>>::empty());
    assert(views(parts@) =~= all);
    let r = crate::text::join_strings(parts.as_slice(), " ");
    proof {
        reveal_strlit(" ");
        assert(" "@ =~= seq![' ']);
    }
    r
}

/// Where panel `p` of a line of `len` bytes ends.
pub open spec fn panel_end(len: int, c: PrinterConfig, p: int) -> int {
    if p * c.bytes_per_panel + c.bytes_per_panel < len {
        p * c.bytes_per_panel + c.bytes_per_panel
    } else {
        len
    }
}

/// The bytes of panel `p` of a line.
pub open spec fn panel_of(data: Seq<u8>, c: PrinterConfig, p: int) -> Seq<u8> {
    data.subrange(p * c.bytes_per_panel, panel_end(data.len() as int, c, p))
}

/// The hex text of a line from panel `p` on: three spaces before every
/// panel but the first, up to the first panel the line does not reach.
pub open spec fn hex_section_from(data: Seq<u8>, c: PrinterConfig, color: bool, p: int) -> Seq<char>
    decreases c.panel_count - p,
{
    if p < 0 || p >= c.panel_count {
        Seq::empty()
    } else {
        let sep = if p > 0 {
            seq![' ', ' ', ' ']
        } else {
            Seq::empty()
        };
        if p * c.bytes_per_panel >= data.len() {
            sep
        } else {
            sep + spec_format_panel_hex(panel_of(data, c, p), c, color) + hex_section_from(
                data,
                c,
                color,
                p + 1,
            )
        }
    }
}

/// The hex text of a line, colored when asked and enabled.
pub open spec fn spec_format_hex_section(data: Seq<u8>, c: PrinterConfig, colorize: bool) -> Seq<char> {
    hex_section_from(data, c, colorize && c.use_color, 0)
}

proof fn lemma_panel_start(p: int, pc: int, bpp: int)
    requires
        0 <= p < pc,
        bpp >= 0,
    ensures
        p * bpp + bpp <= pc * bpp,
        pc * bpp == bpp * pc,
{
    assert(p * bpp + bpp <= pc * bpp) by (nonlinear_arith)
        requires
            0 <= p < pc,
            bpp >= 0,
    ;
    assert(pc * bpp == bpp * pc) by (nonlinear_arith);
}

#[verifier::spinoff_prover]
#[verifier::rlimit(40)]
fn format_hex_section(data: &[u8], cfg: &PrinterConfig, colorize: bool) -> (r: String)
    requires
        printer_fits(*cfg),
    ensures
        r@ == spec_format_hex_section(data@, *cfg, colorize),
{
    proof {
        lemma_widths(*cfg);
    }
    let color = colorize && cfg.use_color;
    let ghost total = hex_section_from(data@, *cfg, color, 0);
    let bpp = cfg.bytes_per_panel;
    let pc = cfg.panel_count;
    let mut out = String::new();
    let mut p: usize = 0;
    let mut done = false;
    while p < pc && !done
        invariant
            printer_fits(*cfg),
            bpp == cfg.bytes_per_panel,
            pc == cfg.panel_count,
            bpp * pc <= usize::MAX,
            p <= pc,
            total == hex_section_from(data@, *cfg, color, 0),
            done ==> out@ == total,
            !done ==> total == out@ + hex_section_from(data@, *cfg, color, p as int),
        decreases pc - p,
    {
        let ghost before = out@;
        if p > 0 {
            push_char(&mut out, ' ');
            push_char(&mut out, ' ');
            push_char(&mut out, ' ');
        }
        assert(out@ =~= before + (if p > 0 {
            seq![' ', ' ', ' ']
        } else {
            Seq::empty()
        }));
        proof {
            lemma_panel_start(p as int, pc as int, bpp as int);
        }
        let start = p * bpp;
        if start >= data.len() {
            done = true;
        } else {
            let end = if bpp < data.len() - start {
                start + bpp
            } else {
                data.len()
            };
            let panel = crate::text::slice_bytes(data, start, end);
            assert(panel@ == panel_of(data@, *cfg, p as int));
            let t = format_panel_hex(panel.as_slice(), cfg, color);
            push_str(&mut out, t.as_str());
        }
        p = p + 1;
    }
    out
}

/// The text shown for byte `b` in the character column, colored when asked.
pub open spec fn char_cell(c: PrinterConfig, b: u8, color: bool) -> Seq<char> {
    if color {
        byte_color(c, b) + seq![spec_map(c.character_table, b)] + c.colors.reset@
    } else {
        seq![spec_map(c.character_table, b)]
    }
}

/// The character text of a line from panel `p` on: a space before every
/// panel but the first, each panel padded with spaces to a full panel, up to
/// the first panel the line does not reach.
pub open spec fn char_section_from(data: Seq<u8>, c: PrinterConfig, color: bool, p: int) -> Seq<char>
    decreases c.panel_count - p,
{
    if p < 0 || p >= c.panel_count {
        Seq::empty()
    } else {
        let sep = if p > 0 {
            seq![' ']
        } else {
            Seq::empty()
        };
        if p * c.bytes_per_panel >= data.len() {
            sep
        } else {
            let bytes = panel_of(data, c, p);
            sep + concat(bytes.map_values(|b: u8| char_cell(c, b, color))) + rep(
                ' ',
                c.bytes_per_panel - bytes.len(),
            ) + char_section_from(data, c, color, p + 1)
        }
    }
}

/// The character text of a line, colored when asked and enabled.
pub open spec fn spec_format_char_section(data: Seq<u8>, c: PrinterConfig, colorize: bool) -> Seq<char> {
    char_section_from(data, c, colorize && c.use_color, 0)
}

fn push_spaces(out: &mut String, n: usize)
    ensures
        final(out)@ == old(out)@ + rep(' ', n as int),
{
    let mut i: usize = 0;
    while i < n
        invariant
            i <= n,
            out@ == old(out)@ + rep(' ', i as int),
        decreases n - i,
    {
        push_char(out, ' ');
        assert(old(out)@ + rep(' ', i + 1) =~= (old(out)@ + rep(' ', i as int)).push(' '));
        i = i + 1;
    }
}

fn push_char_cells(out: &mut String, bytes: &[u8], cfg: &PrinterConfig, color: bool)
    ensures
        final(out)@ == old(out)@ + concat(bytes@.map_values(|b: u8| char_cell(*cfg, b, color))),
{
    let ghost cells = bytes@.map_values(|b: u8| char_cell(*cfg, b, color));
    let mut i: usize = 0;
    assert(cells.take(0) =~= Seq::<Seq<char>>::empty());
    while i < bytes.len()
        invariant
            i <= bytes@.len(),
            cells == bytes@.map_values(|b: u8| char_cell(*cfg, b, color)),
            out@ == old(out)@ + concat(cells.take(i as int)),
        decreases bytes.len() - i,
    {
        let b = bytes[i];
        let ch = cfg.character_table.map(b);
        let ghost before = out@;
        if color {
            push_byte_color(out, cfg, b);
            push_char(out, ch);
            push_str(out, cfg.colors.reset.as_str());
        } else {
            push_char(out, ch);
        }
        assert(out@ =~= before + cells[i as int]);
        proof {
            assert(cells.take(i + 1) =~= cells.take(i as int).push(cells[i as int]));
            crate::text::lemma_concat_push(cells.take(i as int), cells[i as int]);
        }
        i = i + 1;
    }
    assert(cells.take(bytes@.len() as int) =~= cells);
}

#[verifier::spinoff_prover]
#[verifier::rlimit(40)]
fn format_char_section(data: &[u8], cfg: &PrinterConfig, colorize: bool) -> (r: String)
    requires
        printer_fits(*cfg),
    ensures
        r@ == spec_format_char_section(data@, *cfg, colorize),
{
    proof {
        lemma_widths(*cfg);
    }
    let color = colorize && cfg.use_color;
    let ghost total = char_section_from(data@, *cfg, color, 0);
    let bpp = cfg.bytes_per_panel;
    let pc = cfg.panel_count;
    let mut out = String::new();
    let mut p: usize = 0;
    let mut done = false;
    while p < pc && !done
        invariant
            printer_fits(*cfg),
            bpp == cfg.bytes_per_panel,
            pc == cfg.panel_count,
            bpp * pc <= usize::MAX,
            p <= pc,
            total == char_section_from(data@, *cfg, color, 0),
            done ==> out@ == total,
            !done ==> total == out@ + char_section_from(data@, *cfg, color, p as int),
        decreases pc - p,
    {
        let ghost before = out@;
        if p > 0 {
            push_char(&mut out, ' ');
        }
        assert(out@ =~= before + (if p > 0 {
            seq![' ']
        } else {
            Seq::empty()
        }));
        proof {
            lemma_panel_start(p as int, pc as int, bpp as int);
        }
        let start = p * bpp;
        if start >= data.len() {
            done = true;
        } else {
            let end = if bpp < data.len() - start {
                start + bpp
            } else {
                data.len()
            };
            let panel = crate::text::slice_bytes(data, start, end);
            assert(panel@ == panel_of(data@, *cfg, p as int));
            push_char_cells(&mut out, panel.as_slice(), cfg, color);
            push_spaces(&mut out, bpp - (end - start));
        }
        p = p + 1;
    }
    out
}

/// The offset column: a space and the offset in (at least) eight
/// hexadecimal digits.
pub open spec fn offset_text(off: u64) -> Seq<char> {
    seq![' '] + hex8(off)
}

/// The start of a line: the offset column (in the offset color when
/// colored) and two spaces, or two spaces alone.
pub open spec fn line_head(off: u64, c: PrinterConfig, colored: bool) -> Seq<char> {
    if c.show_position {
        (if colored && c.use_color {
            c.colors.offset@ + offset_text(off) + c.colors.reset@
        } else {
            offset_text(off)
        }) + seq![' ', ' ']
    } else {
        seq![' ', ' ']
    }
}

/// The plain start of a line and its hex text.
pub open spec fn plain_front(chunk: Seq<u8>, off: u64, c: PrinterConfig) -> Seq<char> {
    line_head(off, c, false) + spec_format_hex_section(chunk, c, false)
}

/// The column at which the character text of a line starts: fixed for
/// single hexadecimal bytes, else two past the plain hex text.
pub open spec fn char_target(chunk: Seq<u8>, off: u64, c: PrinterConfig) -> int {
    if fixed_char_column(c) {
        spec_char_section_start(c)
    } else {
        plain_front(chunk, off, c).len() + 2int
    }
}

/// The end of a line: padded to the target width, or one space after
/// character text where there is no target.
pub open spec fn line_end(s: Seq<char>, c: PrinterConfig) -> Seq<char> {
    match spec_target_line_width(c) {
        Some(w) => pad_right(s, w),
        None => if c.show_characters {
            s.push(' ')
        } else {
            s
        },
    }
}

/// A whole line, plain or colored: the start, the hex text, then the
/// character text from its column (or padding to that column), then the end.
pub open spec fn spec_line_body(chunk: Seq<u8>, off: u64, c: PrinterConfig, colored: bool) -> Seq<char> {
    let front = line_head(off, c, colored) + spec_format_hex_section(chunk, c, colored);
    let mid = if c.show_characters {
        pad_right(front, char_target(chunk, off, c)) + spec_format_char_section(chunk, c, colored)
    } else {
        pad_right(front, spec_char_section_start(c))
    };
    line_end(mid, c)
}

/// The part of a plain line that decides whether it repeats the previous
/// one: all but the offset column.
pub open spec fn spec_squeeze_key(chunk: Seq<u8>, off: u64, c: PrinterConfig) -> Seq<char> {
    spec_line_body(chunk, off, c, false).skip(
        if c.show_position {
            11
        } else {
            2
        },
    )
}

fn pad_string(s: &mut String, w: usize)
    ensures
        final(s)@ == pad_right(old(s)@, w as int),
{
    let len = s.as_str().unicode_len();
    if len < w {
        push_spaces(s, w - len);
    }
}

proof fn lemma_rep_add(a: int, b: int)
    requires
        a >= 0,
        b >= 0,
    ensures
        rep(' ', a) + rep(' ', b) == rep(' ', a + b),
{
    assert(rep(' ', a) + rep(' ', b) =~= rep(' ', a + b));
}

/// Pads to `base + extra` characters without forming the sum.
fn pad_string_plus(s: &mut String, base: usize, extra: usize)
    ensures
        final(s)@ == pad_right(old(s)@, base + extra),
{
    let len = s.as_str().unicode_len();
    if len <= base {
        push_spaces(s, base - len);
        push_spaces(s, extra);
        proof {
            lemma_rep_add((base - len) as int, extra as int);
            assert(old(s)@ + rep(' ', (base - len) as int) + rep(' ', extra as int) =~= old(s)@ + (
            rep(' ', (base - len) as int) + rep(' ', extra as int)));
        }
    } else if len - base < extra {
        push_spaces(s, extra - (len - base));
    }
}

fn pad_line_end(s: &mut String, cfg: &PrinterConfig)
    requires
        printer_fits(*cfg),
        room_for_offset(*cfg),
    ensures
        final(s)@ == line_end(old(s)@, *cfg),
{
    match target_line_width(cfg) {
        Some(w) => pad_string(s, w),
        None => {
            if cfg.show_characters {
                push_char(s, ' ');
            }
        },
    }
}

fn push_line_head(out: &mut String, offset: u64, cfg: &PrinterConfig, colored: bool)
    ensures
        final(out)@ == old(out)@ + line_head(offset, *cfg, colored),
{
    if cfg.show_position {
        if colored && cfg.use_color {
            push_str(out, cfg.colors.offset.as_str());
        }
        push_char(out, ' ');
        let h = radix_padded(offset, 16, 8);
        push_str(out, h.as_str());
        if colored && cfg.use_color {
            push_str(out, cfg.colors.reset.as_str());
        }
    }
    push_char(out, ' ');
    push_char(out, ' ');
    assert(final(out)@ =~= old(out)@ + line_head(offset, *cfg, colored));
}

fn format_line(chunk: &[u8], offset: u64, cfg: &PrinterConfig) -> (r: LineContent)
    requires
        printer_fits(*cfg),
        room_for_offset(*cfg),
    ensures
        r.offset == offset,
        r.bytes@ == chunk@,
        r.plain_body@ == spec_line_body(chunk@, offset, *cfg, false),
        r.colored_body@ == spec_line_body(chunk@, offset, *cfg, true),
        r.squeeze_key@ == spec_squeeze_key(chunk@, offset, *cfg),
{
    let mut plain = String::new();
    let mut colored = String::new();
    push_line_head(&mut plain, offset, cfg, false);
    push_line_head(&mut colored, offset, cfg, true);
    let hex_plain = format_hex_section(chunk, cfg, false);
    let hex_colored = format_hex_section(chunk, cfg, true);
    push_str(&mut plain, hex_plain.as_str());
    push_str(&mut colored, hex_colored.as_str());
    assert(plain@ =~= plain_front(chunk@, offset, *cfg));
    if cfg.show_characters {
        if uses_fixed_char_column(cfg) {
            let target = char_section_start(cfg);
            pad_string(&mut plain, target);
            pad_string(&mut colored, target);
        } else {
            let width = plain.as_str().unicode_len();
            pad_string_plus(&mut plain, width, 2);
            pad_string_plus(&mut colored, width, 2);
        }
        let chars_plain = format_char_section(chunk, cfg, false);
        let chars_colored = format_char_section(chunk, cfg, true);
        push_str(&mut plain, chars_plain.as_str());
        push_str(&mut colored, chars_colored.as_str());
    } else {
        let target = char_section_start(cfg);
        pad_string(&mut plain, target);
        pad_string(&mut colored, target);
    }
    pad_line_end(&mut plain, cfg);
    pad_line_end(&mut colored, cfg);
    assert(plain@ == spec_line_body(chunk@, offset, *cfg, false));
    assert(colored@ == spec_line_body(chunk@, offset, *cfg, true));
    let from: usize = if cfg.show_position {
        11
    } else {
        2
    };
    let cs = crate::text::chars_of(plain.as_str());
    assert(cs@.len() >= from);
    let key = crate::text::string_of_range(cs.as_slice(), from, cs.len());
    assert(cs@.subrange(from as int, cs@.len() as int) =~= cs@.skip(from as int));
    LineContent {
        offset,
        bytes: crate::text::slice_bytes(chunk, 0, chunk.len()),
        plain_body: plain,
        colored_body: colored,
        squeeze_key: key,
    }
}

/// The bytes per line as an integer.
pub open spec fn line_bytes(c: PrinterConfig) -> int {
    c.bytes_per_panel * c.panel_count
}

/// Where the line starting at byte `off` ends.
pub open spec fn line_end_at(len: int, c: PrinterConfig, off: int) -> int {
    if off + line_bytes(c) < len {
        off + line_bytes(c)
    } else {
        len
    }
}

/// The offset shown for the line starting at byte `off`.
pub open spec fn shown_offset(c: PrinterConfig, off: int) -> u64 {
    (c.display_offset + off) as u64
}

/// A printed line: colored or plain, with a line break.
pub open spec fn shown_line(chunk: Seq<u8>, off: u64, c: PrinterConfig) -> Seq<char> {
    spec_line_body(chunk, off, c, c.use_color).push('\n')
}

/// The line that stands for squeezed lines: ` *` padded to the line width.
pub open spec fn star_line(c: PrinterConfig) -> Seq<char> {
    pad_right(seq![' ', '*'], spec_default_line_width(c)).push('\n')
}

/// The line after squeezed lines at the end: the end offset padded to the
/// line width, where offsets are shown.
pub open spec fn end_line(end_off: u64, c: PrinterConfig) -> Seq<char> {
    if c.show_position {
        pad_right(offset_text(end_off), spec_default_line_width(c)).push('\n')
    } else {
        Seq::empty()
    }
}

/// The output of the plain layout from byte `off` on, given the key of the
/// last printed line and whether repeats of it are being skipped: a line
/// that repeats the last printed one is skipped, a star line marks where
/// skipping ends, and skipping that lasts to the end also shows the end
/// offset.
pub open spec fn plain_from(data: Seq<u8>, c: PrinterConfig, off: int, prev: Option<Seq<char>>, skipping: bool) -> Seq<char>
    decreases data.len() - off,
{
    if off < 0 || off >= data.len() || line_bytes(c) <= 0 {
        if c.squeeze && skipping {
            star_line(c) + end_line((c.display_offset + data.len()) as u64, c)
        } else {
            Seq::empty()
        }
    } else {
        let end = line_end_at(data.len() as int, c, off);
        let chunk = data.subrange(off, end);
        let o = shown_offset(c, off);
        let key = spec_squeeze_key(chunk, o, c);
        if c.squeeze {
            if prev == Some(key) {
                plain_from(data, c, end, prev, true)
            } else {
                (if skipping {
                    star_line(c)
                } else {
                    Seq::empty()
                }) + shown_line(chunk, o, c) + plain_from(data, c, end, Some(key), false)
            }
        } else {
            shown_line(chunk, o, c) + plain_from(data, c, end, prev, skipping)
        }
    }
}

/// The plain layout of `data`.
pub open spec fn spec_print_plain(data: Seq<u8>, c: PrinterConfig) -> Seq<char> {
    plain_from(data, c, 0, None, false)
}

/// The offsets of `data` fit the offset type.
pub open spec fn offsets_fit(data: Seq<u8>, c: PrinterConfig) -> bool {
    c.display_offset + data.len() <= u64::MAX
}

fn push_star_line(out: &mut String, cfg: &PrinterConfig)
    requires
        printer_fits(*cfg),
        room_for_offset(*cfg),
    ensures
        final(out)@ == old(out)@ + star_line(*cfg),
{
    let mut line = String::new();
    push_char(&mut line, ' ');
    push_char(&mut line, '*');
    assert(line@ =~= seq![' ', '*']);
    pad_string(&mut line, default_line_width(cfg));
    push_char(&mut line, '\n');
    push_str(out, line.as_str());
}

fn push_end_line(out: &mut String, end_offset: u64, cfg: &PrinterConfig)
    requires
        printer_fits(*cfg),
        room_for_offset(*cfg),
    ensures
        final(out)@ == old(out)@ + end_line(end_offset, *cfg),
{
    if !cfg.show_position {
        assert(old(out)@ + Seq::<char>::empty() =~= old(out)@);
        return;
    }
    let mut line = String::new();
    push_char(&mut line, ' ');
    let h = radix_padded(end_offset, 16, 8);
    push_str(&mut line, h.as_str());
    assert(line@ =~= offset_text(end_offset));
    pad_string(&mut line, default_line_width(cfg));
    push_char(&mut line, '\n');
    push_str(out, line.as_str());
}

fn push_shown_line(out: &mut String, line: &LineContent, cfg: &PrinterConfig)
    ensures
        final(out)@ == old(out)@ + (if cfg.use_color {
            line.colored_body@
        } else {
            line.plain_body@
        }).push('\n'),
{
    if cfg.use_color {
        push_str(out, line.colored_body.as_str());
    } else {
        push_str(out, line.plain_body.as_str());
    }
    push_char(out, '\n');
}

/// The view of an optional string.
pub open spec fn opt_view(o: Option<String>) -> Option<Seq<char>> {
    match o {
        Some(s) => Some(s@),
        None => None,
    }
}

#[verifier::spinoff_prover]
#[verifier::rlimit(40)]
fn print_plain_layout(data: &[u8], cfg: &PrinterConfig) -> (r: String)
    requires
        data@.len() == 0 || printer_fits(*cfg) && room_for_offset(*cfg),
        offsets_fit(data@, *cfg),
    ensures
        r@ == spec_print_plain(data@, *cfg),
{
    if data.len() == 0 {
        return String::new();
    }
    proof {
        lemma_widths(*cfg);
        lemma_panel_start(0, cfg.panel_count as int, cfg.bytes_per_panel as int);
    }
    let bpl = cfg.bytes_per_panel * cfg.panel_count;
    let ghost total = spec_print_plain(data@, *cfg);
    let mut out = String::new();
    let mut prev: Option<String> = None;
    let mut skipping = false;
    let mut offset: usize = 0;
    while offset < data.len()
        invariant
            printer_fits(*cfg),
            room_for_offset(*cfg),
            offsets_fit(data@, *cfg),
            bpl == line_bytes(*cfg),
            bpl >= 1,
            offset <= data@.len(),
            total == spec_print_plain(data@, *cfg),
            total == out@ + plain_from(data@, *cfg, offset as int, opt_view(prev), skipping),
            !cfg.squeeze ==> !skipping,
        decreases data.len() - offset,
    {
        let end = if bpl < data.len() - offset {
            offset + bpl
        } else {
            data.len()
        };
        let chunk = crate::text::slice_bytes(data, offset, end);
        let line_offset = cfg.display_offset + offset as u64;
        let line = format_line(chunk.as_slice(), line_offset, cfg);
        let ghost before = out@;
        if cfg.squeeze {
            let same = match &prev {
                Some(p) => str_eq(p.as_str(), line.squeeze_key.as_str()),
                None => false,
            };
            if same {
                skipping = true;
            } else {
                if skipping {
                    push_star_line(&mut out, cfg);
                    skipping = false;
                }
                push_shown_line(&mut out, &line, cfg);
                let key = line.squeeze_key;
                let ghost kv = key@;
                prev = Some(key);
                assert(opt_view(prev) == Some(kv));
            }
        } else {
            push_shown_line(&mut out, &line, cfg);
        }
        offset = end;
    }
    if cfg.squeeze && skipping {
        push_star_line(&mut out, cfg);
        push_end_line(&mut out, cfg.display_offset + data.len() as u64, cfg);
    }
    assert(out@ =~= total);
    out
}

/// The kind of a bordered row.
#[derive(Debug, Clone, Copy, PartialEq, Eq, Structural)]
pub enum BorderRowKind {
    Data,
    SqueezeStar,
    SqueezeEnd,
}

/// A row of the bordered layout: its offset, its padded panels and the text
/// that decides whether it repeats the previous row.
struct BorderRow {
    offset: u64,
    hex_panels: Vec<String>,
    char_panels: Vec<String>,
    squeeze_key: String,
    kind: BorderRowKind,
}

/// The content of a bordered row.
pub struct BorderRowView {
    pub offset: u64,
    pub hex_panels: Seq<Seq<char>>,
    pub char_panels: Seq<Seq<char>>,
    pub key: Seq<char>,
    pub kind: BorderRowKind,
}

impl View for BorderRow {
    type V = BorderRowView;

    closed spec fn view(&self) -> BorderRowView {
        BorderRowView {
            offset: self.offset,
            hex_panels: views(self.hex_panels@),
            char_panels: views(self.char_panels@),
            key: self.squeeze_key@,
            kind: self.kind,
        }
    }
}

/// `s` made exactly `w` characters wide: padded with spaces, or cut.
pub open spec fn pad_field(s: Seq<char>, w: int) -> Seq<char> {
    if s.len() > w {
        s.take(w)
    } else {
        pad_right(s, w)
    }
}

/// The hex cell of panel `p` of a bordered row: the panel's hex text between
/// spaces, made as wide as a full panel.
pub open spec fn border_hex_cell(chunk: Seq<u8>, c: PrinterConfig, p: int) -> Seq<char> {
    let content = if p * c.bytes_per_panel >= chunk.len() {
        Seq::empty()
    } else {
        spec_format_panel_hex(panel_of(chunk, c, p), c, false)
    };
    pad_field(seq![' '] + content + seq![' '], c.bytes_per_panel * 3 + 1)
}

/// The character cell of panel `p` of a bordered row, as wide as a panel.
pub open spec fn border_char_cell(chunk: Seq<u8>, c: PrinterConfig, p: int) -> Seq<char> {
    let content = if p * c.bytes_per_panel >= chunk.len() {
        Seq::empty()
    } else {
        panel_of(chunk, c, p).map_values(|b: u8| spec_map(c.character_table, b))
    };
    pad_field(content, c.bytes_per_panel as int)
}

/// The data row for a chunk: all hex cells, the character cells when shown,
/// and as key the cells joined by `|`.
pub open spec fn spec_border_row(chunk: Seq<u8>, off: u64, c: PrinterConfig) -> BorderRowView {
    let hex = Seq::new(c.panel_count as nat, |p: int| border_hex_cell(chunk, c, p));
    let chars = if c.show_characters {
        Seq::new(c.panel_count as nat, |p: int| border_char_cell(chunk, c, p))
    } else {
        Seq::empty()
    };
    BorderRowView {
        offset: off,
        hex_panels: hex,
        char_panels: chars,
        key: join(hex, seq!['|']) + seq!['|'] + join(chars, seq!['|']),
        kind: BorderRowKind::Data,
    }
}

/// The row that marks squeezed rows.
pub open spec fn star_row() -> BorderRowView {
    BorderRowView {
        offset: 0,
        hex_panels: Seq::empty(),
        char_panels: Seq::empty(),
        key: seq!['*'],
        kind: BorderRowKind::SqueezeStar,
    }
}

/// The row that shows the end offset after squeezed rows.
pub open spec fn end_row(off: u64) -> BorderRowView {
    BorderRowView {
        offset: off,
        hex_panels: Seq::empty(),
        char_panels: Seq::empty(),
        key: Seq::empty(),
        kind: BorderRowKind::SqueezeEnd,
    }
}

/// The rows of the bordered layout from byte `off` on, squeezed as in the
/// plain layout.
pub open spec fn border_rows_from(data: Seq<u8>, c: PrinterConfig, off: int, prev: Option<Seq<char>>, skipping: bool) -> Seq<BorderRowView>
    decreases data.len() - off,
{
    if off < 0 || off >= data.len() || line_bytes(c) <= 0 {
        if c.squeeze && skipping {
            seq![star_row(), end_row((c.display_offset + data.len()) as u64)]
        } else {
            Seq::empty()
        }
    } else {
        let end = line_end_at(data.len() as int, c, off);
        let row = spec_border_row(data.subrange(off, end), shown_offset(c, off), c);
        if c.squeeze {
            if prev == Some(row.key) {
                border_rows_from(data, c, end, prev, true)
            } else {
                (if skipping {
                    seq![star_row()]
                } else {
                    Seq::empty()
                }) + seq![row] + border_rows_from(data, c, end, Some(row.key), false)
            }
        } else {
            seq![row] + border_rows_from(data, c, end, prev, skipping)
        }
    }
}

fn pad_field_string(s: String, w: usize) -> (r: String)
    ensures
        r@ == pad_field(s@, w as int),
{
    let len = s.as_str().unicode_len();
    if len > w {
        let cs = crate::text::chars_of(s.as_str());
        let r = crate::text::string_of_range(cs.as_slice(), 0, w);
        assert(cs@.subrange(0, w as int) =~= s@.take(w as int));
        r
    } else {
        let mut r = s;
        pad_string(&mut r, w);
        r
    }
}

fn build_border_row(chunk: &[u8], offset: u64, cfg: &PrinterConfig) -> (r: BorderRow)
    requires
        printer_fits(*cfg),
    ensures
        r@ == spec_border_row(chunk@, offset, *cfg),
{
    proof {
        lemma_widths(*cfg);
    }
    let bpp = cfg.bytes_per_panel;
    let pc = cfg.panel_count;
    let ghost row = spec_border_row(chunk@, offset, *cfg);
    let mut hex_panels: Vec<String> = Vec::new();
    let mut p: usize = 0;
    while p < pc
        invariant
            printer_fits(*cfg),
            bpp == cfg.bytes_per_panel,
            pc == cfg.panel_count,
            bpp * pc <= usize::MAX,
            bpp * 3 + 1 <= usize::MAX,
            p <= pc,
            row == spec_border_row(chunk@, offset, *cfg),
            views(hex_panels@) =~= row.hex_panels.take(p as int),
        decreases pc - p,
    {
        proof {
            lemma_panel_start(p as int, pc as int, bpp as int);
        }
        let start = p * bpp;
        let mut cell = String::new();
        push_char(&mut cell, ' ');
        if start < chunk.len() {
            let end = if bpp < chunk.len() - start {
                start + bpp
            } else {
                chunk.len()
            };
            let panel = crate::text::slice_bytes(chunk, start, end);
            assert(panel@ == panel_of(chunk@, *cfg, p as int));
            let t = format_panel_hex(panel.as_slice(), cfg, false);
            push_str(&mut cell, t.as_str());
        }
        push_char(&mut cell, ' ');
        let cell = pad_field_string(cell, bpp * 3 + 1);
        assert(cell@ == border_hex_cell(chunk@, *cfg, p as int));
        let ghost before = views(hex_panels@);
        hex_panels.push(cell);
        assert(views(hex_panels@) =~= before.push(cell@));
        p = p + 1;
    }
    let mut char_panels: Vec<String> = Vec::new();
    if cfg.show_characters {
        let mut p: usize = 0;
        while p < pc
            invariant
                printer_fits(*cfg),
                cfg.show_characters,
                bpp == cfg.bytes_per_panel,
                pc == cfg.panel_count,
                bpp * pc <= usize::MAX,
                p <= pc,
                row == spec_border_row(chunk@, offset, *cfg),
                views(char_panels@) =~= row.char_panels.take(p as int),
            decreases pc - p,
        {
            proof {
                lemma_panel_start(p as int, pc as int, bpp as int);
            }
            let start = p * bpp;
            let mut cell = String::new();
            let ghost mut content: Seq<char> = Seq::empty();
            if start < chunk.len() {
                let end = if bpp < chunk.len() - start {
                    start + bpp
                } else {
                    chunk.len()
                };
                let mut k = start;
                while k < end
                    invariant
                        start <= k <= end <= chunk@.len(),
                        cell@ == chunk@.subrange(start as int, k as int).map_values(
                            |b: u8| spec_map(cfg.character_table, b),
                        ),
                    decreases end - k,
                {
                    push_char(&mut cell, cfg.character_table.map(chunk[k]));
                    assert(chunk@.subrange(start as int, k + 1).map_values(
                        |b: u8| spec_map(cfg.character_table, b),
                    ) =~= chunk@.subrange(start as int, k as int).map_values(
                        |b: u8| spec_map(cfg.character_table, b),
                    ).push(spec_map(cfg.character_table, chunk@[k as int])));
                    k = k + 1;
                }
                assert(chunk@.subrange(start as int, end as int) == panel_of(chunk@, *cfg, p as int));
            }
            let cell = pad_field_string(cell, bpp);
            assert(cell@ == border_char_cell(chunk@, *cfg, p as int));
            let ghost before = views(char_panels@);
            char_panels.push(cell);
            assert(views(char_panels@) =~= before.push(cell@));
            p = p + 1;
        }
    }
    assert(views(hex_panels@) =~= row.hex_panels);
    assert(views(char_panels@) =~= row.char_panels);
    let mut key = crate::text::join_strings(hex_panels.as_slice(), "|");
    push_char(&mut key, '|');
    let tail = crate::text::join_strings(char_panels.as_slice(), "|");
    push_str(&mut key, tail.as_str());
    proof {
        reveal_strlit("|");
        assert("|"@ =~= seq!['|']);
    }
    assert(key@ == row.key);
    let r = BorderRow { offset, hex_panels, char_panels, squeeze_key: key, kind: BorderRowKind::Data };
    assert(r@.hex_panels == row.hex_panels);
    assert(r@.char_panels == row.char_panels);
    assert(r@.key == row.key);
    r
}

impl BorderRow {
    fn squeeze_star() -> (r: Self)
        ensures
            r@ == star_row(),
    {
        let mut key = String::new();
        push_char(&mut key, '*');
        let r = BorderRow {
            offset: 0,
            hex_panels: Vec::new(),
            char_panels: Vec::new(),
            squeeze_key: key,
            kind: BorderRowKind::SqueezeStar,
        };
        assert(r@.hex_panels =~= Seq::<Seq<char>>::empty());
        assert(r@.char_panels =~= Seq::<Seq<char>>::empty());
        assert(r@.key =~= seq!['*']);
        r
    }

    fn squeeze_end(offset: u64) -> (r: Self)
        ensures
            r@ == end_row(offset),
    {
        let r = BorderRow {
            offset,
            hex_panels: Vec::new(),
            char_panels: Vec::new(),
            squeeze_key: String::new(),
            kind: BorderRowKind::SqueezeEnd,
        };
        assert(r@.hex_panels =~= Seq::<Seq<char>>::empty());
        assert(r@.char_panels =~= Seq::<Seq<char>>::empty());
        r
    }
}

spec fn row_views(rows: Seq<BorderRow>) -> Seq<BorderRowView> {
    rows.map_values(|r: BorderRow| r@)
}

/// The rows of the bordered layout of `data`.
pub open spec fn spec_border_rows(data: Seq<u8>, c: PrinterConfig) -> Seq<BorderRowView> {
    border_rows_from(data, c, 0, None, false)
}

#[verifier::spinoff_prover]
#[verifier::rlimit(40)]
fn border_rows(data: &[u8], cfg: &PrinterConfig) -> (r: Vec<BorderRow>)
    requires
        data@.len() == 0 || printer_fits(*cfg),
        offsets_fit(data@, *cfg),
    ensures
        row_views(r@) == spec_border_rows(data@, *cfg),
{
    let mut rows: Vec<BorderRow> = Vec::new();
    if data.len() == 0 {
        assert(row_views(rows@) =~= Seq::<BorderRowView>::empty());
        return rows;
    }
    proof {
        lemma_widths(*cfg);
        lemma_panel_start(0, cfg.panel_count as int, cfg.bytes_per_panel as int);
    }
    let bpl = cfg.bytes_per_panel * cfg.panel_count;
    let ghost total = spec_border_rows(data@, *cfg);
    let mut prev: Option<String> = None;
    let mut skipping = false;
    let mut offset: usize = 0;
    assert(row_views(rows@) =~= Seq::<BorderRowView>::empty());
    while offset < data.len()
        invariant
            printer_fits(*cfg),
            offsets_fit(data@, *cfg),
            bpl == line_bytes(*cfg),
            bpl >= 1,
            offset <= data@.len(),
            total == spec_border_rows(data@, *cfg),
            total == row_views(rows@) + border_rows_from(
                data@,
                *cfg,
                offset as int,
                opt_view(prev),
                skipping,
            ),
            !cfg.squeeze ==> !skipping,
        decreases data.len() - offset,
    {
        let end = if bpl < data.len() - offset {
            offset + bpl
        } else {
            data.len()
        };
        let chunk = crate::text::slice_bytes(data, offset, end);
        let line_offset = cfg.display_offset + offset as u64;
        let row = build_border_row(chunk.as_slice(), line_offset, cfg);
        let ghost rv = row@;
        let ghost before = row_views(rows@);
        if cfg.squeeze {
            let same = match &prev {
                Some(p) => str_eq(p.as_str(), row.squeeze_key.as_str()),
                None => false,
            };
            if same {
                skipping = true;
                offset = end;
                continue;
            }
            if skipping {
                let star = BorderRow::squeeze_star();
                rows.push(star);
                assert(row_views(rows@) =~= before.push(star_row()));
                skipping = false;
            }
            let ghost mid = row_views(rows@);
            let key = crate::text::to_string(row.squeeze_key.as_str());
            let ghost kv = key@;
            prev = Some(key);
            assert(opt_view(prev) == Some(kv));
            rows.push(row);
            assert(row_views(rows@) =~= mid.push(rv));
        } else {
            rows.push(row);
            assert(row_views(rows@) =~= before.push(rv));
        }
        offset = end;
    }
    if cfg.squeeze && skipping {
        let ghost before = row_views(rows@);
        rows.push(BorderRow::squeeze_star());
        rows.push(BorderRow::squeeze_end(cfg.display_offset + data.len() as u64));
        assert(row_views(rows@) =~= before + seq![
            star_row(),
            end_row((cfg.display_offset + data@.len()) as u64),
        ]);
    }
    assert(row_views(rows@) =~= total);
    rows
}

/// The vertical bar of a frame.
pub open spec fn vbar(style: BorderStyle) -> char {
    if style == BorderStyle::Unicode {
        '│'
    } else {
        '|'
    }
}

/// The bar between neighbouring panels.
pub open spec fn inner_bar(style: BorderStyle) -> char {
    if style == BorderStyle::Unicode {
        '┊'
    } else {
        '|'
    }
}

/// The corner, crossing, line and end characters of the top or bottom edge.
pub open spec fn frame_chars(style: BorderStyle, top: bool) -> (char, char, char, char) {
    if style == BorderStyle::Unicode {
        if top {
            ('┌', '┬', '─', '┐')
        } else {
            ('└', '┴', '─', '┘')
        }
    } else {
        ('+', '+', '-', '+')
    }
}

/// The number of character panels of a bordered row.
pub open spec fn char_panel_count(c: PrinterConfig) -> int {
    if c.show_characters {
        c.panel_count as int
    } else {
        0
    }
}

/// The widths of the columns of a bordered layout: the offset, each hex
/// panel and each character panel.
pub open spec fn frame_widths(c: PrinterConfig) -> Seq<int> {
    seq![8int] + Seq::new(c.panel_count as nat, |i: int| c.bytes_per_panel * 3 + 1) + Seq::new(
        char_panel_count(c) as nat,
        |i: int| c.bytes_per_panel as int,
    )
}

/// The top or bottom edge: the corner, then a line over each column
/// followed by a crossing, or the end after the last.
pub open spec fn spec_frame(c: PrinterConfig, style: BorderStyle, top: bool) -> Seq<char> {
    let (corner, cross, hline, end) = frame_chars(style, top);
    let ws = frame_widths(c);
    seq![corner] + concat(
        Seq::new(
            ws.len(),
            |i: int|
                rep(hline, ws[i]).push(
                    if i + 1 == ws.len() {
                        end
                    } else {
                        cross
                    },
                ),
        ),
    )
}

fn push_rep_char(out: &mut String, c: char, n: usize)
    ensures
        final(out)@ == old(out)@ + rep(c, n as int),
{
    let mut i: usize = 0;
    while i < n
        invariant
            i <= n,
            out@ == old(out)@ + rep(c, i as int),
        decreases n - i,
    {
        push_char(out, c);
        assert(old(out)@ + rep(c, i + 1) =~= (old(out)@ + rep(c, i as int)).push(c));
        i = i + 1;
    }
}

fn render_border_frame(cfg: &PrinterConfig, style: BorderStyle, top: bool) -> (r: String)
    requires
        printer_fits(*cfg),
    ensures
        r@ == spec_frame(*cfg, style, top),
{
    proof {
        lemma_widths(*cfg);
    }
    let (corner, cross, hline, end) = if style == BorderStyle::Unicode {
        if top {
            ('┌', '┬', '─', '┐')
        } else {
            ('└', '┴', '─', '┘')
        }
    } else {
        ('+', '+', '-', '+')
    };
    let pc = cfg.panel_count;
    let cp: usize = if cfg.show_characters {
        pc
    } else {
        0
    };
    let n = 1 + pc + cp;
    let ghost ws = frame_widths(*cfg);
    let ghost cells = Seq::new(
        ws.len(),
        |i: int|
            rep(hline, ws[i]).push(
                if i + 1 == ws.len() {
                    end
                } else {
                    cross
                },
            ),
    );
    let mut out = String::new();
    push_char(&mut out, corner);
    let mut i: usize = 0;
    assert(cells.take(0) =~= Seq::<Seq<char>>::empty());
    while i < n
        invariant
            printer_fits(*cfg),
            pc == cfg.panel_count,
            cp == char_panel_count(*cfg),
            n == 1 + pc + cp,
            n == ws.len(),
            cfg.bytes_per_panel * 3 + 1 <= usize::MAX,
            ws == frame_widths(*cfg),
            cells == Seq::new(
                ws.len(),
                |i: int|
                    rep(hline, ws[i]).push(
                        if i + 1 == ws.len() {
                            end
                        } else {
                            cross
                        },
                    ),
            ),
            i <= n,
            out@ == seq![corner] + concat(cells.take(i as int)),
        decreases n - i,
    {
        let w: usize = if i == 0 {
            8
        } else if i <= pc {
            cfg.bytes_per_panel * 3 + 1
        } else {
            cfg.bytes_per_panel
        };
        assert(w == ws[i as int]);
        let ghost before = out@;
        push_rep_char(&mut out, hline, w);
        push_char(&mut out, if i + 1 == n {
            end
        } else {
            cross
        });
        proof {
            assert(out@ =~= before + cells[i as int]);
            assert(cells.take(i + 1) =~= cells.take(i as int).push(cells[i as int]));
            crate::text::lemma_concat_push(cells.take(i as int), cells[i as int]);
        }
        i = i + 1;
    }
    assert(cells.take(n as int) =~= cells);
    assert((corner, cross, hline, end) == frame_chars(style, top));
    out
}

/// Cells each followed by the inner bar, the last by the outer bar.
pub open spec fn bar_items(cells: Seq<Seq<char>>, inner: char, outer: char) -> Seq<Seq<char>> {
    Seq::new(
        cells.len(),
        |i: int|
            cells[i].push(
                if i + 1 == cells.len() {
                    outer
                } else {
                    inner
                },
            ),
    )
}

/// The cells with their bars, one after another.
pub open spec fn bar_joined(cells: Seq<Seq<char>>, inner: char, outer: char) -> Seq<char> {
    concat(bar_items(cells, inner, outer))
}

/// `n` blank cells of width `w`, each followed by `bar`.
pub open spec fn blank_cells(n: int, w: int, bar: char) -> Seq<char> {
    concat(Seq::new(n as nat, |i: int| rep(' ', w).push(bar)))
}

/// A bordered row: a star or the offset in the offset column, then the hex
/// and character cells, blank for the squeeze rows.
pub open spec fn spec_render_row(row: BorderRowView, c: PrinterConfig, style: BorderStyle) -> Seq<char> {
    let v = vbar(style);
    let blanks = blank_cells(c.panel_count as int, c.bytes_per_panel * 3 + 1, v) + blank_cells(
        char_panel_count(c),
        c.bytes_per_panel as int,
        v,
    );
    match row.kind {
        BorderRowKind::SqueezeStar => seq![v, '*'] + rep(' ', 7) + seq![v] + blanks,
        BorderRowKind::SqueezeEnd => seq![v] + hex8(row.offset) + seq![v] + blanks,
        BorderRowKind::Data => seq![v] + hex8(row.offset) + seq![v] + bar_joined(
            row.hex_panels,
            inner_bar(style),
            v,
        ) + if c.show_characters {
            bar_joined(row.char_panels, inner_bar(style), v)
        } else {
            Seq::empty()
        },
    }
}

fn push_bar_joined(out: &mut String, cells: &Vec<String>, inner: char, outer: char)
    ensures
        final(out)@ == old(out)@ + bar_joined(views(cells@), inner, outer),
{
    let ghost vs = views(cells@);
    let ghost items = bar_items(vs, inner, outer);
    let mut i: usize = 0;
    assert(items.take(0) =~= Seq::<Seq<char>>::empty());
    while i < cells.len()
        invariant
            i <= cells@.len(),
            vs == views(cells@),
            items == bar_items(vs, inner, outer),
            out@ == old(out)@ + concat(items.take(i as int)),
        decreases cells.len() - i,
    {
        let ghost before = out@;
        push_str(out, cells[i].as_str());
        push_char(out, if i + 1 == cells.len() {
            outer
        } else {
            inner
        });
        proof {
            assert(out@ =~= before + items[i as int]);
            assert(items.take(i + 1) =~= items.take(i as int).push(items[i as int]));
            crate::text::lemma_concat_push(items.take(i as int), items[i as int]);
        }
        i = i + 1;
    }
    assert(items.take(cells@.len() as int) =~= items);
}

fn push_blank_cells(out: &mut String, n: usize, w: usize, bar: char)
    ensures
        final(out)@ == old(out)@ + blank_cells(n as int, w as int, bar),
{
    let ghost items = Seq::new(n as nat, |i: int| rep(' ', w as int).push(bar));
    let mut i: usize = 0;
    assert(items.take(0) =~= Seq::<Seq<char>>::empty());
    while i < n
        invariant
            i <= n,
            items == Seq::new(n as nat, |i: int| rep(' ', w as int).push(bar)),
            out@ == old(out)@ + concat(items.take(i as int)),
        decreases n - i,
    {
        let ghost before = out@;
        push_rep_char(out, ' ', w);
        push_char(out, bar);
        proof {
            assert(out@ =~= before + items[i as int]);
            assert(items.take(i + 1) =~= items.take(i as int).push(items[i as int]));
            crate::text::lemma_concat_push(items.take(i as int), items[i as int]);
        }
        i = i + 1;
    }
    assert(items.take(n as int) =~= items);
}

fn render_border_data_row(row: &BorderRow, cfg: &PrinterConfig, style: BorderStyle) -> (r: String)
    requires
        printer_fits(*cfg),
    ensures
        r@ == spec_render_row(row@, *cfg, style),
{
    proof {
        lemma_widths(*cfg);
    }
    let v = if style == BorderStyle::Unicode {
        '│'
    } else {
        '|'
    };
    let inner = if style == BorderStyle::Unicode {
        '┊'
    } else {
        '|'
    };
    let cp: usize = if cfg.show_characters {
        cfg.panel_count
    } else {
        0
    };
    let mut out = String::new();
    push_char(&mut out, v);
    match row.kind {
        BorderRowKind::SqueezeStar => {
            push_char(&mut out, '*');
            push_rep_char(&mut out, ' ', 7);
            push_char(&mut out, v);
            let ghost head = out@;
            push_blank_cells(&mut out, cfg.panel_count, cfg.bytes_per_panel * 3 + 1, v);
            push_blank_cells(&mut out, cp, cfg.bytes_per_panel, v);
            assert(out@ =~= spec_render_row(row@, *cfg, style));
        },
        BorderRowKind::SqueezeEnd => {
            let h = radix_padded(row.offset, 16, 8);
            push_str(&mut out, h.as_str());
            push_char(&mut out, v);
            push_blank_cells(&mut out, cfg.panel_count, cfg.bytes_per_panel * 3 + 1, v);
            push_blank_cells(&mut out, cp, cfg.bytes_per_panel, v);
            assert(out@ =~= spec_render_row(row@, *cfg, style));
        },
        BorderRowKind::Data => {
            let h = radix_padded(row.offset, 16, 8);
            push_str(&mut out, h.as_str());
            push_char(&mut out, v);
            push_bar_joined(&mut out, &row.hex_panels, inner, v);
            if cfg.show_characters {
                push_bar_joined(&mut out, &row.char_panels, inner, v);
            }
            assert(out@ =~= spec_render_row(row@, *cfg, style));
        },
    }
    out
}

/// The bordered layout of `data`: nothing when there are no rows, else the
/// top edge, each row and the bottom edge, each on a line of its own.
pub open spec fn spec_print_bordered(data: Seq<u8>, c: PrinterConfig) -> Seq<char> {
    let rows = spec_border_rows(data, c);
    if rows.len() == 0 {
        Seq::empty()
    } else {
        spec_frame(c, c.border, true).push('\n') + concat(
            rows.map_values(|r: BorderRowView| spec_render_row(r, c, c.border).push('\n')),
        ) + spec_frame(c, c.border, false).push('\n')
    }
}

fn print_bordered_layout(data: &[u8], cfg: &PrinterConfig) -> (r: String)
    requires
        data@.len() == 0 || printer_fits(*cfg),
        offsets_fit(data@, *cfg),
    ensures
        r@ == spec_print_bordered(data@, *cfg),
{
    let rows = border_rows(data, cfg);
    if rows.len() == 0 {
        return String::new();
    }
    let ghost rv = row_views(rows@);
    assert(rv.len() > 0);
    let ghost lines = rv.map_values(|r: BorderRowView| spec_render_row(r, *cfg, cfg.border).push('\n'));
    let mut out = render_border_frame(cfg, cfg.border, true);
    push_char(&mut out, '\n');
    let ghost head = out@;
    let mut i: usize = 0;
    assert(lines.take(0) =~= Seq::<Seq<char>>::empty());
    while i < rows.len()
        invariant
            printer_fits(*cfg),
            rv == row_views(rows@),
            lines == rv.map_values(|r: BorderRowView| spec_render_row(r, *cfg, cfg.border).push('\n')),
            i <= rows@.len(),
            out@ == head + concat(lines.take(i as int)),
        decreases rows.len() - i,
    {
        let line = render_border_data_row(&rows[i], cfg, cfg.border);
        let ghost before = out@;
        push_str(&mut out, line.as_str());
        push_char(&mut out, '\n');
        proof {
            assert(rows@[i as int]@ == rv[i as int]);
            assert(out@ =~= before + lines[i as int]);
            assert(lines.take(i + 1) =~= lines.take(i as int).push(lines[i as int]));
            crate::text::lemma_concat_push(lines.take(i as int), lines[i as int]);
        }
        i = i + 1;
    }
    assert(lines.take(rows@.len() as int) =~= lines);
    let bottom = render_border_frame(cfg, cfg.border, false);
    push_str(&mut out, bottom.as_str());
    push_char(&mut out, '\n');
    out
}

/// The dump of `data`: the plain layout without a border, else the
/// bordered one.
pub open spec fn spec_print_data(data: Seq<u8>, c: PrinterConfig) -> Seq<char> {
    if c.border == BorderStyle::NoBorder {
        spec_print_plain(data, c)
    } else {
        spec_print_bordered(data, c)
    }
}

/// The text that prints `data` as a hex dump.
pub fn print_data(data: &[u8], cfg: &PrinterConfig) -> (r: String)
    requires
        data@.len() == 0 || printer_fits(*cfg) && (cfg.border == BorderStyle::NoBorder
            ==> room_for_offset(*cfg)),
        offsets_fit(data@, *cfg),
    ensures
        r@ == spec_print_data(data@, *cfg),
{
    if cfg.border == BorderStyle::NoBorder {
        print_plain_layout(data, cfg)
    } else {
        print_bordered_layout(data, cfg)
    }
}


/// The key of the line that starts at byte `off`.
pub open spec fn key_at(data: Seq<u8>, c: PrinterConfig, off: int) -> Seq<char> {
    spec_squeeze_key(
        data.subrange(off, line_end_at(data.len() as int, c, off)),
        shown_offset(c, off),
        c,
    )
}

/// No line of `data` has the key of the line before it.
pub open spec fn lines_differ(data: Seq<u8>, c: PrinterConfig) -> bool {
    forall|k: int|
        #![trigger key_at(data, c, k * line_bytes(c))]
        1 <= k && k * line_bytes(c) < data.len() ==> key_at(data, c, k * line_bytes(c)) != key_at(
            data,
            c,
            (k - 1) * line_bytes(c),
        )
}

/// Every line of `data` from byte `off` on, none left out.
pub open spec fn all_lines(data: Seq<u8>, c: PrinterConfig, off: int) -> Seq<char>
    decreases data.len() - off,
{
    if off < 0 || off >= data.len() || line_bytes(c) <= 0 {
        Seq::empty()
    } else {
        let end = line_end_at(data.len() as int, c, off);
        shown_line(data.subrange(off, end), shown_offset(c, off), c) + all_lines(data, c, end)
    }
}

proof fn lemma_unsqueezed(data: Seq<u8>, c: PrinterConfig, off: int, prev: Option<Seq<char>>)
    requires
        !c.squeeze,
        line_bytes(c) > 0,
    ensures
        plain_from(data, c, off, prev, false) == all_lines(data, c, off),
    decreases data.len() - off,
{
    if 0 <= off < data.len() {
        lemma_unsqueezed(data, c, line_end_at(data.len() as int, c, off), prev);
    }
}

proof fn lemma_squeezed_distinct(data: Seq<u8>, c: PrinterConfig, k: int)
    requires
        c.squeeze,
        line_bytes(c) > 0,
        k >= 0,
        lines_differ(data, c),
    ensures
        plain_from(
            data,
            c,
            k * line_bytes(c),
            if k == 0 {
                None
            } else {
                Some(key_at(data, c, (k - 1) * line_bytes(c)))
            },
            false,
        ) == all_lines(data, c, k * line_bytes(c)),
    decreases data.len() - k * line_bytes(c),
{
    let b = line_bytes(c);
    let off = k * b;
    assert(k * b >= 0) by (nonlinear_arith)
        requires
            k >= 0,
            b > 0,
    ;
    assert((k + 1) * b == k * b + b) by (nonlinear_arith);
    if off < data.len() {
        let end = line_end_at(data.len() as int, c, off);
        let key = key_at(data, c, off);
        if k >= 1 {
            assert(key != key_at(data, c, (k - 1) * b));
        }
        let prev = if k == 0 {
            None
        } else {
            Some(key_at(data, c, (k - 1) * b))
        };
        assert(prev != Some(key));
        assert(plain_from(data, c, off, prev, false) == shown_line(
            data.subrange(off, end),
            shown_offset(c, off),
            c,
        ) + plain_from(data, c, end, Some(key), false));
        if end < data.len() {
            lemma_squeezed_distinct(data, c, k + 1);
            assert(end == (k + 1) * b);
            assert(((k + 1) - 1) * b == k * b);
        } else {
            assert(plain_from(data, c, end, Some(key), false) == Seq::<char>::empty());
            assert(all_lines(data, c, end) == Seq::<char>::empty());
        }
    }
}

/// Without squeezing, and with squeezing when no line repeats the one
/// before it, every line is printed.
pub proof fn squeeze_keeps_distinct_lines(data: Seq<u8>, c: PrinterConfig)
    requires
        line_bytes(c) > 0,
        !c.squeeze || lines_differ(data, c),
    ensures
        spec_print_plain(data, c) == all_lines(data, c, 0),
{
    if c.squeeze {
        lemma_squeezed_distinct(data, c, 0);
        assert(0 * line_bytes(c) == 0);
    } else {
        lemma_unsqueezed(data, c, 0, None);
    }
}


proof fn lemma_pad_right_after(h: Seq<char>, x: Seq<char>, w: int)
    ensures
        pad_right(h + x, w) == h + pad_right(x, w - h.len()),
{
    if (h + x).len() < w {
        assert(h + x + rep(' ', w - (h + x).len()) =~= h + (x + rep(' ', w - h.len() - x.len())));
    }
}

/// The width of the start of a plain line: the offset column and two
/// spaces, or two spaces alone.
pub open spec fn head_width(c: PrinterConfig) -> int {
    if c.show_position {
        11
    } else {
        2
    }
}

/// A plain line after its start: the hex text, the character text or the
/// padding to its column, and the end.
pub open spec fn line_tail(chunk: Seq<u8>, c: PrinterConfig) -> Seq<char> {
    let k = head_width(c);
    let hex = spec_format_hex_section(chunk, c, false);
    let t = if fixed_char_column(c) {
        spec_char_section_start(c)
    } else {
        k + hex.len() + 2
    };
    let mid = if c.show_characters {
        pad_right(hex, t - k) + spec_format_char_section(chunk, c, false)
    } else {
        pad_right(hex, spec_char_section_start(c) - k)
    };
    match spec_target_line_width(c) {
        Some(w) => pad_right(mid, w - k),
        None => if c.show_characters {
            mid.push(' ')
        } else {
            mid
        },
    }
}

proof fn lemma_line_split(chunk: Seq<u8>, off: u64, c: PrinterConfig)
    requires
        off < 0x1_0000_0000,
    ensures
        line_head(off, c, false).len() == head_width(c),
        spec_line_body(chunk, off, c, false) == line_head(off, c, false) + line_tail(chunk, c),
{
    lemma_hex8_len(off);
    let h = line_head(off, c, false);
    let k = head_width(c);
    let hex = spec_format_hex_section(chunk, c, false);
    assert(h.len() == k);
    let t = if fixed_char_column(c) {
        spec_char_section_start(c)
    } else {
        k + hex.len() + 2
    };
    assert(char_target(chunk, off, c) == t);
    let y = if c.show_characters {
        pad_right(hex, t - k) + spec_format_char_section(chunk, c, false)
    } else {
        pad_right(hex, spec_char_section_start(c) - k)
    };
    let mid = if c.show_characters {
        pad_right(h + hex, t) + spec_format_char_section(chunk, c, false)
    } else {
        pad_right(h + hex, spec_char_section_start(c))
    };
    if c.show_characters {
        lemma_pad_right_after(h, hex, t);
        assert(mid =~= h + y);
    } else {
        lemma_pad_right_after(h, hex, spec_char_section_start(c));
    }
    assert(mid == h + y);
    match spec_target_line_width(c) {
        Some(w) => {
            lemma_pad_right_after(h, y, w);
        },
        None => {
            assert((h + y).push(' ') =~= h + y.push(' '));
        },
    }
}

/// Squeezing compares lines by their content, never by their offsets: two
/// lines of the same bytes have one key wherever they stand (for offsets
/// written with eight hex digits), and a line with the offset column starts
/// with that column.
pub proof fn squeeze_key_ignores_offset(chunk: Seq<u8>, o1: u64, o2: u64, c: PrinterConfig)
    requires
        o1 < 0x1_0000_0000,
        o2 < 0x1_0000_0000,
    ensures
        spec_squeeze_key(chunk, o1, c) == spec_squeeze_key(chunk, o2, c),
        spec_squeeze_key(chunk, o1, c) == line_tail(chunk, c),
        c.show_position ==> spec_line_body(chunk, o1, c, false).take(11) == offset_text(o1) + seq![' ', ' '],
{
    lemma_line_split(chunk, o1, c);
    lemma_line_split(chunk, o2, c);
    let t = line_tail(chunk, c);
    let h1 = line_head(o1, c, false);
    let h2 = line_head(o2, c, false);
    assert((h1 + t).skip(head_width(c)) =~= t);
    assert((h2 + t).skip(head_width(c)) =~= t);
    if c.show_position {
        assert((h1 + t).take(11) =~= h1);
    }
}


/// The lengths of `parts`, added up.
pub open spec fn total_len(parts: Seq<Seq<char>>) -> int
    decreases parts.len(),
{
    if parts.len() == 0 {
        0
    } else {
        total_len(parts.drop_last()) + parts.last().len()
    }
}

proof fn lemma_concat_len(parts: Seq<Seq<char>>)
    ensures
        concat(parts).len() == total_len(parts),
    decreases parts.len(),
{
    if parts.len() > 0 {
        lemma_concat_len(parts.drop_last());
    }
}

proof fn lemma_total_append(a: Seq<Seq<char>>, b: Seq<Seq<char>>)
    ensures
        total_len(a + b) == total_len(a) + total_len(b),
    decreases b.len(),
{
    if b.len() == 0 {
        assert(a + b =~= a);
    } else {
        assert((a + b).drop_last() =~= a + b.drop_last());
        assert((a + b).last() == b.last());
        lemma_total_append(a, b.drop_last());
    }
}

proof fn lemma_total_uniform(parts: Seq<Seq<char>>, w: int)
    requires
        forall|i: int| 0 <= i < parts.len() ==> #[trigger] parts[i].len() == w,
    ensures
        total_len(parts) == parts.len() * w,
    decreases parts.len(),
{
    if parts.len() > 0 {
        let n = parts.len() as int;
        let d = parts.drop_last();
        assert forall|i: int| 0 <= i < d.len() implies #[trigger] d[i].len() == w by {
            assert(d[i] == parts[i]);
        }
        lemma_total_uniform(d, w);
        assert(parts.last().len() == w);
        assert((n - 1) * w + w == n * w) by (nonlinear_arith);
    }
}

proof fn lemma_blank_cells_len(n: int, w: int, bar: char)
    requires
        n >= 0,
        w >= 0,
    ensures
        blank_cells(n, w, bar).len() == n * (w + 1),
{
    let items = Seq::new(n as nat, |i: int| rep(' ', w).push(bar));
    lemma_concat_len(items);
    lemma_total_uniform(items, w + 1);
}

proof fn lemma_bar_joined_len(cells: Seq<Seq<char>>, w: int, inner: char, outer: char)
    requires
        forall|i: int| 0 <= i < cells.len() ==> #[trigger] cells[i].len() == w,
    ensures
        bar_joined(cells, inner, outer).len() == cells.len() * (w + 1),
{
    let items = bar_items(cells, inner, outer);
    assert forall|i: int| 0 <= i < items.len() implies #[trigger] items[i].len() == w + 1 by {
        assert(cells[i].len() == w);
    }
    lemma_concat_len(items);
    lemma_total_uniform(items, w + 1);
}

proof fn lemma_pad_field_len(s: Seq<char>, w: int)
    requires
        w >= 0,
    ensures
        pad_field(s, w).len() == w,
{
}

proof fn lemma_frame_len(c: PrinterConfig, style: BorderStyle, top: bool)
    ensures
        spec_frame(c, style, top).len() == 10 + c.panel_count * (c.bytes_per_panel * 3 + 2)
            + char_panel_count(c) * (c.bytes_per_panel + 1),
{
    let (corner, cross, hline, end) = frame_chars(style, top);
    let ws = frame_widths(c);
    let n = ws.len() as int;
    let pc = c.panel_count as int;
    let cp = char_panel_count(c);
    let b = c.bytes_per_panel as int;
    let cells = Seq::new(
        ws.len(),
        |i: int|
            rep(hline, ws[i]).push(
                if i + 1 == ws.len() {
                    end
                } else {
                    cross
                },
            ),
    );
    assert(n == 1 + pc + cp);
    let a0 = cells.subrange(0, 1);
    let a1 = cells.subrange(1, 1 + pc);
    let a2 = cells.subrange(1 + pc, n);
    assert(cells =~= a0 + a1 + a2);
    assert forall|i: int| 0 <= i < a0.len() implies #[trigger] a0[i].len() == 9 by {
        assert(ws[0] == 8);
    }
    assert forall|i: int| 0 <= i < a1.len() implies #[trigger] a1[i].len() == b * 3 + 2 by {
        assert(ws[1 + i] == b * 3 + 1);
    }
    assert forall|i: int| 0 <= i < a2.len() implies #[trigger] a2[i].len() == b + 1 by {
        assert(ws[1 + pc + i] == b);
    }
    lemma_total_uniform(a0, 9);
    lemma_total_uniform(a1, b * 3 + 2);
    lemma_total_uniform(a2, b + 1);
    lemma_total_append(a0, a1);
    lemma_total_append(a0 + a1, a2);
    lemma_concat_len(cells);
}

/// Every line of a bordered dump is as wide as its top and bottom edges:
/// the data row of any chunk, the row of a star and the row of an end
/// offset (for offsets written with eight hex digits).
pub proof fn bordered_lines_have_one_width(chunk: Seq<u8>, off: u64, c: PrinterConfig, style: BorderStyle)
    requires
        off < 0x1_0000_0000,
    ensures
        spec_frame(c, style, false).len() == spec_frame(c, style, true).len(),
        spec_render_row(spec_border_row(chunk, off, c), c, style).len() == spec_frame(c, style, true).len(),
        spec_render_row(star_row(), c, style).len() == spec_frame(c, style, true).len(),
        spec_render_row(end_row(off), c, style).len() == spec_frame(c, style, true).len(),
{
    lemma_frame_len(c, style, true);
    lemma_frame_len(c, style, false);
    lemma_hex8_len(off);
    let v = vbar(style);
    let pc = c.panel_count as int;
    let cp = char_panel_count(c);
    let b = c.bytes_per_panel as int;
    lemma_blank_cells_len(pc, b * 3 + 1, v);
    lemma_blank_cells_len(cp, b, v);
    let row = spec_border_row(chunk, off, c);
    assert forall|i: int| 0 <= i < row.hex_panels.len() implies #[trigger] row.hex_panels[i].len() == b * 3 + 1 by {
        lemma_pad_field_len(
            seq![' '] + (if i * c.bytes_per_panel >= chunk.len() {
                Seq::empty()
            } else {
                spec_format_panel_hex(panel_of(chunk, c, i), c, false)
            }) + seq![' '],
            b * 3 + 1,
        );
    }
    lemma_bar_joined_len(row.hex_panels, b * 3 + 1, inner_bar(style), v);
    if c.show_characters {
        assert forall|i: int| 0 <= i < row.char_panels.len() implies #[trigger] row.char_panels[i].len() == b by {
            lemma_pad_field_len(
                if i * c.bytes_per_panel >= chunk.len() {
                    Seq::empty()
                } else {
                    panel_of(chunk, c, i).map_values(|x: u8| spec_map(c.character_table, x))
                },
                b,
            );
        }
        lemma_bar_joined_len(row.char_panels, b, inner_bar(style), v);
    }
}


/// The number of lines that `data` fills: one for every started run of
/// `line_bytes(c)` bytes.
pub open spec fn line_count(data: Seq<u8>, c: PrinterConfig) -> int {
    (data.len() + line_bytes(c) - 1) / line_bytes(c)
}

/// The `k`-th line of the plain layout when no line is left out.
pub open spec fn line_at(data: Seq<u8>, c: PrinterConfig, k: int) -> Seq<char> {
    let off = k * line_bytes(c);
    shown_line(data.subrange(off, line_end_at(data.len() as int, c, off)), shown_offset(c, off), c)
}

/// The lines of the plain layout when no line is left out, in order.
pub open spec fn printed_lines(data: Seq<u8>, c: PrinterConfig) -> Seq<Seq<char>> {
    Seq::new(line_count(data, c) as nat, |k: int| line_at(data, c, k))
}

proof fn lemma_line_count(len: int, b: int, k: int)
    requires
        len >= 0,
        b > 0,
        k >= 0,
    ensures
        k * b < len <==> k < (len + b - 1) / b,
        (k + 1) * b == k * b + b,
        (len + b - 1) / b >= 0,
{
    let n = (len + b - 1) / b;
    let r = (len + b - 1) % b;
    assert(len + b - 1 == n * b + r && 0 <= r < b) by (nonlinear_arith)
        requires
            b > 0,
            n == (len + b - 1) / b,
            r == (len + b - 1) % b,
    ;
    assert(n >= 0) by (nonlinear_arith)
        requires
            b > 0,
            len >= 0,
            n == (len + b - 1) / b,
    ;
    assert(k < n ==> k * b < len) by (nonlinear_arith)
        requires
            b > 0,
            len + b - 1 == n * b + r,
            0 <= r < b,
    ;
    assert(k >= n ==> k * b >= len) by (nonlinear_arith)
        requires
            b > 0,
            len + b - 1 == n * b + r,
            0 <= r < b,
    ;
    assert((k + 1) * b == k * b + b) by (nonlinear_arith);
}

proof fn lemma_all_lines_from(data: Seq<u8>, c: PrinterConfig, k: int)
    requires
        line_bytes(c) > 0,
        0 <= k <= line_count(data, c),
    ensures
        all_lines(data, c, k * line_bytes(c)) == concat(printed_lines(data, c).subrange(k, line_count(data, c))),
    decreases line_count(data, c) - k,
{
    let b = line_bytes(c);
    let n = line_count(data, c);
    let len = data.len() as int;
    let ls = printed_lines(data, c);
    lemma_line_count(len, b, k);
    assert(k * b >= 0) by (nonlinear_arith)
        requires
            k >= 0,
            b > 0,
    ;
    if k == n {
        assert(ls.subrange(k, n) =~= Seq::<Seq<char>>::empty());
    } else {
        lemma_line_count(len, b, k + 1);
        lemma_all_lines_from(data, c, k + 1);
        let end = line_end_at(len, c, k * b);
        if end == len {
            assert(!((k + 1) * b < len));
            assert(k + 1 == n);
            assert(all_lines(data, c, end) == Seq::<char>::empty());
        } else {
            assert(end == (k + 1) * b);
        }
        assert(all_lines(data, c, end) == all_lines(data, c, (k + 1) * b));
        assert(ls.subrange(k, n) =~= seq![ls[k]] + ls.subrange(k + 1, n));
        crate::parser::lemma_concat_front(ls[k], ls.subrange(k + 1, n));
        assert(ls[k] == line_at(data, c, k));
    }
}

/// The plain layout writes one line for every started run of
/// `line_bytes(c)` bytes, in order, when no line is squeezed away (without
/// squeezing, or when no line repeats the one before it); the bordered
/// layout without squeezing has as many rows, between its top and bottom
/// edges.
pub proof fn printed_line_count(data: Seq<u8>, c: PrinterConfig)
    requires
        line_bytes(c) > 0,
    ensures
        !c.squeeze || lines_differ(data, c) ==> spec_print_plain(data, c) == concat(printed_lines(data, c)),
        printed_lines(data, c).len() == line_count(data, c),
        !c.squeeze ==> spec_border_rows(data, c).len() == line_count(data, c),
{
    let n = line_count(data, c);
    lemma_line_count(data.len() as int, line_bytes(c), 0);
    if !c.squeeze || lines_differ(data, c) {
        squeeze_keeps_distinct_lines(data, c);
        lemma_all_lines_from(data, c, 0);
        assert(printed_lines(data, c).subrange(0, n) =~= printed_lines(data, c));
    }
    if !c.squeeze {
        lemma_border_rows_count(data, c, 0);
    }
}

proof fn lemma_border_rows_count(data: Seq<u8>, c: PrinterConfig, k: int)
    requires
        line_bytes(c) > 0,
        !c.squeeze,
        0 <= k <= line_count(data, c),
    ensures
        forall|prev: Option<Seq<char>>, sk: bool|
            #![trigger border_rows_from(data, c, k * line_bytes(c), prev, sk)]
            border_rows_from(data, c, k * line_bytes(c), prev, sk).len() == line_count(data, c) - k,
    decreases line_count(data, c) - k,
{
    let b = line_bytes(c);
    let n = line_count(data, c);
    let len = data.len() as int;
    lemma_line_count(len, b, k);
    assert(k * b >= 0) by (nonlinear_arith)
        requires
            k >= 0,
            b > 0,
    ;
    if k < n {
        lemma_line_count(len, b, k + 1);
        lemma_border_rows_count(data, c, k + 1);
        let end = line_end_at(len, c, k * b);
        assert forall|prev: Option<Seq<char>>, sk: bool|
            #![trigger border_rows_from(data, c, k * b, prev, sk)]
            border_rows_from(data, c, k * b, prev, sk).len() == n - k by {
            if end == len {
                assert(k + 1 == n);
                assert(border_rows_from(data, c, end, prev, sk).len() == 0);
            } else {
                assert(end == (k + 1) * b);
                assert(border_rows_from(data, c, (k + 1) * b, prev, sk).len() == n - k - 1);
            }
        }
    }
}


/// Each byte is written in its base as a fixed number of digits whose value
/// in that base is the byte: two lower-case hexadecimal digits, or eight
/// binary, three octal or three decimal digits.
pub proof fn byte_digits_spell_the_byte(b: u8)
    ensures
        ({
            let t = hex2(b);
            &&& t.len() == 2 && all_digits(t, 16) && digits_value(t, 16) == b
            &&& forall|i: int| 0 <= i < t.len() ==> !is_upper(#[trigger] t[i])
        }),
        ({
            let t = padded_byte(b, DisplayBase::Binary);
            t.len() == 8 && all_digits(t, 2) && digits_value(t, 2) == b
        }),
        ({
            let t = padded_byte(b, DisplayBase::Octal);
            t.len() == 3 && all_digits(t, 8) && digits_value(t, 8) == b
        }),
        ({
            let t = padded_byte(b, DisplayBase::Decimal);
            t.len() == 3 && all_digits(t, 10) && digits_value(t, 10) == b
        }),
{
    reveal_with_fuel(rpow, 9);
    assert(rpow(16, 2) == 256);
    assert(rpow(2, 8) == 256);
    assert(rpow(8, 3) == 512);
    assert(rpow(10, 3) == 1000);
    lemma_padded_number(b as nat, 16, 2);
    lemma_padded_number(b as nat, 2, 8);
    lemma_padded_number(b as nat, 8, 3);
    lemma_padded_number(b as nat, 10, 3);
}
} // verus!
