//! Hex dump layout: rows of hexadecimal (or other base) panels and
//! character panels, with optional borders and squeezing of repeated rows.
use vstd::prelude::*;
use crate::charset::{spec_map_byte, CharacterTable};
use crate::config::{Base, BorderStyle, Config, Endianness};
use crate::num::{
    all_digits, decimal, digits_value, is_upper, lemma_padded_number, pad_left, radix_digits,
    radix_padded, rpow,
};
use crate::text::{concat, join, push_char, push_str, to_string, views};

verus! {

/// One row of the dump: its offset and panels, or a marker for squeezed rows.
#[derive(Clone, Debug, PartialEq, Eq)]
pub struct DisplayRow {
    pub offset: u64,
    pub hex_panels: Vec<String>,
    pub char_panels: Vec<String>,
    pub is_squeeze_marker: bool,
}

/// The mathematical form of a [`DisplayRow`].
pub struct RowView {
    pub offset: u64,
    pub hex: Seq<Seq<char>>,
    pub chars: Seq<Seq<char>>,
    pub marker: bool,
}

impl View for DisplayRow {
    type V = RowView;

    open spec fn view(&self) -> RowView {
        RowView {
            offset: self.offset,
            hex: views(self.hex_panels@),
            chars: views(self.char_panels@),
            marker: self.is_squeeze_marker,
        }
    }
}

/// The views of rows.
pub open spec fn row_views(rows: Seq<DisplayRow>) -> Seq<RowView> {
    rows.map_values(|r: DisplayRow| r@)
}

/// Whether the base writes one panel of eight bytes per line.
pub open spec fn single_panel_base(b: Base) -> bool {
    b == Base::Octal || b == Base::Decimal || b == Base::Binary
}

/// The number of panels per line: one for octal, decimal and binary, else
/// the configured number (two by default), at least one.
pub open spec fn spec_panel_count(c: Config) -> int {
    if single_panel_base(c.base) {
        1
    } else {
        match c.panels {
            Some(p) => if p < 1 {
                1
            } else {
                p as int
            },
            None => 2,
        }
    }
}

fn panel_count(config: &Config) -> (r: usize)
    ensures
        r == spec_panel_count(*config),
        r >= 1,
{
    if config.base == Base::Octal || config.base == Base::Decimal || config.base == Base::Binary {
        return 1;
    }
    match config.panels {
        Some(p) => if p < 1 {
            1
        } else {
            p
        },
        None => 2,
    }
}

/// The number of bytes per line: eight per panel.
pub open spec fn spec_bytes_per_line(c: Config) -> int {
    if single_panel_base(c.base) {
        8
    } else {
        8 * spec_panel_count(c)
    }
}

/// Whether the line length fits a `usize`.
pub open spec fn line_fits(c: Config) -> bool {
    8 * spec_panel_count(c) <= usize::MAX
}

fn bytes_per_line(config: &Config) -> (r: usize)
    requires
        line_fits(*config),
    ensures
        r == spec_bytes_per_line(*config),
        r >= 8,
{
    if config.base == Base::Octal || config.base == Base::Decimal || config.base == Base::Binary {
        8
    } else {
        8 * panel_count(config)
    }
}

/// The width of a panel's text without borders.
pub open spec fn spec_hex_content_width(c: Config) -> int {
    match c.base {
        Base::Hexadecimal => if c.group_size == 1 {
            23
        } else if c.group_size == 2 {
            19
        } else if c.group_size == 4 || c.group_size == 8 {
            17
        } else {
            23
        },
        Base::Binary => 73,
        _ => 33,
    }
}

fn hex_content_width(config: &Config) -> (r: usize)
    ensures
        r == spec_hex_content_width(*config),
{
    match config.base {
        Base::Hexadecimal => if config.group_size == 1 {
            23
        } else if config.group_size == 2 {
            19
        } else if config.group_size == 4 || config.group_size == 8 {
            17
        } else {
            23
        },
        Base::Binary => 73,
        _ => 33,
    }
}

/// The width of a panel between borders.
pub open spec fn spec_hex_panel_width(c: Config) -> int {
    if c.base == Base::Hexadecimal && c.group_size == 1 {
        25
    } else if c.base == Base::Hexadecimal && c.group_size == 2 {
        21
    } else {
        spec_hex_content_width(c)
    }
}

fn hex_panel_width(config: &Config) -> (r: usize)
    ensures
        r == spec_hex_panel_width(*config),
{
    if config.base == Base::Hexadecimal && config.group_size == 1 {
        25
    } else if config.base == Base::Hexadecimal && config.group_size == 2 {
        21
    } else {
        hex_content_width(config)
    }
}

/// A byte in the base, zero-padded: two hexadecimal digits, eight binary,
/// three octal or three decimal.
pub open spec fn byte_text(b: u8, base: Base) -> Seq<char> {
    match base {
        Base::Hexadecimal => pad_left(radix_digits(b as nat, 16), 2, '0'),
        Base::Binary => pad_left(radix_digits(b as nat, 2), 8, '0'),
        Base::Octal => pad_left(radix_digits(b as nat, 8), 3, '0'),
        Base::Decimal => pad_left(radix_digits(b as nat, 10), 3, '0'),
    }
}

/// A group of bytes: hexadecimal digits run together, other bases
/// separated by spaces.
pub open spec fn spec_format_group(bytes: Seq<u8>, base: Base) -> Seq<char> {
    let texts = bytes.map_values(|b: u8| byte_text(b, base));
    if base == Base::Hexadecimal {
        concat(texts)
    } else {
        join(texts, seq![' '])
    }
}

fn byte_text_of(b: u8, base: Base) -> (r: String)
    ensures
        r@ == byte_text(b, base),
{
    match base {
        Base::Hexadecimal => radix_padded(b as u64, 16, 2),
        Base::Binary => radix_padded(b as u64, 2, 8),
        Base::Octal => radix_padded(b as u64, 8, 3),
        Base::Decimal => radix_padded(b as u64, 10, 3),
    }
}

fn format_group(bytes: &[u8], base: Base) -> (r: String)
    ensures
        r@ == spec_format_group(bytes@, base),
{
    let ghost texts = bytes@.map_values(|b: u8| byte_text(b, base));
    let mut out = String::new();
    let mut i: usize = 0;
    assert(texts.take(0) =~= Seq::<Seq<char>>::empty());
    while i < bytes.len()
        invariant
            i <= bytes@.len(),
            texts == bytes@.map_values(|b: u8| byte_text(b, base)),
            out@ == (if base == Base::Hexadecimal {
                concat(texts.take(i as int))
            } else {
                join(texts.take(i as int), seq![' '])
            }),
        decreases bytes.len() - i,
    {
        let t = byte_text_of(bytes[i], base);
        if base != Base::Hexadecimal && i > 0 {
            push_char(&mut out, ' ');
        }
        push_str(&mut out, t.as_str());
        proof {
            assert(texts.take(i + 1) =~= texts.take(i as int).push(texts[i as int]));
            crate::text::lemma_join_push(texts.take(i as int), texts[i as int], seq![' ']);
            crate::text::lemma_concat_push(texts.take(i as int), texts[i as int]);
        }
        i = i + 1;
    }
    assert(texts.take(bytes@.len() as int) =~= texts);
    out
}

/// The groups of `bytes` from `i` on, `gs` bytes each (the last may be
/// shorter), each reversed for little-endian order when longer than one.
pub open spec fn groups_from(bytes: Seq<u8>, gs: int, little: bool, i: int) -> Seq<Seq<u8>>
    decreases bytes.len() - i,
{
    if gs <= 0 || i < 0 || i >= bytes.len() {
        Seq::empty()
    } else {
        let end = if i + gs < bytes.len() {
            i + gs
        } else {
            bytes.len() as int
        };
        let g = bytes.subrange(i, end);
        seq![if little && g.len() > 1 {
            g.reverse()
        } else {
            g
        }] + groups_from(bytes, gs, little, end)
    }
}

/// A panel of bytes: nothing when empty, else a space and the groups
/// separated by spaces.
pub open spec fn spec_format_hex_panel(bytes: Seq<u8>, c: Config) -> Seq<char> {
    if bytes.len() == 0 {
        Seq::empty()
    } else {
        seq![' '] + join(
            groups_from(bytes, c.group_size as int, c.endianness == Endianness::Little, 0).map_values(
                |g: Seq<u8>| spec_format_group(g, c.base),
            ),
            seq![' '],
        )
    }
}

fn reversed(v: &Vec<u8>) -> (r: Vec<u8>)
    ensures
        r@ == v@.reverse(),
{
    let mut r: Vec<u8> = Vec::new();
    let mut i: usize = v.len();
    while i > 0
        invariant
            i <= v@.len(),
            r@ == v@.subrange(i as int, v@.len() as int).reverse(),
        decreases i,
    {
        i = i - 1;
        r.push(v[i]);
        assert(v@.subrange(i as int, v@.len() as int).reverse() =~= v@.subrange(
            i + 1,
            v@.len() as int,
        ).reverse().push(v@[i as int]));
    }
    assert(v@.subrange(0, v@.len() as int) == v@);
    r
}

fn format_hex_panel(bytes: &[u8], config: &Config) -> (r: String)
    requires
        config.group_size > 0,
    ensures
        r@ == spec_format_hex_panel(bytes@, *config),
{
    if bytes.len() == 0 {
        return String::new();
    }
    let gs = config.group_size as usize;
    let little = config.endianness == Endianness::Little;
    let ghost all = groups_from(bytes@, gs as int, little, 0).map_values(
        |g: Seq<u8>| spec_format_group(g, config.base),
    );
    let mut texts: Vec<String> = Vec::new();
    let mut i: usize = 0;
    while i < bytes.len()
        invariant
            i <= bytes@.len(),
            gs == config.group_size,
            gs > 0,
            little == (config.endianness == Endianness::Little),
            all == groups_from(bytes@, gs as int, little, 0).map_values(
                |g: Seq<u8>| spec_format_group(g, config.base),
            ),
            all == views(texts@) + groups_from(bytes@, gs as int, little, i as int).map_values(
                |g: Seq<u8>| spec_format_group(g, config.base),
            ),
        decreases bytes.len() - i,
    {
        let end = if gs < bytes.len() - i {
            i + gs
        } else {
            bytes.len()
        };
        let mut group = crate::text::slice_bytes(bytes, i, end);
        if little && group.len() > 1 {
            group = reversed(&group);
        }
        let t = format_group(group.as_slice(), config.base);
        let ghost before = views(texts@);
        texts.push(t);
        let ghost rest = groups_from(bytes@, gs as int, little, end as int);
        assert(groups_from(bytes@, gs as int, little, i as int) == seq![group@] + rest);
        assert((seq![group@] + rest).map_values(|g: Seq<u8>| spec_format_group(g, config.base))
            =~= seq![spec_format_group(group@, config.base)] + rest.map_values(
            |g: Seq<u8>| spec_format_group(g, config.base),
        ));
        assert(views(texts@) =~= before.push(t@));
        i = end;
    }
    assert(groups_from(bytes@, gs as int, little, i as int) =~= Seq::<Seq<u8>>::empty());
    assert(views(texts@) =~= all);
    let mut out = String::new();
    push_char(&mut out, ' ');
    let joined = crate::text::join_strings(texts.as_slice(), " ");
    push_str(&mut out, joined.as_str());
    proof {
        reveal_strlit(" ");
        assert(" "@ =~= seq![' ']);
    }
    assert(out@ =~= seq![' '] + join(all, seq![' ']));
    out
}

/// The characters that `table` shows for `bytes`.
pub open spec fn spec_format_char_panel(bytes: Seq<u8>, table: CharacterTable) -> Seq<char> {
    bytes.map_values(|b: u8| spec_map_byte(table, b))
}

fn format_char_panel(bytes: &[u8], table: CharacterTable) -> (r: String)
    ensures
        r@ == spec_format_char_panel(bytes@, table),
{
    let mut out = String::new();
    let mut i: usize = 0;
    while i < bytes.len()
        invariant
            i <= bytes@.len(),
            out@ == spec_format_char_panel(bytes@.take(i as int), table),
        decreases bytes.len() - i,
    {
        push_char(&mut out, table.map_byte(bytes[i]));
        assert(spec_format_char_panel(bytes@.take(i + 1), table) =~= spec_format_char_panel(
            bytes@.take(i as int),
            table,
        ).push(spec_map_byte(table, bytes@[i as int])));
        i = i + 1;
    }
    assert(bytes@.take(bytes@.len() as int) == bytes@);
    out
}


/// The bytes of panel `k` of a line, if the line reaches it.
pub open spec fn panel_bytes(chunk: Seq<u8>, k: int) -> Option<Seq<u8>> {
    if 8 * k >= chunk.len() {
        None
    } else {
        Some(
            chunk.subrange(
                8 * k,
                if 8 * k + 8 < chunk.len() {
                    8 * k + 8
                } else {
                    chunk.len() as int
                },
            ),
        )
    }
}

/// The hexadecimal panels of a line: empty beyond its bytes.
pub open spec fn line_hex_panels(chunk: Seq<u8>, c: Config, panels: int) -> Seq<Seq<char>> {
    Seq::new(
        panels as nat,
        |k: int|
            match panel_bytes(chunk, k) {
                Some(b) => spec_format_hex_panel(b, c),
                None => Seq::empty(),
            },
    )
}

/// The character panels of a line: empty beyond its bytes.
pub open spec fn line_char_panels(chunk: Seq<u8>, c: Config, panels: int) -> Seq<Seq<char>> {
    Seq::new(
        panels as nat,
        |k: int|
            match panel_bytes(chunk, k) {
                Some(b) => spec_format_char_panel(b, c.character_table),
                None => Seq::empty(),
            },
    )
}

fn format_line(chunk: &[u8], config: &Config, panels: usize) -> (r: (Vec<String>, Vec<String>))
    requires
        config.group_size > 0,
        8 * panels <= usize::MAX,
    ensures
        views(r.0@) == line_hex_panels(chunk@, *config, panels as int),
        views(r.1@) == line_char_panels(chunk@, *config, panels as int),
{
    let mut hex_panels: Vec<String> = Vec::new();
    let mut char_panels: Vec<String> = Vec::new();
    let mut k: usize = 0;
    while k < panels
        invariant
            k <= panels,
            8 * panels <= usize::MAX,
            config.group_size > 0,
            views(hex_panels@) == line_hex_panels(chunk@, *config, k as int),
            views(char_panels@) == line_char_panels(chunk@, *config, k as int),
        decreases panels - k,
    {
        let start = k * 8;
        let ghost hb = views(hex_panels@);
        let ghost cb = views(char_panels@);
        assert(start == 8 * k);
        if start >= chunk.len() {
            hex_panels.push(String::new());
            char_panels.push(String::new());
            assert(views(hex_panels@) =~= hb.push(Seq::<char>::empty()));
            assert(views(char_panels@) =~= cb.push(Seq::<char>::empty()));
        } else {
            let end = if start + 8 < chunk.len() {
                start + 8
            } else {
                chunk.len()
            };
            let panel = crate::text::slice_bytes(chunk, start, end);
            assert(panel_bytes(chunk@, k as int) == Some(panel@));
            let h = format_hex_panel(panel.as_slice(), config);
            let c = format_char_panel(panel.as_slice(), config.character_table);
            hex_panels.push(h);
            char_panels.push(c);
            assert(views(hex_panels@) =~= hb.push(h@));
            assert(views(char_panels@) =~= cb.push(c@));
        }
        assert(views(hex_panels@) =~= line_hex_panels(chunk@, *config, k + 1));
        assert(views(char_panels@) =~= line_char_panels(chunk@, *config, k + 1));
        k = k + 1;
    }
    (hex_panels, char_panels)
}

/// The offset shown for the byte at `off`.
pub open spec fn shown_offset(c: Config, off: int) -> u64 {
    ((c.display_offset as u64) as int + off) as u64
}

/// Whether every shown offset of `len` bytes fits a `u64`.
pub open spec fn offsets_fit(c: Config, len: int) -> bool {
    (c.display_offset as u64) as int + len <= u64::MAX
}

/// The rows of `data` from byte `off` on.
pub open spec fn rows_from(data: Seq<u8>, c: Config, off: int) -> Seq<RowView>
    decreases data.len() - off,
{
    let bpl = spec_bytes_per_line(c);
    if bpl <= 0 || off < 0 || off >= data.len() {
        Seq::empty()
    } else {
        let end = if off + bpl < data.len() {
            off + bpl
        } else {
            data.len() as int
        };
        let chunk = data.subrange(off, end);
        let panels = spec_panel_count(c);
        seq![
            RowView {
                offset: shown_offset(c, off),
                hex: line_hex_panels(chunk, c, panels),
                chars: line_char_panels(chunk, c, panels),
                marker: false,
            },
        ] + rows_from(data, c, end)
    }
}

/// The shown offset as a `u64`.
fn offset_value(config: &Config, off: usize) -> (r: u64)
    requires
        off as int + (config.display_offset as u64) as int <= u64::MAX,
    ensures
        r == shown_offset(*config, off as int),
{
    let base = config.display_offset as u64;
    base + off as u64
}

fn build_rows(data: &[u8], config: &Config) -> (r: Vec<DisplayRow>)
    requires
        config.group_size > 0,
        line_fits(*config),
        offsets_fit(*config, data@.len() as int),
    ensures
        row_views(r@) == rows_from(data@, *config, 0),
{
    let bpl = bytes_per_line(config);
    let panels = panel_count(config);
    let mut rows: Vec<DisplayRow> = Vec::new();
    let mut off: usize = 0;
    assert(row_views(rows@) =~= Seq::<RowView>::empty());
    while off < data.len()
        invariant
            off <= data@.len(),
            bpl == spec_bytes_per_line(*config),
            bpl >= 8,
            panels == spec_panel_count(*config),
            8 * panels <= usize::MAX,
            config.group_size > 0,
            offsets_fit(*config, data@.len() as int),
            rows_from(data@, *config, 0) == row_views(rows@) + rows_from(data@, *config, off as int),
        decreases data.len() - off,
    {
        let end = if bpl < data.len() - off {
            off + bpl
        } else {
            data.len()
        };
        let chunk = crate::text::slice_bytes(data, off, end);
        let (hex_panels, char_panels) = format_line(chunk.as_slice(), config, panels);
        let ghost before = row_views(rows@);
        let row = DisplayRow {
            offset: offset_value(config, off),
            hex_panels,
            char_panels,
            is_squeeze_marker: false,
        };
        rows.push(row);
        assert(row_views(rows@) =~= before.push(row@));
        assert(rows_from(data@, *config, off as int) == seq![row@] + rows_from(data@, *config, end as int));
        off = end;
    }
    assert(rows_from(data@, *config, off as int) =~= Seq::<RowView>::empty());
    rows
}

/// Whether two rows show the same panels.
pub open spec fn same_content(a: RowView, b: RowView) -> bool {
    a.hex == b.hex && a.chars == b.chars
}

/// Where the run of rows from `j` on that repeat row `i` ends.
pub open spec fn repeat_end(rows: Seq<RowView>, i: int, j: int) -> int
    decreases rows.len() - j,
{
    if 0 <= i < rows.len() && 0 <= j < rows.len() && same_content(rows[j], rows[i]) {
        repeat_end(rows, i, j + 1)
    } else {
        j
    }
}

pub proof fn lemma_repeat_end(rows: Seq<RowView>, i: int, j: int)
    requires
        0 <= j <= rows.len(),
    ensures
        j <= repeat_end(rows, i, j) <= rows.len(),
    decreases rows.len() - j,
{
    if 0 <= i < rows.len() && 0 <= j < rows.len() && same_content(rows[j], rows[i]) {
        lemma_repeat_end(rows, i, j + 1);
    }
}

/// `n` empty panels.
pub open spec fn blank_panels(n: int) -> Seq<Seq<char>> {
    Seq::new(n as nat, |k: int| Seq::<char>::empty())
}

/// The marker that stands for the rows repeating `r`.
pub open spec fn marker_for(r: RowView) -> RowView {
    RowView {
        offset: 0,
        hex: blank_panels(r.hex.len() as int),
        chars: blank_panels(r.chars.len() as int),
        marker: true,
    }
}

/// The rows from `i` on with each run of repeated rows replaced by a marker,
/// and whether any run was replaced.
pub open spec fn squeeze_from(rows: Seq<RowView>, i: int) -> (Seq<RowView>, bool)
    decreases rows.len() - i,
{
    if i < 0 || i >= rows.len() {
        (Seq::empty(), false)
    } else {
        let j = repeat_end(rows, i, i + 1);
        proof {
            lemma_repeat_end(rows, i, i + 1);
        }
        let rest = squeeze_from(rows, j);
        (
            seq![rows[i]] + (if j > i + 1 {
                seq![marker_for(rows[i])]
            } else {
                Seq::empty()
            }) + rest.0,
            j > i + 1 || rest.1,
        )
    }
}

/// The rows with repeats squeezed; after a squeeze, when the data fills
/// whole lines, a final row with the end offset.
pub open spec fn spec_apply_squeezing(rows: Seq<RowView>, data_len: int, bpl: int, display_offset: u64) -> Seq<RowView> {
    if rows.len() == 0 {
        rows
    } else {
        let (res, had) = squeeze_from(rows, 0);
        if had && data_len > 0 && data_len % bpl == 0 {
            res.push(
                RowView {
                    offset: (display_offset + data_len) as u64,
                    hex: blank_panels(res[0].hex.len() as int),
                    chars: blank_panels(res[0].chars.len() as int),
                    marker: false,
                },
            )
        } else {
            res
        }
    }
}

/// Whether two lists of strings are equal.
fn strings_eq(a: &Vec<String>, b: &Vec<String>) -> (r: bool)
    ensures
        r == (views(a@) == views(b@)),
{
    if a.len() != b.len() {
        assert(views(a@).len() != views(b@).len());
        return false;
    }
    let mut i: usize = 0;
    while i < a.len()
        invariant
            i <= a@.len(),
            a@.len() == b@.len(),
            forall|k: int| 0 <= k < i ==> a@[k]@ == b@[k]@,
        decreases a.len() - i,
    {
        if !crate::text::str_eq(a[i].as_str(), b[i].as_str()) {
            assert(views(a@)[i as int] != views(b@)[i as int]);
            return false;
        }
        i = i + 1;
    }
    assert(views(a@) =~= views(b@));
    true
}

/// `n` empty strings.
fn blanks(n: usize) -> (r: Vec<String>)
    ensures
        views(r@) == blank_panels(n as int),
{
    let mut r: Vec<String> = Vec::new();
    let mut i: usize = 0;
    while i < n
        invariant
            i <= n,
            views(r@) == blank_panels(i as int),
        decreases n - i,
    {
        let ghost before = views(r@);
        r.push(String::new());
        assert(views(r@) =~= before.push(Seq::<char>::empty()));
        assert(views(r@) =~= blank_panels(i + 1));
        i = i + 1;
    }
    r
}

fn copy_row(r: &DisplayRow) -> (c: DisplayRow)
    ensures
        c@ == r@,
{
    DisplayRow {
        offset: r.offset,
        hex_panels: copy_strings(&r.hex_panels),
        char_panels: copy_strings(&r.char_panels),
        is_squeeze_marker: r.is_squeeze_marker,
    }
}

fn copy_strings(v: &Vec<String>) -> (c: Vec<String>)
    ensures
        views(c@) == views(v@),
{
    let mut c: Vec<String> = Vec::new();
    let mut i: usize = 0;
    while i < v.len()
        invariant
            i <= v@.len(),
            views(c@) == views(v@).take(i as int),
        decreases v.len() - i,
    {
        let ghost before = views(c@);
        c.push(v[i].clone());
        assert(views(c@) =~= before.push(v@[i as int]@));
        assert(views(c@) =~= views(v@).take(i + 1));
        i = i + 1;
    }
    assert(views(v@).take(v@.len() as int) =~= views(v@));
    c
}

fn apply_squeezing(rows: Vec<DisplayRow>, data_len: usize, bpl: usize, display_offset: u64) -> (r: Vec<DisplayRow>)
    requires
        bpl > 0,
        display_offset + data_len <= u64::MAX,
    ensures
        row_views(r@) == spec_apply_squeezing(row_views(rows@), data_len as int, bpl as int, display_offset),
{
    if rows.len() == 0 {
        return rows;
    }
    let ghost rv = row_views(rows@);
    let mut result: Vec<DisplayRow> = Vec::new();
    let mut had = false;
    let mut i: usize = 0;
    assert(row_views(result@) =~= Seq::<RowView>::empty());
    while i < rows.len()
        invariant
            i <= rows@.len(),
            rv == row_views(rows@),
            rows@.len() > 0,
            i > 0 ==> row_views(result@).len() > 0 && row_views(result@)[0] == rv[0],
            squeeze_from(rv, 0).0 == row_views(result@) + squeeze_from(rv, i as int).0,
            squeeze_from(rv, 0).1 == (had || squeeze_from(rv, i as int).1),
        decreases rows.len() - i,
    {
        let current = copy_row(&rows[i]);
        let ghost before = row_views(result@);
        result.push(copy_row(&current));
        let mut j = i + 1;
        proof {
            lemma_repeat_end(rv, i as int, i + 1);
        }
        while j < rows.len() && strings_eq(&rows[j].hex_panels, &current.hex_panels) && strings_eq(
            &rows[j].char_panels,
            &current.char_panels,
        )
            invariant
                i < j <= rows@.len(),
                rv == row_views(rows@),
                current@ == rv[i as int],
                repeat_end(rv, i as int, i + 1) == repeat_end(rv, i as int, j as int),
            decreases rows.len() - j,
        {
            assert(rv[j as int] == rows@[j as int]@);
            j = j + 1;
        }
        proof {
            if j < rows@.len() {
                assert(rv[j as int] == rows@[j as int]@);
            }
        }
        assert(j == repeat_end(rv, i as int, i + 1));
        if j > i + 1 {
            had = true;
            let marker = DisplayRow {
                offset: 0,
                hex_panels: blanks(current.hex_panels.len()),
                char_panels: blanks(current.char_panels.len()),
                is_squeeze_marker: true,
            };
            result.push(marker);
            assert(row_views(result@) =~= before + seq![current@] + seq![marker_for(current@)]);
        } else {
            assert(row_views(result@) =~= before + seq![current@] + Seq::<RowView>::empty());
        }
        i = j;
    }
    assert(squeeze_from(rv, i as int).0 =~= Seq::<RowView>::empty());
    if had && data_len > 0 && data_len % bpl == 0 {
        let first_hex = result[0].hex_panels.len();
        let first_chars = result[0].char_panels.len();
        let ghost before = row_views(result@);
        let last = DisplayRow {
            offset: display_offset + data_len as u64,
            hex_panels: blanks(first_hex),
            char_panels: blanks(first_chars),
            is_squeeze_marker: false,
        };
        result.push(last);
        assert(row_views(result@) =~= before.push(last@));
    }
    result
}


/// `n` copies of `c`.
pub open spec fn rep(c: char, n: int) -> Seq<char> {
    Seq::new(n as nat, |k: int| c)
}

/// `s` padded with spaces on the right to `w` characters.
pub open spec fn pad_right(s: Seq<char>, w: int) -> Seq<char> {
    if s.len() >= w {
        s
    } else {
        s + rep(' ', w - s.len())
    }
}

/// `n` copies of `piece` with `sep` between neighbours.
pub open spec fn repeat_join(piece: Seq<char>, n: int, sep: Seq<char>) -> Seq<char> {
    join(Seq::new(n as nat, |k: int| piece), sep)
}

/// `n` copies of `piece`, one after another.
pub open spec fn repeat_concat(piece: Seq<char>, n: int) -> Seq<char> {
    concat(Seq::new(n as nat, |k: int| piece))
}

/// Appends `n` copies of `c`.
fn push_rep(out: &mut String, c: char, n: usize)
    ensures
        final(out)@ == old(out)@ + rep(c, n as int),
{
    let mut i: usize = 0;
    while i < n
        invariant
            i <= n,
            out@ == old(out)@ + rep(c, i as int),
        decreases n - i,
    {
        push_char(out, c);
        assert(old(out)@ + rep(c, i + 1) =~= (old(out)@ + rep(c, i as int)).push(c));
        i = i + 1;
    }
}

/// Appends `s` padded with spaces to `w` characters.
fn push_padded(out: &mut String, s: &str, w: usize)
    ensures
        final(out)@ == old(out)@ + pad_right(s@, w as int),
{
    push_str(out, s);
    let len = s.unicode_len();
    if len < w {
        push_rep(out, ' ', w - len);
    }
}

/// Appends `n` copies of `piece`, with `sep` between neighbours when there is one.
fn push_repeated(out: &mut String, piece: &str, n: usize, sep: Option<char>)
    ensures
        final(out)@ == old(out)@ + match sep {
            Some(c) => repeat_join(piece@, n as int, seq![c]),
            None => repeat_concat(piece@, n as int),
        },
{
    let ghost all = Seq::new(n as nat, |k: int| piece@);
    let mut i: usize = 0;
    assert(all.take(0) =~= Seq::<Seq<char>>::empty());
    while i < n
        invariant
            i <= n,
            all == Seq::new(n as nat, |k: int| piece@),
            out@ == old(out)@ + match sep {
                Some(c) => join(all.take(i as int), seq![c]),
                None => concat(all.take(i as int)),
            },
        decreases n - i,
    {
        let ghost before = out@;
        if i > 0 {
            if let Some(c) = sep {
                push_char(out, c);
            }
        }
        push_str(out, piece);
        proof {
            assert(all.take(i + 1) =~= all.take(i as int).push(piece@));
            if let Some(c) = sep {
                crate::text::lemma_join_push(all.take(i as int), piece@, seq![c]);
            } else {
                crate::text::lemma_concat_push(all.take(i as int), piece@);
            }
        }
        assert(out@ =~= old(out)@ + match sep {
            Some(c) => join(all.take(i + 1), seq![c]),
            None => concat(all.take(i + 1)),
        });
        i = i + 1;
    }
    assert(all.take(n as int) =~= all);
}

/// Appends the strings of `v`, each padded to `w` (when `w` is given), with
/// `sep` between neighbours.
fn push_panels(out: &mut String, v: &Vec<String>, w: Option<usize>, sep_text: &str)
    ensures
        final(out)@ == old(out)@ + join(
            match w {
                Some(w) => views(v@).map_values(|s: Seq<char>| pad_right(s, w as int)),
                None => views(v@),
            },
            sep_text@,
        ),
{
    let ghost sep = sep_text@;
    let ghost all = match w {
        Some(w) => views(v@).map_values(|s: Seq<char>| pad_right(s, w as int)),
        None => views(v@),
    };
    let mut i: usize = 0;
    assert(all.take(0) =~= Seq::<Seq<char>>::empty());
    while i < v.len()
        invariant
            i <= v@.len(),
            sep_text@ == sep,
            all == match w {
                Some(w) => views(v@).map_values(|s: Seq<char>| pad_right(s, w as int)),
                None => views(v@),
            },
            out@ == old(out)@ + join(all.take(i as int), sep),
        decreases v.len() - i,
    {
        let ghost before = out@;
        if i > 0 {
            push_str(out, sep_text);
        }
        let ghost mid = out@;
        match w {
            Some(width) => push_padded(out, v[i].as_str(), width),
            None => push_str(out, v[i].as_str()),
        }
        proof {
            assert(all.take(i + 1) =~= all.take(i as int).push(all[i as int]));
            crate::text::lemma_join_push(all.take(i as int), all[i as int], sep);
        }
        assert(out@ =~= old(out)@ + join(all.take(i + 1), sep));
        i = i + 1;
    }
    assert(all.take(v@.len() as int) =~= all);
}

/// A horizontal border: corners, a position column when shown, the panel
/// columns separated by `mid`, and the character columns.
pub open spec fn spec_border_line(
    left: char,
    right: char,
    horiz: char,
    mid: char,
    panels: int,
    hex_w: int,
    char_w: int,
    show_pos: bool,
) -> Seq<char> {
    seq![left] + (if show_pos {
        rep(horiz, 8).push(mid)
    } else {
        Seq::empty()
    }) + repeat_join(rep(horiz, hex_w), panels, seq![mid]) + (if char_w > 0 {
        repeat_concat(seq![mid] + rep(horiz, char_w), panels)
    } else {
        Seq::empty()
    }) + seq![right]
}

fn border_line(
    left: char,
    right: char,
    horiz: char,
    mid: char,
    panels: usize,
    hex_w: usize,
    char_w: usize,
    show_pos: bool,
) -> (r: String)
    ensures
        r@ == spec_border_line(left, right, horiz, mid, panels as int, hex_w as int, char_w as int, show_pos),
{
    let mut h = String::new();
    push_rep(&mut h, horiz, hex_w);
    let mut c = String::new();
    push_char(&mut c, mid);
    push_rep(&mut c, horiz, char_w);
    let mut s = String::new();
    push_char(&mut s, left);
    if show_pos {
        push_rep(&mut s, horiz, 8);
        push_char(&mut s, mid);
    }
    push_repeated(&mut s, h.as_str(), panels, Some(mid));
    if char_w > 0 {
        push_repeated(&mut s, c.as_str(), panels, None);
    }
    push_char(&mut s, right);
    assert(h@ =~= rep(horiz, hex_w as int));
    assert(c@ =~= seq![mid] + rep(horiz, char_w as int));
    s
}

/// The right corner that goes with a left one at the top.
pub open spec fn top_right(left: char) -> char {
    if left == '\u{250c}' {
        '\u{2510}'
    } else {
        left
    }
}

/// The right corner that goes with a left one at the bottom.
pub open spec fn bottom_right(left: char) -> char {
    if left == '\u{2514}' {
        '\u{2518}'
    } else {
        left
    }
}

fn top_border(left: char, horiz: char, mid: char, panels: usize, hex_w: usize, char_w: usize, show_pos: bool) -> (r: String)
    ensures
        r@ == spec_border_line(left, top_right(left), horiz, mid, panels as int, hex_w as int, char_w as int, show_pos),
{
    let right = if left == '\u{250c}' {
        '\u{2510}'
    } else if left == '+' {
        '+'
    } else {
        left
    };
    border_line(left, right, horiz, mid, panels, hex_w, char_w, show_pos)
}

fn bottom_border(left: char, horiz: char, mid: char, panels: usize, hex_w: usize, char_w: usize, show_pos: bool) -> (r: String)
    ensures
        r@ == spec_border_line(left, bottom_right(left), horiz, mid, panels as int, hex_w as int, char_w as int, show_pos),
{
    let right = if left == '\u{2514}' {
        '\u{2518}'
    } else if left == '+' {
        '+'
    } else {
        left
    };
    border_line(left, right, horiz, mid, panels, hex_w, char_w, show_pos)
}

/// The character columns of a line: a border and the panels separated by `sep`.
pub open spec fn char_columns(vert: char, sep: char, cols: Seq<char>, panels: int, char_w: int) -> Seq<char> {
    if char_w > 0 {
        seq![vert] + cols
    } else {
        Seq::empty()
    }
}

/// The line of an empty dump.
pub open spec fn spec_empty_row(vert: char, sep: char, panels: int, hex_w: int, char_w: int, show_pos: bool) -> Seq<char> {
    seq![vert] + (if show_pos {
        rep(' ', 8).push(vert)
    } else {
        Seq::empty()
    }) + " No content "@ + rep(' ', if hex_w > 12 { hex_w - 12 } else { 0 }) + repeat_concat(
        seq![sep] + rep(' ', hex_w),
        panels - 1,
    ) + char_columns(vert, sep, repeat_join(rep(' ', char_w), panels, seq![sep]), panels, char_w)
        + seq![vert]
}

fn empty_row(vert: char, sep: char, panels: usize, hex_w: usize, char_w: usize, show_pos: bool) -> (r: String)
    requires
        panels >= 1,
    ensures
        r@ == spec_empty_row(vert, sep, panels as int, hex_w as int, char_w as int, show_pos),
{
    let mut line = String::new();
    push_char(&mut line, vert);
    if show_pos {
        push_rep(&mut line, ' ', 8);
        push_char(&mut line, vert);
    }
    push_str(&mut line, " No content ");
    proof {
        reveal_strlit(" No content ");
    }
    if hex_w > 12 {
        push_rep(&mut line, ' ', hex_w - 12);
    } else {
        push_rep(&mut line, ' ', 0);
    }
    let mut piece = String::new();
    push_char(&mut piece, sep);
    push_rep(&mut piece, ' ', hex_w);
    assert(piece@ =~= seq![sep] + rep(' ', hex_w as int));
    push_repeated(&mut line, piece.as_str(), panels - 1, None);
    if char_w > 0 {
        push_char(&mut line, vert);
        let mut blank = String::new();
        push_rep(&mut blank, ' ', char_w);
        assert(blank@ =~= rep(' ', char_w as int));
        push_repeated(&mut line, blank.as_str(), panels, Some(sep));
    }
    push_char(&mut line, vert);
    line
}

/// The eight hexadecimal digits (at least) of an offset.
pub open spec fn hex8(n: u64) -> Seq<char> {
    pad_left(radix_digits(n as nat, 16), 8, '0')
}

/// Sixteen to the power `k`, for `k` at least one.
pub open spec fn hex_limit(k: nat) -> nat
    decreases k,
{
    if k <= 1 {
        16
    } else {
        16 * hex_limit((k - 1) as nat)
    }
}

proof fn lemma_hex_digits_len(n: nat, k: nat)
    requires
        k >= 1,
        n < hex_limit(k),
    ensures
        radix_digits(n, 16).len() <= k,
    decreases n,
{
    if n >= 16 {
        let b = hex_limit((k - 1) as nat);
        assert(k >= 2);
        assert(n / 16 < b) by (nonlinear_arith)
            requires
                n < 16 * b,
        ;
        crate::num::lemma_div_smaller(n, 16);
        lemma_hex_digits_len(n / 16, (k - 1) as nat);
    }
}

/// An offset below 2^32 is written with exactly eight hex digits.
pub proof fn lemma_hex8_len(n: u64)
    requires
        n < 0x1_0000_0000,
    ensures
        hex8(n).len() == 8,
{
    assert(hex_limit(8) == 0x1_0000_0000) by {
        reveal_with_fuel(hex_limit, 8);
    }
    lemma_hex_digits_len(n as nat, 8);
}

/// A content line between borders.
pub open spec fn spec_content_line(vert: char, sep: char, row: RowView, hex_w: int, char_w: int, show_pos: bool) -> Seq<char> {
    seq![vert] + (if show_pos {
        hex8(row.offset).push(vert)
    } else {
        Seq::empty()
    }) + join(row.hex.map_values(|s: Seq<char>| pad_right(s, hex_w)), seq![sep]) + char_columns(
        vert,
        sep,
        join(row.chars.map_values(|s: Seq<char>| pad_right(s, char_w)), seq![sep]),
        0,
        char_w,
    ) + seq![vert]
}

fn content_line(vert: char, sep: char, row: &DisplayRow, hex_w: usize, char_w: usize, show_pos: bool) -> (r: String)
    ensures
        r@ == spec_content_line(vert, sep, row@, hex_w as int, char_w as int, show_pos),
{
    let mut sep_text = String::new();
    push_char(&mut sep_text, sep);
    let mut line = String::new();
    push_char(&mut line, vert);
    if show_pos {
        let h = radix_padded(row.offset, 16, 8);
        push_str(&mut line, h.as_str());
        push_char(&mut line, vert);
    }
    assert(sep_text@ =~= seq![sep]);
    push_panels(&mut line, &row.hex_panels, Some(hex_w), sep_text.as_str());
    if char_w > 0 {
        push_char(&mut line, vert);
        push_panels(&mut line, &row.char_panels, Some(char_w), sep_text.as_str());
    }
    push_char(&mut line, vert);
    line
}

/// The line that stands for squeezed rows between borders.
pub open spec fn spec_squeeze_line(vert: char, sep: char, panels: int, hex_w: int, char_w: int, show_pos: bool) -> Seq<char> {
    seq![vert] + (if show_pos {
        pad_right(seq!['*'], 8).push(vert)
    } else {
        Seq::empty()
    }) + repeat_join(rep(' ', hex_w), panels, seq![sep]) + char_columns(
        vert,
        sep,
        repeat_join(rep(' ', char_w), panels, seq![sep]),
        panels,
        char_w,
    ) + seq![vert]
}

fn squeeze_line(vert: char, sep: char, panels: usize, hex_w: usize, char_w: usize, show_pos: bool) -> (r: String)
    ensures
        r@ == spec_squeeze_line(vert, sep, panels as int, hex_w as int, char_w as int, show_pos),
{
    let mut line = String::new();
    push_char(&mut line, vert);
    if show_pos {
        let mut star = String::new();
        push_char(&mut star, '*');
        assert(star@ =~= seq!['*']);
        push_padded(&mut line, star.as_str(), 8);
        push_char(&mut line, vert);
    }
    let mut blank = String::new();
    push_rep(&mut blank, ' ', hex_w);
    assert(blank@ =~= rep(' ', hex_w as int));
    push_repeated(&mut line, blank.as_str(), panels, Some(sep));
    if char_w > 0 {
        push_char(&mut line, vert);
        let mut cblank = String::new();
        push_rep(&mut cblank, ' ', char_w);
        assert(cblank@ =~= rep(' ', char_w as int));
        push_repeated(&mut line, cblank.as_str(), panels, Some(sep));
    }
    push_char(&mut line, vert);
    line
}


/// The text of a bordered dump: top border, a line per row (a squeeze line
/// for markers), bottom border.
pub open spec fn spec_render_bordered(rows: Seq<RowView>, c: Config, ascii: bool) -> Seq<char> {
    let panels = spec_panel_count(c);
    let hex_w = spec_hex_panel_width(c);
    let char_w: int = if c.show_characters {
        8
    } else {
        0
    };
    let tl = if ascii {
        '+'
    } else {
        '\u{250c}'
    };
    let th = if ascii {
        '-'
    } else {
        '\u{2500}'
    };
    let tm = if ascii {
        '+'
    } else {
        '\u{252c}'
    };
    let v = if ascii {
        '|'
    } else {
        '\u{2502}'
    };
    let bl = if ascii {
        '+'
    } else {
        '\u{2514}'
    };
    let bm = if ascii {
        '+'
    } else {
        '\u{2534}'
    };
    let sep = if ascii {
        '|'
    } else {
        '\u{250a}'
    };
    spec_border_line(tl, top_right(tl), th, tm, panels, hex_w, char_w, c.show_position).push('\n')
        + concat(
        rows.map_values(
            |r: RowView|
                (if r.marker {
                    spec_squeeze_line(v, sep, panels, hex_w, char_w, c.show_position)
                } else {
                    spec_content_line(v, sep, r, hex_w, char_w, c.show_position)
                }).push('\n'),
        ),
    ) + spec_border_line(bl, bottom_right(bl), th, bm, panels, hex_w, char_w, c.show_position).push(
        '\n',
    )
}

fn render_bordered(rows: &Vec<DisplayRow>, config: &Config, ascii: bool) -> (r: String)
    ensures
        r@ == spec_render_bordered(row_views(rows@), *config, ascii),
{
    let panels = panel_count(config);
    let hex_w = hex_panel_width(config);
    let char_w: usize = if config.show_characters {
        8
    } else {
        0
    };
    let (tl, th, tm, v, bl, bm, sep) = if ascii {
        ('+', '-', '+', '|', '+', '+', '|')
    } else {
        ('\u{250c}', '\u{2500}', '\u{252c}', '\u{2502}', '\u{2514}', '\u{2534}', '\u{250a}')
    };
    let mut out = top_border(tl, th, tm, panels, hex_w, char_w, config.show_position);
    push_char(&mut out, '\n');
    let ghost head = out@;
    let ghost lines = row_views(rows@).map_values(
        |r: RowView|
            (if r.marker {
                spec_squeeze_line(v, sep, panels as int, hex_w as int, char_w as int, config.show_position)
            } else {
                spec_content_line(v, sep, r, hex_w as int, char_w as int, config.show_position)
            }).push('\n'),
    );
    let mut i: usize = 0;
    assert(lines.take(0) =~= Seq::<Seq<char>>::empty());
    while i < rows.len()
        invariant
            i <= rows@.len(),
            lines == row_views(rows@).map_values(
                |r: RowView|
                    (if r.marker {
                        spec_squeeze_line(v, sep, panels as int, hex_w as int, char_w as int, config.show_position)
                    } else {
                        spec_content_line(v, sep, r, hex_w as int, char_w as int, config.show_position)
                    }).push('\n'),
            ),
            out@ == head + concat(lines.take(i as int)),
        decreases rows.len() - i,
    {
        let line = if rows[i].is_squeeze_marker {
            squeeze_line(v, sep, panels, hex_w, char_w, config.show_position)
        } else {
            content_line(v, sep, &rows[i], hex_w, char_w, config.show_position)
        };
        push_str(&mut out, line.as_str());
        push_char(&mut out, '\n');
        proof {
            assert(row_views(rows@)[i as int] == rows@[i as int]@);
            assert(lines.take(i + 1) =~= lines.take(i as int).push(lines[i as int]));
            crate::text::lemma_concat_push(lines.take(i as int), lines[i as int]);
        }
        assert(out@ =~= head + concat(lines.take(i + 1)));
        i = i + 1;
    }
    assert(lines.take(rows@.len() as int) =~= lines);
    let bottom = bottom_border(bl, th, bm, panels, hex_w, char_w, config.show_position);
    push_str(&mut out, bottom.as_str());
    push_char(&mut out, '\n');
    out
}

/// `s` without one leading space.
pub open spec fn strip_space(s: Seq<char>) -> Seq<char> {
    if s.len() > 0 && s[0] == ' ' {
        s.drop_first()
    } else {
        s
    }
}

/// The character columns of a borderless line.
pub open spec fn borderless_chars(row: RowView, c: Config) -> Seq<char> {
    if c.show_characters {
        "     "@ + join(row.chars, seq![' ']) + "  "@
    } else if !c.show_position {
        "     "@
    } else {
        Seq::empty()
    }
}

/// A line of a dump without borders.
pub open spec fn spec_borderless_line(row: RowView, c: Config) -> Seq<char> {
    let panels = spec_panel_count(c);
    let hex_w = spec_hex_content_width(c);
    if row.marker {
        (if c.show_position {
            " *       "@
        } else {
            "  "@
        }) + repeat_join(rep(' ', hex_w), panels, "   "@) + borderless_chars(row, c)
    } else {
        (if c.show_position {
            seq![' '] + hex8(row.offset) + "  "@
        } else {
            "  "@
        }) + join(row.hex.map_values(|s: Seq<char>| strip_space(s)), "   "@) + borderless_chars(
            row,
            c,
        )
    }
}

fn strip_space_of(s: &str) -> (r: String)
    ensures
        r@ == strip_space(s@),
{
    let cs = crate::text::chars_of(s);
    if cs.len() > 0 && cs[0] == ' ' {
        crate::text::string_of_range(cs.as_slice(), 1, cs.len())
    } else {
        to_string(s)
    }
}

fn borderless_line(row: &DisplayRow, config: &Config) -> (r: String)
    ensures
        r@ == spec_borderless_line(row@, *config),
{
    let panels = panel_count(config);
    let hex_w = hex_content_width(config);
    let mut line = String::new();
    if row.is_squeeze_marker {
        if config.show_position {
            push_str(&mut line, " *       ");
        } else {
            push_str(&mut line, "  ");
        }
        let mut blank = String::new();
        push_rep(&mut blank, ' ', hex_w);
        assert(blank@ =~= rep(' ', hex_w as int));
        push_repeated_text(&mut line, blank.as_str(), panels, "   ");
    } else {
        if config.show_position {
            push_char(&mut line, ' ');
            let h = radix_padded(row.offset, 16, 8);
            push_str(&mut line, h.as_str());
            push_str(&mut line, "  ");
        } else {
            push_str(&mut line, "  ");
        }
        let mut stripped: Vec<String> = Vec::new();
        let mut i: usize = 0;
        while i < row.hex_panels.len()
            invariant
                i <= row.hex_panels@.len(),
                views(stripped@) == views(row.hex_panels@).take(i as int).map_values(
                    |s: Seq<char>| strip_space(s),
                ),
            decreases row.hex_panels.len() - i,
        {
            let ghost before = views(stripped@);
            let t = strip_space_of(row.hex_panels[i].as_str());
            stripped.push(t);
            assert(views(stripped@) =~= before.push(strip_space(row.hex_panels@[i as int]@)));
            assert(views(stripped@) =~= views(row.hex_panels@).take(i + 1).map_values(
                |s: Seq<char>| strip_space(s),
            ));
            i = i + 1;
        }
        assert(views(row.hex_panels@).take(row.hex_panels@.len() as int) =~= views(row.hex_panels@));
        push_panels(&mut line, &stripped, None, "   ");
    }
    if config.show_characters {
        push_str(&mut line, "     ");
        let mut sp = String::new();
        push_char(&mut sp, ' ');
        push_panels(&mut line, &row.char_panels, None, sp.as_str());
        assert(sp@ =~= seq![' ']);
        push_str(&mut line, "  ");
    } else if !config.show_position {
        push_str(&mut line, "     ");
    }
    line
}

/// Appends `n` copies of `piece` with the text `sep` between neighbours.
fn push_repeated_text(out: &mut String, piece: &str, n: usize, sep: &str)
    ensures
        final(out)@ == old(out)@ + repeat_join(piece@, n as int, sep@),
{
    let ghost all = Seq::new(n as nat, |k: int| piece@);
    let mut i: usize = 0;
    assert(all.take(0) =~= Seq::<Seq<char>>::empty());
    while i < n
        invariant
            i <= n,
            all == Seq::new(n as nat, |k: int| piece@),
            out@ == old(out)@ + join(all.take(i as int), sep@),
        decreases n - i,
    {
        if i > 0 {
            push_str(out, sep);
        }
        push_str(out, piece);
        proof {
            assert(all.take(i + 1) =~= all.take(i as int).push(piece@));
            crate::text::lemma_join_push(all.take(i as int), piece@, sep@);
        }
        assert(out@ =~= old(out)@ + join(all.take(i + 1), sep@));
        i = i + 1;
    }
    assert(all.take(n as int) =~= all);
}

/// The text of a dump without borders: one line per row.
pub open spec fn spec_render_borderless(rows: Seq<RowView>, c: Config) -> Seq<char> {
    concat(rows.map_values(|r: RowView| spec_borderless_line(r, c).push('\n')))
}

fn render_borderless(rows: &Vec<DisplayRow>, config: &Config) -> (r: String)
    ensures
        r@ == spec_render_borderless(row_views(rows@), *config),
{
    let ghost lines = row_views(rows@).map_values(|r: RowView| spec_borderless_line(r, *config).push('\n'));
    let mut out = String::new();
    let mut i: usize = 0;
    assert(lines.take(0) =~= Seq::<Seq<char>>::empty());
    while i < rows.len()
        invariant
            i <= rows@.len(),
            lines == row_views(rows@).map_values(|r: RowView| spec_borderless_line(r, *config).push('\n')),
            out@ == concat(lines.take(i as int)),
        decreases rows.len() - i,
    {
        let line = borderless_line(&rows[i], config);
        push_str(&mut out, line.as_str());
        push_char(&mut out, '\n');
        proof {
            assert(row_views(rows@)[i as int] == rows@[i as int]@);
            assert(lines.take(i + 1) =~= lines.take(i as int).push(lines[i as int]));
            crate::text::lemma_concat_push(lines.take(i as int), lines[i as int]);
        }
        assert(out@ =~= concat(lines.take(i + 1)));
        i = i + 1;
    }
    assert(lines.take(rows@.len() as int) =~= lines);
    out
}

/// The text of an empty dump.
pub open spec fn spec_render_empty(c: Config) -> Seq<char> {
    let panels = spec_panel_count(c);
    let hex_w = spec_hex_panel_width(c);
    let char_w: int = if c.show_characters {
        8
    } else {
        0
    };
    match c.border {
        BorderStyle::NoBorder => seq!['\n'],
        BorderStyle::Ascii => spec_border_line('+', '+', '-', '+', panels, hex_w, char_w, c.show_position).push(
            '\n',
        ) + spec_empty_row('|', '|', panels, hex_w, char_w, c.show_position).push('\n')
            + spec_border_line('+', '+', '-', '+', panels, hex_w, char_w, c.show_position).push('\n'),
        BorderStyle::Unicode => spec_border_line(
            '\u{250c}',
            '\u{2510}',
            '\u{2500}',
            '\u{252c}',
            panels,
            hex_w,
            char_w,
            c.show_position,
        ).push('\n') + spec_empty_row('\u{2502}', '\u{250a}', panels, hex_w, char_w, c.show_position).push(
            '\n',
        ) + spec_border_line(
            '\u{2514}',
            '\u{2518}',
            '\u{2500}',
            '\u{2534}',
            panels,
            hex_w,
            char_w,
            c.show_position,
        ).push('\n'),
    }
}

fn render_empty(config: &Config) -> (r: String)
    ensures
        r@ == spec_render_empty(*config),
{
    let panels = panel_count(config);
    let hex_w = hex_panel_width(config);
    let char_w: usize = if config.show_characters {
        8
    } else {
        0
    };
    let mut out = String::new();
    match config.border {
        BorderStyle::NoBorder => {
            push_char(&mut out, '\n');
            assert(out@ =~= seq!['\n']);
        },
        BorderStyle::Ascii => {
            let t = top_border('+', '-', '+', panels, hex_w, char_w, config.show_position);
            push_str(&mut out, t.as_str());
            push_char(&mut out, '\n');
            let e = empty_row('|', '|', panels, hex_w, char_w, config.show_position);
            push_str(&mut out, e.as_str());
            push_char(&mut out, '\n');
            let b = bottom_border('+', '-', '+', panels, hex_w, char_w, config.show_position);
            push_str(&mut out, b.as_str());
            push_char(&mut out, '\n');
        },
        BorderStyle::Unicode => {
            let t = top_border('\u{250c}', '\u{2500}', '\u{252c}', panels, hex_w, char_w, config.show_position);
            push_str(&mut out, t.as_str());
            push_char(&mut out, '\n');
            let e = empty_row('\u{2502}', '\u{250a}', panels, hex_w, char_w, config.show_position);
            push_str(&mut out, e.as_str());
            push_char(&mut out, '\n');
            let b = bottom_border('\u{2514}', '\u{2500}', '\u{2534}', panels, hex_w, char_w, config.show_position);
            push_str(&mut out, b.as_str());
            push_char(&mut out, '\n');
        },
    }
    out
}


/// The final component of a path, as `std::path::Path::file_name` gives it
/// (as text).
pub uninterp spec fn path_file_name(path: Seq<char>) -> Option<Seq<char>>;

/// `Path::new(name).file_name()` as text: believed to be
/// [`path_file_name`] of `name` (a component of a `&str` path is always
/// valid text, so `to_str` never fails).
#[verifier::external_body]
fn file_name_of(name: &str) -> (r: Option<String>)
    ensures
        match r {
            Some(s) => path_file_name(name@) == Some(s@),
            None => path_file_name(name@) is None,
        },
{
    std::path::Path::new(name).file_name().and_then(|s| s.to_str()).map(|s| s.to_string())
}

/// A character of a C identifier: ASCII letters and digits stay, others
/// become `_`.
pub open spec fn ident_char(c: char) -> char {
    if ('a' <= c && c <= 'z') || ('A' <= c && c <= 'Z') || ('0' <= c && c <= '9') {
        c
    } else {
        '_'
    }
}

/// The variable name for a file: its final component with other characters
/// than ASCII letters and digits turned into `_`; `stdin` when that is empty.
pub open spec fn spec_sanitize_name(name: Seq<char>) -> Seq<char> {
    let f = match path_file_name(name) {
        Some(x) => x,
        None => "stdin"@,
    };
    let s = f.map_values(|c: char| ident_char(c));
    if s.len() == 0 {
        "stdin"@
    } else {
        s
    }
}

fn sanitize_name(name: &str) -> (r: String)
    ensures
        r@ == spec_sanitize_name(name@),
{
    let f = match file_name_of(name) {
        Some(x) => x,
        None => to_string("stdin"),
    };
    let cs = crate::text::chars_of(f.as_str());
    let mut out = String::new();
    let mut i: usize = 0;
    while i < cs.len()
        invariant
            i <= cs@.len(),
            out@ == cs@.take(i as int).map_values(|c: char| ident_char(c)),
        decreases cs.len() - i,
    {
        let c = cs[i];
        let k = if ('a' <= c && c <= 'z') || ('A' <= c && c <= 'Z') || ('0' <= c && c <= '9') {
            c
        } else {
            '_'
        };
        push_char(&mut out, k);
        assert(cs@.take(i + 1).map_values(|c: char| ident_char(c)) =~= cs@.take(i as int).map_values(
            |c: char| ident_char(c),
        ).push(ident_char(cs@[i as int])));
        i = i + 1;
    }
    assert(cs@.take(cs@.len() as int) == cs@);
    if out.as_str().is_empty() {
        to_string("stdin")
    } else {
        out
    }
}

/// The bytes of a C array body from byte `i` on: `0x..` items separated by
/// `, `, a line break after every twelfth item that is not the last.
pub open spec fn include_body(data: Seq<u8>, i: int, line_start: bool) -> Seq<char>
    decreases data.len() - i,
{
    if i < 0 || i >= data.len() {
        Seq::empty()
    } else {
        (if line_start {
            Seq::empty()
        } else {
            ", "@
        }) + "0x"@ + pad_left(radix_digits(data[i] as nat, 16), 2, '0') + if (i + 1) % 12 == 0 && i + 1
            < data.len() {
            ",\n  "@ + include_body(data, i + 1, true)
        } else {
            include_body(data, i + 1, false)
        }
    }
}

/// The dump as a C array named after the file, with its length.
pub open spec fn spec_render_include(data: Seq<u8>, c: Config) -> Seq<char> {
    let name = match c.file_name {
        Some(n) => n@,
        None => "stdin"@,
    };
    let var = spec_sanitize_name(name);
    "unsigned char "@ + var + "[] = {\n  "@ + include_body(data, 0, true) + "\n};\nunsigned int "@ + var
        + "_len = "@ + decimal(data.len()) + ";\n"@
}

fn render_include(data: &[u8], config: &Config) -> (r: String)
    ensures
        r@ == spec_render_include(data@, *config),
{
    let var = match &config.file_name {
        Some(n) => sanitize_name(n.as_str()),
        None => sanitize_name("stdin"),
    };
    let mut out = to_string("unsigned char ");
    push_str(&mut out, var.as_str());
    push_str(&mut out, "[] = {\n  ");
    let ghost head = out@;
    let mut line_start = true;
    let mut i: usize = 0;
    while i < data.len()
        invariant
            i <= data@.len(),
            head + include_body(data@, 0, true) == out@ + include_body(data@, i as int, line_start),
        decreases data.len() - i,
    {
        let ghost before = out@;
        if !line_start {
            push_str(&mut out, ", ");
        }
        line_start = false;
        push_str(&mut out, "0x");
        let h = radix_padded(data[i] as u64, 16, 2);
        push_str(&mut out, h.as_str());
        if (i + 1) % 12 == 0 && i + 1 < data.len() {
            push_str(&mut out, ",\n  ");
            line_start = true;
        }
        i = i + 1;
    }
    assert(include_body(data@, i as int, line_start) =~= Seq::<char>::empty());
    push_str(&mut out, "\n};\nunsigned int ");
    push_str(&mut out, var.as_str());
    push_str(&mut out, "_len = ");
    crate::num::push_radix(&mut out, data.len() as u64, 10);
    push_str(&mut out, ";\n");
    out
}

/// Whether rendering `data` ends: when rows are built, groups must have a
/// size, the line length must fit and every shown offset must fit.
pub open spec fn render_defined(data: Seq<u8>, c: Config) -> bool {
    c.include_array || data.len() == 0 || (c.group_size > 0 && line_fits(c) && offsets_fit(
        c,
        data.len() as int,
    ))
}

/// The text of the dump of `data`: a C array, the empty dump, or the rows
/// (squeezed unless asked not to) in the configured frame.
pub open spec fn spec_render(data: Seq<u8>, c: Config) -> Seq<char> {
    if c.include_array {
        spec_render_include(data, c)
    } else if data.len() == 0 {
        spec_render_empty(c)
    } else {
        let rows = rows_from(data, c, 0);
        let shown = if c.no_squeezing {
            rows
        } else {
            spec_apply_squeezing(rows, data.len() as int, spec_bytes_per_line(c), c.display_offset as u64)
        };
        match c.border {
            BorderStyle::NoBorder => spec_render_borderless(shown, c),
            BorderStyle::Ascii => spec_render_bordered(shown, c, true),
            BorderStyle::Unicode => spec_render_bordered(shown, c, false),
        }
    }
}

/// Renders the dump of `data`.
pub fn render(data: &[u8], config: &Config) -> (r: String)
    requires
        render_defined(data@, *config),
    ensures
        r@ == spec_render(data@, *config),
{
    if config.include_array {
        return render_include(data, config);
    }
    if data.len() == 0 {
        return render_empty(config);
    }
    let bpl = bytes_per_line(config);
    let rows = build_rows(data, config);
    let rows = if config.no_squeezing {
        rows
    } else {
        apply_squeezing(rows, data.len(), bpl, config.display_offset as u64)
    };
    match config.border {
        BorderStyle::NoBorder => render_borderless(&rows, config),
        BorderStyle::Ascii => render_bordered(&rows, config, true),
        BorderStyle::Unicode => render_bordered(&rows, config, false),
    }
}

/// [`render`] where it is defined; `None` where rendering would not end
/// or would overflow.
pub fn render_checked(data: &[u8], config: &Config) -> (r: Option<String>)
    ensures
        match r {
            Some(s) => render_defined(data@, *config) && s@ == spec_render(data@, *config),
            None => !render_defined(data@, *config),
        },
{
    if config.include_array || data.len() == 0 {
        return Some(render(data, config));
    }
    if config.group_size == 0 {
        return None;
    }
    let panels_ok = match config.panels {
        Some(p) => config.base == Base::Octal || config.base == Base::Decimal || config.base
            == Base::Binary || p <= usize::MAX / 8,
        None => true,
    };
    if !panels_ok {
        return None;
    }
    let base = config.display_offset as u64;
    if data.len() as u64 > u64::MAX - base {
        return None;
    }
    Some(render(data, config))
}


/// No row shows the same panels as the row before it.
pub open spec fn no_repeats(rows: Seq<RowView>) -> bool {
    forall|i: int| 0 < i < rows.len() ==> !same_content(#[trigger] rows[i], rows[i - 1])
}

proof fn lemma_squeeze_from_distinct(rows: Seq<RowView>, i: int)
    requires
        no_repeats(rows),
        0 <= i <= rows.len(),
    ensures
        squeeze_from(rows, i) == (rows.skip(i), false),
    decreases rows.len() - i,
{
    if i < rows.len() {
        if i + 1 < rows.len() {
            assert(!same_content(rows[i + 1], rows[i]));
        }
        assert(repeat_end(rows, i, i + 1) == i + 1);
        lemma_squeeze_from_distinct(rows, i + 1);
        assert(seq![rows[i]] + rows.skip(i + 1) =~= rows.skip(i));
    } else {
        assert(rows.skip(i) =~= Seq::<RowView>::empty());
    }
}

/// Squeezing rows of which none repeats the one before it changes nothing.
pub proof fn squeeze_keeps_distinct_rows(rows: Seq<RowView>, data_len: int, bpl: int, display_offset: u64)
    requires
        no_repeats(rows),
    ensures
        spec_apply_squeezing(rows, data_len, bpl, display_offset) == rows,
{
    if rows.len() > 0 {
        lemma_squeeze_from_distinct(rows, 0);
        assert(rows.skip(0) =~= rows);
    }
}


/// Each byte is written in its base as a fixed number of digits whose value
/// in that base is the byte: two hexadecimal, eight binary, three octal or
/// three decimal digits, lower-case letters only.
pub proof fn byte_text_spells_the_byte(b: u8)
    ensures
        ({
            let t = byte_text(b, Base::Hexadecimal);
            &&& t.len() == 2 && all_digits(t, 16) && digits_value(t, 16) == b
            &&& forall|i: int| 0 <= i < t.len() ==> !is_upper(#[trigger] t[i])
        }),
        ({
            let t = byte_text(b, Base::Binary);
            t.len() == 8 && all_digits(t, 2) && digits_value(t, 2) == b
        }),
        ({
            let t = byte_text(b, Base::Octal);
            t.len() == 3 && all_digits(t, 8) && digits_value(t, 8) == b
        }),
        ({
            let t = byte_text(b, Base::Decimal);
            t.len() == 3 && all_digits(t, 10) && digits_value(t, 10) == b
        }),
{
    reveal_with_fuel(rpow, 9);
    assert(rpow(16, 2) == 256);
    assert(rpow(2, 8) == 256);
    assert(rpow(8, 3) == 512);
    assert(rpow(10, 3) == 1000);
    lemma_padded_number(b as nat, 16, 2);
    lemma_padded_number(b as nat, 2, 8);
    lemma_padded_number(b as nat, 8, 3);
    lemma_padded_number(b as nat, 10, 3);
}
} // verus!
