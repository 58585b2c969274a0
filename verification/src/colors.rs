//! Terminal colors of the hex viewer.
use vstd::prelude::*;
use crate::num::{decimal, parse_in_range, parse_unsigned, push_radix};
use crate::text::{
    chars_of, lower_seq, matches_at, push_str, slice_range, strip_prefixes, to_string, trim,
    trim_chars,
};
use crate::units::utf8_width;

verus! {

/// When to color the output.
#[derive(Debug, Clone, Copy, PartialEq, Eq, Structural)]
pub enum ColorWhen {
    Always,
    Auto,
    Never,
    Force,
}

impl ColorWhen {
    /// Whether to color: always when asked or forced, never when refused,
    /// and for a terminal otherwise.
    pub fn use_color(self, stdout_is_tty: bool) -> (r: bool)
        ensures
            r == match self {
                ColorWhen::Always => true,
                ColorWhen::Auto => stdout_is_tty,
                ColorWhen::Never => false,
                ColorWhen::Force => true,
            },
    {
        match self {
            ColorWhen::Always => true,
            ColorWhen::Auto => stdout_is_tty,
            ColorWhen::Never => false,
            ColorWhen::Force => true,
        }
    }
}

/// How bytes are colored.
#[derive(Debug, Clone, Copy, PartialEq, Eq, Structural)]
pub enum ColorScheme {
    Default,
    Gradient,
}

/// The escape sequences for each class of byte, the offset and the reset.
#[derive(Debug, Clone)]
pub struct Colors {
    pub null: String,
    pub ascii_printable: String,
    pub ascii_whitespace: String,
    pub ascii_other: String,
    pub non_ascii: String,
    pub offset: String,
    pub reset: String,
}

/// The foreground code of a color name (white for unknown names).
pub open spec fn color_code(base: Seq<char>) -> nat {
    if base == "black"@ {
        30
    } else if base == "red"@ {
        31
    } else if base == "green"@ {
        32
    } else if base == "yellow"@ {
        33
    } else if base == "blue"@ {
        34
    } else if base == "magenta"@ {
        35
    } else if base == "cyan"@ {
        36
    } else {
        37
    }
}

/// The escape sequence for a color name such as `green` or `bright black`
/// (case and surrounding space do not matter).
pub open spec fn spec_ansi_color(name: Seq<char>) -> Seq<char> {
    let n = lower_seq(trim(name));
    let bright = matches_at(n, 0, "bright "@);
    let base = trim(strip_prefixes(n, "bright "@));
    "\x1b["@ + decimal(color_code(base) + if bright {
        60nat
    } else {
        0nat
    }) + "m"@
}

fn lower_chars(s: &[char]) -> (r: Vec<char>)
    ensures
        r@ == lower_seq(s@),
{
    let mut r: Vec<char> = Vec::new();
    let mut i: usize = 0;
    while i < s.len()
        invariant
            i <= s@.len(),
            r@ == lower_seq(s@.take(i as int)),
        decreases s.len() - i,
    {
        r.push(crate::text::to_lower(s[i]));
        assert(lower_seq(s@.take(i + 1)) =~= lower_seq(s@.take(i as int)).push(
            crate::text::lower_char(s@[i as int]),
        ));
        i = i + 1;
    }
    assert(s@.take(s@.len() as int) == s@);
    r
}

/// `s` with every leading copy of `p` removed.
fn strip_prefix_copies(s: &[char], p: &[char]) -> (r: Vec<char>)
    ensures
        r@ == strip_prefixes(s@, p@),
{
    let mut lo: usize = 0;
    if p.len() == 0 {
        return slice_range(s, 0, s.len());
    }
    assert(s@.skip(0) == s@);
    while p.len() <= s.len() - lo && crate::text::match_at(s, lo, p)
        invariant
            lo <= s@.len(),
            p@.len() > 0,
            strip_prefixes(s@, p@) == strip_prefixes(s@.skip(lo as int), p@),
        decreases s.len() - lo,
    {
        assert(s@.skip(lo as int).take(p@.len() as int) == s@.subrange(lo as int, lo + p@.len()));
        assert(s@.skip(lo as int).skip(p@.len() as int) == s@.skip(lo + p@.len()));
        lo = lo + p.len();
    }
    proof {
        if p@.len() <= s@.skip(lo as int).len() {
            assert(s@.skip(lo as int).take(p@.len() as int) == s@.subrange(lo as int, lo + p@.len()));
        }
    }
    let r = slice_range(s, lo, s.len());
    assert(r@ == s@.skip(lo as int));
    r
}

/// The foreground code of `base`.
fn color_code_of(base: &[char]) -> (c: u64)
    ensures
        c == color_code(base@),
{
    if crate::text::is_lit(base, "black") {
        30
    } else if crate::text::is_lit(base, "red") {
        31
    } else if crate::text::is_lit(base, "green") {
        32
    } else if crate::text::is_lit(base, "yellow") {
        33
    } else if crate::text::is_lit(base, "blue") {
        34
    } else if crate::text::is_lit(base, "magenta") {
        35
    } else if crate::text::is_lit(base, "cyan") {
        36
    } else {
        37
    }
}

/// The escape sequence for a color name.
pub fn ansi_color(name: &str) -> (r: String)
    ensures
        r@ == spec_ansi_color(name@),
{
    let cs = chars_of(name);
    let t = trim_chars(cs.as_slice());
    let n = lower_chars(t.as_slice());
    let bright = crate::text::starts_with_lit(n.as_slice(), "bright ");
    let prefix = chars_of("bright ");
    let stripped = strip_prefix_copies(n.as_slice(), prefix.as_slice());
    let base = trim_chars(stripped.as_slice());
    let code = color_code_of(base.as_slice()) + if bright {
        60
    } else {
        0
    };
    let mut r = to_string("\x1b[");
    push_radix(&mut r, code, 10);
    push_str(&mut r, "m");
    r
}

/// Whether cutting `k` bytes off the front of `s` falls between characters.
pub open spec fn prefix_fits(s: Seq<char>, k: int) -> bool
    decreases s.len(),
{
    if k == 0 {
        true
    } else if k < 0 || s.len() == 0 {
        false
    } else {
        prefix_fits(s.drop_first(), k - utf8_width(s[0]))
    }
}

/// The number of UTF-8 bytes of `s`.
pub open spec fn utf8_len(s: Seq<char>) -> int {
    crate::units::byte_len(s)
}

/// What a color given as `#rrggbb` (hexadecimal) or as a name turns into;
/// `None` where the six hexadecimal bytes would end inside a character.
pub open spec fn spec_parse_color_spec(spec: Seq<char>) -> Option<Seq<char>> {
    let s = trim(spec);
    if s.len() > 0 && s[0] == '#' && utf8_len(s.drop_first()) == 6 {
        let hex = s.drop_first();
        if !(prefix_fits(hex, 2) && prefix_fits(hex, 4)) {
            None
        } else if hex.len() == 6 {
            match (
                parse_in_range(hex.subrange(0, 2), 16, false, 0, 255),
                parse_in_range(hex.subrange(2, 4), 16, false, 0, 255),
                parse_in_range(hex.subrange(4, 6), 16, false, 0, 255),
            ) {
                (Some(r), Some(g), Some(b)) => Some(
                    "\x1b[38;2;"@ + decimal(r as nat) + ";"@ + decimal(g as nat) + ";"@ + decimal(
                        b as nat,
                    ) + "m"@,
                ),
                _ => Some(spec_ansi_color(s)),
            }
        } else {
            Some(spec_ansi_color(s))
        }
    } else {
        Some(spec_ansi_color(s))
    }
}

fn utf8_count(s: &[char]) -> (r: u128)
    ensures
        r == utf8_len(s@),
{
    let mut acc: u128 = 0;
    let mut i: usize = 0;
    while i < s.len()
        invariant
            i <= s@.len(),
            acc == crate::units::byte_len(s@.take(i as int)),
            acc <= 4 * i,
        decreases s.len() - i,
    {
        assert(s@.take(i + 1).drop_last() == s@.take(i as int));
        let c = s[i] as u32;
        let w: u128 = if c < 0x80 {
            1
        } else if c < 0x800 {
            2
        } else if c < 0x10000 {
            3
        } else {
            4
        };
        acc = acc + w;
        i = i + 1;
    }
    assert(s@.take(s@.len() as int) == s@);
    acc
}

/// Whether cutting `k` bytes off the front of `s` falls between characters.
fn fits_prefix(s: &[char], k: u128) -> (r: bool)
    requires
        k <= 6,
    ensures
        r == prefix_fits(s@, k as int),
{
    let mut rest: i128 = k as i128;
    let mut i: usize = 0;
    assert(s@.skip(0) == s@);
    while i < s.len() && rest > 0
        invariant
            i <= s@.len(),
            -4 <= rest <= 6,
            prefix_fits(s@, k as int) == prefix_fits(s@.skip(i as int), rest as int),
        decreases s.len() - i,
    {
        assert(s@.skip(i as int).drop_first() == s@.skip(i + 1));
        let c = s[i] as u32;
        let w: i128 = if c < 0x80 {
            1
        } else if c < 0x800 {
            2
        } else if c < 0x10000 {
            3
        } else {
            4
        };
        rest = rest - w;
        i = i + 1;
    }
    rest == 0
}

/// The value of two hexadecimal characters as std's `u8` parser reads them.
fn hex_pair(s: &[char]) -> (r: Option<u64>)
    ensures
        match r {
            Some(v) => parse_in_range(s@, 16, false, 0, 255) == Some(v as int),
            None => parse_in_range(s@, 16, false, 0, 255) is None,
        },
{
    match parse_unsigned(s, 16, 255) {
        Some(v) => Some(v as u64),
        None => None,
    }
}

fn color_spec_outcome(spec: &str) -> (r: Option<String>)
    ensures
        match r {
            Some(v) => spec_parse_color_spec(spec@) == Some(v@),
            None => spec_parse_color_spec(spec@) is None,
        },
{
    let cs = chars_of(spec);
    let s = trim_chars(cs.as_slice());
    let st = crate::text::string_of(s.as_slice());
    if s.len() > 0 && s[0] == '#' {
        let hex = slice_range(s.as_slice(), 1, s.len());
        assert(hex@ == s@.drop_first());
        if utf8_count(hex.as_slice()) == 6 {
            if !(fits_prefix(hex.as_slice(), 2) && fits_prefix(hex.as_slice(), 4)) {
                return None;
            }
            if hex.len() == 6 {
                let p1 = slice_range(hex.as_slice(), 0, 2);
                let p2 = slice_range(hex.as_slice(), 2, 4);
                let p3 = slice_range(hex.as_slice(), 4, 6);
                match (hex_pair(p1.as_slice()), hex_pair(p2.as_slice()), hex_pair(p3.as_slice())) {
                    (Some(r), Some(g), Some(b)) => {
                        let mut out = to_string("\x1b[38;2;");
                        push_radix(&mut out, r, 10);
                        push_str(&mut out, ";");
                        push_radix(&mut out, g, 10);
                        push_str(&mut out, ";");
                        push_radix(&mut out, b, 10);
                        push_str(&mut out, "m");
                        return Some(out);
                    },
                    _ => {},
                }
            }
        }
    }
    Some(ansi_color(st.as_str()))
}

/// The escape sequence for a color given as `#rrggbb` or by name.
pub fn parse_color_spec(spec: &str) -> (r: String)
    requires
        spec_parse_color_spec(spec@) is Some,
    ensures
        Some(r@) == spec_parse_color_spec(spec@),
{
    color_spec_outcome(spec).unwrap()
}

/// [`parse_color_spec`] where it is defined; `None` where the hexadecimal
/// digits would end inside a character.
pub fn parse_color_spec_checked(spec: &str) -> (r: Option<String>)
    ensures
        match r {
            Some(v) => spec_parse_color_spec(spec@) == Some(v@),
            None => spec_parse_color_spec(spec@) is None,
        },
{
    color_spec_outcome(spec)
}

impl Default for Colors {
    fn default() -> (r: Self)
        ensures
            r.null@ == spec_ansi_color("bright black"@),
            r.ascii_printable@ == spec_ansi_color("cyan"@),
            r.ascii_whitespace@ == spec_ansi_color("green"@),
            r.ascii_other@ == spec_ansi_color("green"@),
            r.non_ascii@ == spec_ansi_color("yellow"@),
            r.offset@ == spec_ansi_color("bright black"@),
            r.reset@ == "\x1b[39m"@,
    {
        Colors {
            null: ansi_color("bright black"),
            ascii_printable: ansi_color("cyan"),
            ascii_whitespace: ansi_color("green"),
            ascii_other: ansi_color("green"),
            non_ascii: ansi_color("yellow"),
            offset: ansi_color("bright black"),
            reset: to_string("\x1b[39m"),
        }
    }
}

impl Colors {
    /// No colors at all.
    pub fn plain() -> (r: Self)
        ensures
            r.null@.len() == 0,
            r.ascii_printable@.len() == 0,
            r.ascii_whitespace@.len() == 0,
            r.ascii_other@.len() == 0,
            r.non_ascii@.len() == 0,
            r.offset@.len() == 0,
            r.reset@.len() == 0,
    {
        Colors {
            null: String::new(),
            ascii_printable: String::new(),
            ascii_whitespace: String::new(),
            ascii_other: String::new(),
            non_ascii: String::new(),
            offset: String::new(),
            reset: String::new(),
        }
    }

    /// The color of byte `b`; `None` where the gradient scheme computes it
    /// from the byte's value (other ASCII and non-ASCII bytes).
    pub fn color_for_byte(&self, b: u8, scheme: ColorScheme) -> (r: Option<&str>)
        ensures
            match r {
                Some(c) => spec_color_for_byte(*self, b, scheme) == Some(c@),
                None => spec_color_for_byte(*self, b, scheme) is None,
            },
    {
        match scheme {
            ColorScheme::Default => {
                if b == 0 {
                    Some(self.null.as_str())
                } else if 0x20 <= b && b <= 0x7e {
                    Some(self.ascii_printable.as_str())
                } else if b == 0x09 || b == 0x0a || b == 0x0c || b == 0x0d || b == 0x20 {
                    Some(self.ascii_whitespace.as_str())
                } else if b < 0x80 {
                    Some(self.ascii_other.as_str())
                } else {
                    Some(self.non_ascii.as_str())
                }
            },
            ColorScheme::Gradient => {
                if b == 0 {
                    Some(self.null.as_str())
                } else if 0x20 <= b && b <= 0x7e {
                    Some(self.ascii_printable.as_str())
                } else {
                    None
                }
            },
        }
    }
}

/// The color of byte `b` under `scheme`: NUL, printable ASCII, white space,
/// other ASCII and non-ASCII each have their own; under the gradient scheme
/// the last two come from the byte's value (`None` here).
pub open spec fn spec_color_for_byte(c: Colors, b: u8, scheme: ColorScheme) -> Option<Seq<char>> {
    match scheme {
        ColorScheme::Default => Some(
            if b == 0 {
                c.null@
            } else if 0x20 <= b && b <= 0x7e {
                c.ascii_printable@
            } else if b == 0x09 || b == 0x0a || b == 0x0c || b == 0x0d || b == 0x20 {
                c.ascii_whitespace@
            } else if b < 0x80 {
                c.ascii_other@
            } else {
                c.non_ascii@
            },
        ),
        ColorScheme::Gradient => if b == 0 {
            Some(c.null@)
        } else if 0x20 <= b && b <= 0x7e {
            Some(c.ascii_printable@)
        } else {
            None
        },
    }
}


proof fn lemma_word_trim(x: Seq<char>)
    requires
        x.len() > 0,
        'a' <= x[0] <= 'z',
        'a' <= x[x.len() - 1] <= 'z',
    ensures
        trim(x) == x,
{
    assert(crate::text::trim_start(x) == x);
    assert(crate::text::trim_end(x) == x);
}

proof fn lemma_color_word(x: Seq<char>)
    requires
        3 <= x.len() <= 7,
        forall|i: int| 0 <= i < x.len() ==> 'a' <= #[trigger] x[i] <= 'z',
    ensures
        spec_ansi_color(x) == "\x1b["@ + decimal(color_code(x)) + "m"@,
        spec_ansi_color("bright "@ + x) == "\x1b["@ + decimal(color_code(x) + 60) + "m"@,
{
    reveal_strlit("bright ");
    assert("bright "@.len() == 7 && "bright "@[6] == ' ');
    assert(lower_seq(x) =~= x);
    lemma_word_trim(x);
    assert(x[x.len() - 1] != ' ');
    assert(!matches_at(x, 0, "bright "@)) by {
        if matches_at(x, 0, "bright "@) {
            assert(x.subrange(0, 7)[6] == ' ');
        }
    }
    assert(strip_prefixes(x, "bright "@) == x) by {
        if 7 <= x.len() {
            assert(x.take(7)[6] == x[6]);
        }
    }
    let b = "bright "@ + x;
    assert(lower_seq(b) =~= b) by {
        assert forall|i: int| 0 <= i < b.len() implies crate::text::lower_char(b[i]) == b[i] by {
            if i >= 7 {
                assert(b[i] == x[i - 7]);
            }
        }
    }
    assert(b[0] == 'b');
    assert(b[b.len() - 1] == x[x.len() - 1]);
    lemma_word_trim(b);
    assert(matches_at(b, 0, "bright "@)) by {
        assert(b.subrange(0, 7) =~= "bright "@);
    }
    assert(b.take(7) =~= "bright "@);
    assert(b.skip(7) =~= x);
    assert(strip_prefixes(x, "bright "@) == x);
    assert(strip_prefixes(b, "bright "@) == strip_prefixes(b.skip(7), "bright "@));
}

/// Each of the eight color names gives the escape sequence of its ANSI
/// foreground code, 30 to 37 in the order black, red, green, yellow, blue,
/// magenta, cyan, white; `bright ` in front adds sixty (90 to 97).
pub proof fn color_names_give_their_codes()
    ensures
        spec_ansi_color("black"@) == "\x1b["@ + decimal(30) + "m"@,
        spec_ansi_color("bright black"@) == "\x1b["@ + decimal(90) + "m"@,
        spec_ansi_color("red"@) == "\x1b["@ + decimal(31) + "m"@,
        spec_ansi_color("bright red"@) == "\x1b["@ + decimal(91) + "m"@,
        spec_ansi_color("green"@) == "\x1b["@ + decimal(32) + "m"@,
        spec_ansi_color("bright green"@) == "\x1b["@ + decimal(92) + "m"@,
        spec_ansi_color("yellow"@) == "\x1b["@ + decimal(33) + "m"@,
        spec_ansi_color("bright yellow"@) == "\x1b["@ + decimal(93) + "m"@,
        spec_ansi_color("blue"@) == "\x1b["@ + decimal(34) + "m"@,
        spec_ansi_color("bright blue"@) == "\x1b["@ + decimal(94) + "m"@,
        spec_ansi_color("magenta"@) == "\x1b["@ + decimal(35) + "m"@,
        spec_ansi_color("bright magenta"@) == "\x1b["@ + decimal(95) + "m"@,
        spec_ansi_color("cyan"@) == "\x1b["@ + decimal(36) + "m"@,
        spec_ansi_color("bright cyan"@) == "\x1b["@ + decimal(96) + "m"@,
        spec_ansi_color("white"@) == "\x1b["@ + decimal(37) + "m"@,
        spec_ansi_color("bright white"@) == "\x1b["@ + decimal(97) + "m"@,
{
    reveal_strlit("black");
    assert("black"@.len() == 5 && "black"@[0] == 'b');
    reveal_strlit("red");
    assert("red"@.len() == 3 && "red"@[0] == 'r');
    reveal_strlit("green");
    assert("green"@.len() == 5 && "green"@[0] == 'g');
    reveal_strlit("yellow");
    assert("yellow"@.len() == 6 && "yellow"@[0] == 'y');
    reveal_strlit("blue");
    assert("blue"@.len() == 4 && "blue"@[0] == 'b');
    reveal_strlit("magenta");
    assert("magenta"@.len() == 7 && "magenta"@[0] == 'm');
    reveal_strlit("cyan");
    assert("cyan"@.len() == 4 && "cyan"@[0] == 'c');
    reveal_strlit("white");
    assert("white"@.len() == 5 && "white"@[0] == 'w');
    assert(spec_ansi_color("black"@) == "\x1b["@ + decimal(30) + "m"@ && spec_ansi_color("bright black"@)
        == "\x1b["@ + decimal(90) + "m"@) by {
        reveal_strlit("black");
        reveal_strlit("bright black");
        reveal_strlit("bright ");
        assert("bright black"@ =~= "bright "@ + "black"@);
        assert(color_code("black"@) == 30);
        lemma_color_word("black"@);
    }
    assert(spec_ansi_color("red"@) == "\x1b["@ + decimal(31) + "m"@ && spec_ansi_color("bright red"@)
        == "\x1b["@ + decimal(91) + "m"@) by {
        reveal_strlit("red");
        reveal_strlit("bright red");
        reveal_strlit("bright ");
        assert("bright red"@ =~= "bright "@ + "red"@);
        assert(color_code("red"@) == 31);
        lemma_color_word("red"@);
    }
    assert(spec_ansi_color("green"@) == "\x1b["@ + decimal(32) + "m"@ && spec_ansi_color("bright green"@)
        == "\x1b["@ + decimal(92) + "m"@) by {
        reveal_strlit("green");
        reveal_strlit("bright green");
        reveal_strlit("bright ");
        assert("bright green"@ =~= "bright "@ + "green"@);
        assert(color_code("green"@) == 32);
        lemma_color_word("green"@);
    }
    assert(spec_ansi_color("yellow"@) == "\x1b["@ + decimal(33) + "m"@ && spec_ansi_color("bright yellow"@)
        == "\x1b["@ + decimal(93) + "m"@) by {
        reveal_strlit("yellow");
        reveal_strlit("bright yellow");
        reveal_strlit("bright ");
        assert("bright yellow"@ =~= "bright "@ + "yellow"@);
        assert(color_code("yellow"@) == 33);
        lemma_color_word("yellow"@);
    }
    assert(spec_ansi_color("blue"@) == "\x1b["@ + decimal(34) + "m"@ && spec_ansi_color("bright blue"@)
        == "\x1b["@ + decimal(94) + "m"@) by {
        reveal_strlit("blue");
        reveal_strlit("bright blue");
        reveal_strlit("bright ");
        assert("bright blue"@ =~= "bright "@ + "blue"@);
        assert(color_code("blue"@) == 34);
        lemma_color_word("blue"@);
    }
    assert(spec_ansi_color("magenta"@) == "\x1b["@ + decimal(35) + "m"@ && spec_ansi_color("bright magenta"@)
        == "\x1b["@ + decimal(95) + "m"@) by {
        reveal_strlit("magenta");
        reveal_strlit("bright magenta");
        reveal_strlit("bright ");
        assert("bright magenta"@ =~= "bright "@ + "magenta"@);
        assert(color_code("magenta"@) == 35);
        lemma_color_word("magenta"@);
    }
    assert(spec_ansi_color("cyan"@) == "\x1b["@ + decimal(36) + "m"@ && spec_ansi_color("bright cyan"@)
        == "\x1b["@ + decimal(96) + "m"@) by {
        reveal_strlit("cyan");
        reveal_strlit("bright cyan");
        reveal_strlit("bright ");
        assert("bright cyan"@ =~= "bright "@ + "cyan"@);
        assert(color_code("cyan"@) == 36);
        lemma_color_word("cyan"@);
    }
    assert(spec_ansi_color("white"@) == "\x1b["@ + decimal(37) + "m"@ && spec_ansi_color("bright white"@)
        == "\x1b["@ + decimal(97) + "m"@) by {
        reveal_strlit("white");
        reveal_strlit("bright white");
        reveal_strlit("bright ");
        assert("bright white"@ =~= "bright "@ + "white"@);
        assert(color_code("white"@) == 37);
        lemma_color_word("white"@);
    }
}
} // verus!
