//! Field selections such as `1,3:5,-1=none` and their resolution against a length.
use vstd::prelude::*;
use crate::num::{parse_i64, spec_parse_i64};
use crate::text::{
    chars_of, contains_char, find_char, push_chars, slice_range, split_char, split_on_char,
    split_once, string_of, string_of_range, to_string,
};

verus! {

/// One selected index or range, each with an optional fallback text.
#[derive(Debug, Clone, PartialEq, Eq)]
pub enum BoundItem {
    Single(i64, Option<String>),
    Range(i64, i64, Option<String>),
}

/// A parsed selection: a list of items, or a format template.
#[derive(Debug, Clone, PartialEq, Eq)]
pub struct Bounds {
    pub items: Vec<BoundItem>,
    pub is_format: bool,
    pub format_template: Option<String>,
}

/// Why a selection could not be read.
#[derive(Debug)]
pub enum ParseError {
    Zero,
    NotANumber(String),
    Empty,
    InvalidRange,
}

/// The mathematical form of a [`BoundItem`].
pub enum BoundItemSpec {
    Single(int, Option<Seq<char>>),
    Range(int, int, Option<Seq<char>>),
}

/// The mathematical form of a [`ParseError`].
pub enum ParseErrorSpec {
    Zero,
    NotANumber(Seq<char>),
    Empty,
    InvalidRange,
}

/// The mathematical form of [`Bounds`].
pub struct BoundsSpec {
    pub items: Seq<BoundItemSpec>,
    pub is_format: bool,
    pub format_template: Option<Seq<char>>,
}

/// The view of an optional string.
pub open spec fn opt_view(o: Option<String>) -> Option<Seq<char>> {
    match o {
        Some(s) => Some(s@),
        None => None,
    }
}

impl View for BoundItem {
    type V = BoundItemSpec;

    open spec fn view(&self) -> BoundItemSpec {
        match self {
            BoundItem::Single(i, f) => BoundItemSpec::Single(*i as int, opt_view(*f)),
            BoundItem::Range(a, b, f) => BoundItemSpec::Range(*a as int, *b as int, opt_view(*f)),
        }
    }
}

impl View for ParseError {
    type V = ParseErrorSpec;

    open spec fn view(&self) -> ParseErrorSpec {
        match self {
            ParseError::Zero => ParseErrorSpec::Zero,
            ParseError::NotANumber(s) => ParseErrorSpec::NotANumber(s@),
            ParseError::Empty => ParseErrorSpec::Empty,
            ParseError::InvalidRange => ParseErrorSpec::InvalidRange,
        }
    }
}

/// The views of a list of items.
pub open spec fn items_view(v: Seq<BoundItem>) -> Seq<BoundItemSpec> {
    v.map_values(|b: BoundItem| b@)
}

impl View for Bounds {
    type V = BoundsSpec;

    open spec fn view(&self) -> BoundsSpec {
        BoundsSpec {
            items: items_view(self.items@),
            is_format: self.is_format,
            format_template: opt_view(self.format_template),
        }
    }
}

/// A non-zero index read from `s`.
pub open spec fn spec_parse_index(s: Seq<char>) -> Result<int, ParseErrorSpec> {
    match spec_parse_i64(s) {
        None => Err(ParseErrorSpec::NotANumber(s)),
        Some(n) => if n == 0 {
            Err(ParseErrorSpec::Zero)
        } else {
            Ok(n)
        },
    }
}

/// A range end read from `s`; an empty text means an open end (0).
pub open spec fn spec_parse_index_optional(s: Seq<char>) -> Result<int, ParseErrorSpec> {
    if s.len() == 0 {
        Ok(0)
    } else {
        spec_parse_index(s)
    }
}

/// One item read from `part`: `SPEC` or `SPEC=FALLBACK`, where `SPEC` is an
/// index or `START:END` with either end optional.
pub open spec fn spec_parse_bound_item(part: Seq<char>) -> Result<BoundItemSpec, ParseErrorSpec> {
    let (spec, fallback) = match split_once(part, '=') {
        Some((s, f)) => (s, Some(f)),
        None => (part, None),
    };
    if spec.contains(':') {
        let (a, b) = split_once(spec, ':').unwrap();
        match spec_parse_index_optional(a) {
            Err(e) => Err(e),
            Ok(start) => match spec_parse_index_optional(b) {
                Err(e) => Err(e),
                Ok(end) => Ok(BoundItemSpec::Range(start, end, fallback)),
            },
        }
    } else if spec.len() == 0 {
        Err(ParseErrorSpec::Empty)
    } else {
        match spec_parse_index(spec) {
            Err(e) => Err(e),
            Ok(i) => Ok(BoundItemSpec::Single(i, fallback)),
        }
    }
}

/// The items read from `parts`, or the error of the first part that fails.
pub open spec fn spec_parse_items(parts: Seq<Seq<char>>) -> Result<Seq<BoundItemSpec>, ParseErrorSpec>
    decreases parts.len(),
{
    if parts.len() == 0 {
        Ok(Seq::empty())
    } else {
        match spec_parse_items(parts.drop_last()) {
            Err(e) => Err(e),
            Ok(items) => match spec_parse_bound_item(parts.last()) {
                Err(e) => Err(e),
                Ok(b) => Ok(items.push(b)),
            },
        }
    }
}

/// A selection read from `input`: a format template when it holds `{`,
/// otherwise comma-separated items.
pub open spec fn spec_parse_bounds(input: Seq<char>) -> Result<BoundsSpec, ParseErrorSpec> {
    if input.len() == 0 {
        Err(ParseErrorSpec::Empty)
    } else if input.contains('{') {
        Ok(BoundsSpec { items: Seq::empty(), is_format: true, format_template: Some(input) })
    } else {
        match spec_parse_items(split_char(input, ',')) {
            Err(e) => Err(e),
            Ok(items) => Ok(BoundsSpec { items, is_format: false, format_template: None }),
        }
    }
}

/// The message that the error prints.
pub open spec fn spec_error_message(e: ParseErrorSpec) -> Seq<char> {
    match e {
        ParseErrorSpec::Zero => "Zero is not a valid field"@,
        ParseErrorSpec::NotANumber(s) => "Not a number `"@ + s + "`"@,
        ParseErrorSpec::Empty => "Empty bound"@,
        ParseErrorSpec::InvalidRange => "Invalid range"@,
    }
}

impl ParseError {
    /// The text that this error displays.
    pub fn message(&self) -> (m: String)
        ensures
            m@ == spec_error_message(self@),
    {
        match self {
            ParseError::Zero => to_string("Zero is not a valid field"),
            ParseError::NotANumber(s) => {
                let mut m = to_string("Not a number `");
                crate::text::push_str(&mut m, s.as_str());
                crate::text::push_str(&mut m, "`");
                m
            },
            ParseError::Empty => to_string("Empty bound"),
            ParseError::InvalidRange => to_string("Invalid range"),
        }
    }
}

/// Reads a selection: a format template when `input` holds `{`, otherwise
/// comma-separated items.
pub fn parse_bounds(input: &str) -> (r: Result<Bounds, ParseError>)
    ensures
        match r {
            Ok(b) => spec_parse_bounds(input@) == Ok::<BoundsSpec, ParseErrorSpec>(b@),
            Err(e) => spec_parse_bounds(input@) == Err::<BoundsSpec, ParseErrorSpec>(e@),
        },
{
    let chars = chars_of(input);
    if chars.len() == 0 {
        return Err(ParseError::Empty);
    }
    if contains_char(&chars, '{') {
        let t = to_string(input);
        let items: Vec<BoundItem> = Vec::new();
        assert(items_view(items@) =~= Seq::<BoundItemSpec>::empty());
        return Ok(Bounds { items, is_format: true, format_template: Some(t) });
    }
    let parts = split_on_char(&chars, ',');
    let ghost pv = parts@.map_values(|v: Vec<char>| v@);
    let mut items: Vec<BoundItem> = Vec::new();
    let mut i: usize = 0;
    assert(items_view(items@) =~= Seq::<BoundItemSpec>::empty());
    assert(pv.take(0) =~= Seq::<Seq<char>>::empty());
    while i < parts.len()
        invariant
            i <= parts@.len(),
            pv == parts@.map_values(|v: Vec<char>| v@),
            pv == split_char(chars@, ','),
            chars@ == input@,
            chars@.len() > 0,
            !chars@.contains('{'),
            spec_parse_items(pv.take(i as int)) == Ok::<Seq<BoundItemSpec>, ParseErrorSpec>(
                items_view(items@),
            ),
        decreases parts.len() - i,
    {
        assert(pv.take(i + 1).drop_last() == pv.take(i as int));
        assert(pv.take(i + 1).last() == parts@[i as int]@);
        match parse_bound_item(&parts[i]) {
            Ok(b) => {
                let ghost prev = items@;
                items.push(b);
                assert(items_view(items@) =~= items_view(prev).push(b@));
            },
            Err(e) => {
                assert(spec_parse_items(pv.take(i + 1)) == Err::<Seq<BoundItemSpec>, ParseErrorSpec>(e@));
                proof {
                    lemma_parse_items_prefix_err(pv, i as int + 1);
                }
                assert(spec_parse_items(pv) == Err::<Seq<BoundItemSpec>, ParseErrorSpec>(e@));
                assert(!input@.contains('{'));
                return Err(e);
            },
        }
        i = i + 1;
    }
    assert(pv.take(parts@.len() as int) == pv);
    Ok(Bounds { items, is_format: false, format_template: None })
}

proof fn lemma_parse_items_prefix_err(parts: Seq<Seq<char>>, n: int)
    requires
        0 <= n <= parts.len(),
        spec_parse_items(parts.take(n)) is Err,
    ensures
        spec_parse_items(parts) == spec_parse_items(parts.take(n)),
    decreases parts.len() - n,
{
    if n < parts.len() {
        assert(parts.take(n + 1).drop_last() == parts.take(n));
        lemma_parse_items_prefix_err(parts, n + 1);
    } else {
        assert(parts.take(n) == parts);
    }
}

/// Reads one item: `SPEC` or `SPEC=FALLBACK`.
fn parse_bound_item(part: &Vec<char>) -> (r: Result<BoundItem, ParseError>)
    ensures
        match r {
            Ok(b) => spec_parse_bound_item(part@) == Ok::<BoundItemSpec, ParseErrorSpec>(b@),
            Err(e) => spec_parse_bound_item(part@) == Err::<BoundItemSpec, ParseErrorSpec>(e@),
        },
{
    let eq = find_char(part, '=');
    let (spec, fallback) = if eq < part.len() {
        (slice_range(part, 0, eq), Some(string_of_range(part, eq + 1, part.len())))
    } else {
        (slice_range(part, 0, part.len()), None)
    };
    assert(part@.subrange(0, part@.len() as int) == part@);
    assert(part@.subrange(0, eq as int) == part@.take(eq as int));
    assert(eq < part@.len() ==> part@.subrange(eq + 1, part@.len() as int) == part@.skip(eq + 1));
    assert(spec@.len() == 0 ==> !spec@.contains(':'));
    let colon = find_char(&spec, ':');
    if colon < spec.len() {
        let a = slice_range(&spec, 0, colon);
        let b = slice_range(&spec, colon + 1, spec.len());
        assert(a@ == spec@.take(colon as int));
        assert(b@ == spec@.skip(colon + 1));
        let start = match parse_index_optional(&a) {
            Ok(v) => v,
            Err(e) => return Err(e),
        };
        let end = match parse_index_optional(&b) {
            Ok(v) => v,
            Err(e) => return Err(e),
        };
        Ok(BoundItem::Range(start, end, fallback))
    } else {
        let idx = match parse_index_required(&spec) {
            Ok(v) => v,
            Err(e) => return Err(e),
        };
        Ok(BoundItem::Single(idx, fallback))
    }
}

/// A required index: empty text is an error.
fn parse_index_required(s: &Vec<char>) -> (r: Result<i64, ParseError>)
    ensures
        match r {
            Ok(n) => s@.len() > 0 && spec_parse_index(s@) == Ok::<int, ParseErrorSpec>(n as int),
            Err(e) => if s@.len() == 0 {
                e@ == ParseErrorSpec::Empty
            } else {
                spec_parse_index(s@) == Err::<int, ParseErrorSpec>(e@)
            },
        },
{
    if s.len() == 0 {
        return Err(ParseError::Empty);
    }
    parse_index(s)
}

/// An optional index: empty text stands for an open end (0).
fn parse_index_optional(s: &Vec<char>) -> (r: Result<i64, ParseError>)
    ensures
        match r {
            Ok(n) => spec_parse_index_optional(s@) == Ok::<int, ParseErrorSpec>(n as int),
            Err(e) => spec_parse_index_optional(s@) == Err::<int, ParseErrorSpec>(e@),
        },
{
    if s.len() == 0 {
        return Ok(0);
    }
    parse_index(s)
}

/// A non-zero 64-bit index.
fn parse_index(s: &Vec<char>) -> (r: Result<i64, ParseError>)
    ensures
        match r {
            Ok(n) => spec_parse_index(s@) == Ok::<int, ParseErrorSpec>(n as int),
            Err(e) => spec_parse_index(s@) == Err::<int, ParseErrorSpec>(e@),
        },
{
    match parse_i64(s.as_slice()) {
        None => Err(ParseError::NotANumber(string_of(s.as_slice()))),
        Some(n) => if n == 0 {
            Err(ParseError::Zero)
        } else {
            Ok(n)
        },
    }
}

/// Position of index `idx` (1-based; negative counts from the end) among
/// `len` items, if it lies inside.
pub open spec fn spec_resolve_index(idx: int, len: int) -> Option<int> {
    if idx == 0 {
        None
    } else if idx > 0 {
        if idx <= len {
            Some(idx)
        } else {
            None
        }
    } else {
        let pos = len + idx + 1;
        if 1 <= pos <= len {
            Some(pos)
        } else {
            None
        }
    }
}

/// The 1-based position that index `idx` names among `len` items: positive
/// indices count from the start, negative ones from the end.
pub fn resolve_index(idx: i64, len: i64) -> (r: Option<i64>)
    requires
        idx < 0 ==> i64::MIN <= len + idx < i64::MAX,
    ensures
        r matches Some(p) ==> spec_resolve_index(idx as int, len as int) == Some(p as int),
        r is None ==> spec_resolve_index(idx as int, len as int) is None,
        r matches Some(p) ==> 1 <= p <= len,
{
    if idx == 0 {
        return None;
    }
    if idx > 0 {
        if idx <= len {
            Some(idx)
        } else {
            None
        }
    } else {
        let pos = len + idx + 1;
        if pos >= 1 && pos <= len {
            Some(pos)
        } else {
            None
        }
    }
}

/// A range with open ends filled in: start 0 means 1, end 0 means `len`.
pub fn normalize_range(start: i64, end: i64, len: i64) -> (r: (i64, i64))
    ensures
        r.0 == (if start == 0 {
            1
        } else {
            start
        }),
        r.1 == (if end == 0 {
            len
        } else {
            end
        }),
{
    let s = if start == 0 {
        1
    } else {
        start
    };
    let e = if end == 0 {
        len
    } else {
        end
    };
    (s, e)
}

/// Every index inside `1..=len`, and every negative index inside
/// `-len..=-1`, names a position in `1..=len`; other indices name none.
pub proof fn resolve_index_in_range(idx: int, len: int)
    requires
        len >= 0,
    ensures
        spec_resolve_index(idx, len) is Some <==> (1 <= idx <= len || -len <= idx <= -1),
        spec_resolve_index(idx, len) matches Some(p) ==> 1 <= p <= len,
{
}

} // verus!
