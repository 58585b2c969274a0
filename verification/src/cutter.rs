//! Cutting records into fields and selecting fields, characters, bytes or lines.
use vstd::prelude::*;
use vstd::utf8::{decode_utf8, valid_utf8};
use crate::cut::TrimMode;
use regex::Regex;
use crate::bounds::{opt_view, resolve_index, spec_resolve_index};
use crate::num::{
    all_digits, digit_char, digit_val, digits_value, i64_to_string, pad_left, radix_digits,
    radix_padded, signed_decimal,
};
use crate::text::{
    chars_of, concat_strings, control, ends_with, join_strings, is_ascii, is_control, join, match_at, matches_at, push_char,
    push_chars, push_str, slice_range, split_char, split_on_char, string_of, string_of_range,
    strip_prefixes, strip_suffixes, to_string, views,
};

verus! {

/// Where a greedy scan that starts a field at `start` and stands at `i`
/// ends a run of consecutive delimiters beginning at `i`.
pub open spec fn run_end(s: Seq<char>, d: Seq<char>, i: int) -> int
    decreases s.len() - i,
{
    if d.len() > 0 && 0 <= i && matches_at(s, i, d) {
        run_end(s, d, i + d.len())
    } else {
        i
    }
}

/// Facts about [`run_end`].
pub proof fn lemma_run_end(s: Seq<char>, d: Seq<char>, i: int)
    requires
        0 <= i <= s.len(),
    ensures
        i <= run_end(s, d, i) <= s.len(),
        d.len() > 0 && matches_at(s, i, d) ==> run_end(s, d, i) >= i + d.len(),
        !(d.len() > 0 && matches_at(s, run_end(s, d, i), d)),
    decreases s.len() - i,
{
    if d.len() > 0 && matches_at(s, i, d) {
        lemma_run_end(s, d, i + d.len());
    }
}

/// Fields of `s` from a greedy scan: a field starts at `start`, the scan
/// stands at `i`, and every run of delimiters `d` ends one field. `None`
/// when the scan steps over a non-ASCII character outside a delimiter (the
/// byte-wise scan would slice inside a character).
pub open spec fn greedy_from(s: Seq<char>, d: Seq<char>, start: int, i: int) -> Option<
    Seq<Seq<char>>,
>
    decreases s.len() - i,
{
    if d.len() == 0 || i < 0 || i > s.len() || start < 0 || start > i {
        None
    } else if matches_at(s, i, d) {
        let j = run_end(s, d, i);
        proof {
            lemma_run_end(s, d, i);
        }
        if j <= i {
            None
        } else {
            match greedy_from(s, d, j, j) {
                Some(rest) => Some(seq![s.subrange(start, i)] + rest),
                None => None,
            }
        }
    } else if i == s.len() {
        Some(seq![s.subrange(start, s.len() as int)])
    } else if !is_ascii(s[i]) {
        None
    } else {
        greedy_from(s, d, start, i + 1)
    }
}

/// The fields of `line` separated by runs of `delimiter` (the whole line
/// when the delimiter is empty).
pub open spec fn spec_split_greedy(line: Seq<char>, delimiter: Seq<char>) -> Option<
    Seq<Seq<char>>,
> {
    if delimiter.len() == 0 {
        Some(seq![line])
    } else {
        greedy_from(line, delimiter, 0, 0)
    }
}

/// Index of the first occurrence of `d` in `s`, or `s.len()`.
pub open spec fn first_match(s: Seq<char>, d: Seq<char>) -> int
    decreases s.len(),
{
    if d.len() == 0 {
        0
    } else if s.len() < d.len() {
        s.len() as int
    } else if matches_at(s, 0, d) {
        0
    } else {
        1 + first_match(s.drop_first(), d)
    }
}

/// `s` split at the non-overlapping occurrences of a non-empty `d`, left
/// to right (`str::split` with a string pattern).
pub open spec fn split_str(s: Seq<char>, d: Seq<char>) -> Seq<Seq<char>>
    decreases s.len(),
{
    let i = first_match(s, d);
    if d.len() == 0 || i >= s.len() {
        seq![s]
    } else {
        proof {
            lemma_first_match(s, d);
        }
        seq![s.take(i)] + split_str(s.skip(i + d.len()), d)
    }
}

/// Facts about [`first_match`].
pub proof fn lemma_first_match(s: Seq<char>, d: Seq<char>)
    ensures
        0 <= first_match(s, d) <= s.len(),
        d.len() > 0 && first_match(s, d) < s.len() ==> matches_at(s, first_match(s, d), d),
        d.len() > 0 ==> forall|j: int| 0 <= j < first_match(s, d) ==> !matches_at(s, j, d),
    decreases s.len(),
{
    if d.len() == 0 || s.len() < d.len() {
    } else if matches_at(s, 0, d) {
    } else {
        let t = s.drop_first();
        lemma_first_match(t, d);
        let f = first_match(t, d);
        if f < t.len() {
            lemma_matches_shift(s, 1, f, d);
        }
        assert forall|j: int| 0 <= j < first_match(s, d) implies !matches_at(s, j, d) by {
            if j > 0 {
                lemma_matches_shift(s, 1, j - 1, d);
            }
        }
    }
}

/// A match in a suffix of `s` is a match in `s`, shifted.
pub proof fn lemma_matches_shift(s: Seq<char>, k: int, j: int, d: Seq<char>)
    requires
        0 <= k <= s.len(),
        0 <= j,
    ensures
        matches_at(s.skip(k), j, d) == matches_at(s, k + j, d),
{
    if j + d.len() <= s.len() - k {
        assert(s.skip(k).subrange(j, j + d.len()) =~= s.subrange(k + j, k + j + d.len()));
    }
}

/// The fields of `line` separated by `delimiter`, as `str::split` yields
/// them (the whole line when the delimiter is empty).
pub open spec fn spec_split_normal(line: Seq<char>, delimiter: Seq<char>) -> Seq<Seq<char>> {
    if delimiter.len() == 0 {
        seq![line]
    } else {
        split_str(line, delimiter)
    }
}

/// Splits `line` at every occurrence of `delimiter`.
pub fn split_normal(line: &str, delimiter: &str) -> (r: Vec<String>)
    ensures
        views(r@) == spec_split_normal(line@, delimiter@),
{
    let s = chars_of(line);
    let d = chars_of(delimiter);
    let pieces = split_chars(&s, &d);
    let mut r: Vec<String> = Vec::new();
    let mut k: usize = 0;
    while k < pieces.len()
        invariant
            k <= pieces@.len(),
            views(r@) == pieces@.take(k as int).map_values(|v: Vec<char>| v@),
        decreases pieces.len() - k,
    {
        let ghost prev = r@;
        r.push(string_of(&pieces[k]));
        assert(views(r@) =~= views(prev).push(pieces@[k as int]@));
        assert(pieces@.take(k + 1).map_values(|v: Vec<char>| v@) =~= pieces@.take(
            k as int,
        ).map_values(|v: Vec<char>| v@).push(pieces@[k as int]@));
        k = k + 1;
    }
    assert(pieces@.take(pieces@.len() as int) == pieces@);
    r
}

/// `s` split at every occurrence of `d` (the whole of `s` when `d` is empty).
pub fn split_chars(s: &Vec<char>, d: &Vec<char>) -> (r: Vec<Vec<char>>)
    ensures
        r@.map_values(|v: Vec<char>| v@) == spec_split_normal(s@, d@),
{
    if d.len() == 0 {
        let mut r: Vec<Vec<char>> = Vec::new();
        r.push(s.clone());
        assert(r@.map_values(|v: Vec<char>| v@) =~= seq![s@]);
        return r;
    }
    let mut r: Vec<Vec<char>> = Vec::new();
    let mut start: usize = 0;
    let mut i: usize = 0;
    assert(s@.skip(0) == s@);
    assert(r@.map_values(|v: Vec<char>| v@) + split_str(s@, d@) =~= split_str(s@, d@));
    while i < s.len()
        invariant
            d@.len() > 0,
            start <= i <= s@.len(),
            forall|j: int| start <= j < i ==> !matches_at(s@, j, d@),
            split_str(s@, d@) == r@.map_values(|v: Vec<char>| v@) + split_str(
                s@.skip(start as int),
                d@,
            ),
        decreases s.len() - i + 1,
    {
        if match_at(s, i, d) {
            let ghost t = s@.skip(start as int);
            proof {
                lemma_matches_shift(s@, start as int, i - start, d@);
                assert forall|j: int| 0 <= j < i - start implies !matches_at(t, j, d@) by {
                    lemma_matches_shift(s@, start as int, j, d@);
                }
                lemma_first_match_at(t, d@, i - start);
                lemma_first_match(t, d@);
            }
            assert(t.take(i - start) == s@.subrange(start as int, i as int));
            assert(t.skip(i - start + d@.len()) == s@.skip(i + d@.len()));
            let piece = slice_range(s, start, i);
            let ghost prev = r@.map_values(|v: Vec<char>| v@);
            r.push(piece);
            assert(r@.map_values(|v: Vec<char>| v@) =~= prev.push(piece@));
            assert(prev + split_str(t, d@) =~= prev.push(piece@) + split_str(
                s@.skip(i + d@.len()),
                d@,
            ));
            i = i + d.len();
            start = i;
        } else {
            i = i + 1;
        }
    }
    let ghost t = s@.skip(start as int);
    proof {
        assert forall|j: int| 0 <= j < t.len() implies !matches_at(t, j, d@) by {
            lemma_matches_shift(s@, start as int, j, d@);
        }
        lemma_first_match_none(t, d@);
    }
    let piece = slice_range(s, start, s.len());
    assert(piece@ == t);
    let ghost prev = r@.map_values(|v: Vec<char>| v@);
    r.push(piece);
    assert(r@.map_values(|v: Vec<char>| v@) =~= prev + seq![t]);
    r
}

/// When `d` first occurs at `k`, [`first_match`] finds it there.
proof fn lemma_first_match_at(t: Seq<char>, d: Seq<char>, k: int)
    requires
        d.len() > 0,
        0 <= k,
        matches_at(t, k, d),
        forall|j: int| 0 <= j < k ==> !matches_at(t, j, d),
    ensures
        first_match(t, d) == k,
    decreases k,
{
    if k > 0 {
        let u = t.drop_first();
        assert(u == t.skip(1));
        lemma_matches_shift(t, 1, k - 1, d);
        assert forall|j: int| 0 <= j < k - 1 implies !matches_at(u, j, d) by {
            lemma_matches_shift(t, 1, j, d);
        }
        lemma_first_match_at(u, d, k - 1);
        assert(!matches_at(t, 0, d));
    }
}

/// When `d` never occurs, [`first_match`] is the length.
proof fn lemma_first_match_none(t: Seq<char>, d: Seq<char>)
    requires
        forall|j: int| 0 <= j < t.len() ==> !matches_at(t, j, d),
    ensures
        first_match(t, d) >= t.len(),
{
    lemma_first_match(t, d);
    if d.len() == 0 && t.len() > 0 {
        assert(matches_at(t, 0, d)) by {
            assert(t.subrange(0, 0) =~= d);
        }
    }
}

/// Splits `line` at every run of `delimiter`: consecutive delimiters end a
/// single field.
pub fn split_greedy(line: &str, delimiter: &str) -> (r: Vec<String>)
    requires
        spec_split_greedy(line@, delimiter@) is Some,
    ensures
        views(r@) == spec_split_greedy(line@, delimiter@).unwrap(),
{
    greedy_scan(line, delimiter).unwrap()
}

/// The greedy split of `line`, or `None` where the byte-wise scan would
/// slice inside a character.
fn greedy_scan(line: &str, delimiter: &str) -> (r: Option<Vec<String>>)
    ensures
        match r {
            Some(v) => spec_split_greedy(line@, delimiter@) == Some(views(v@)),
            None => spec_split_greedy(line@, delimiter@) is None,
        },
{
    let s = chars_of(line);
    let d = chars_of(delimiter);
    if d.len() == 0 {
        let mut r: Vec<String> = Vec::new();
        r.push(to_string(line));
        assert(views(r@) =~= seq![line@]);
        return Some(r);
    }
    let mut fields: Vec<String> = Vec::new();
    let mut start: usize = 0;
    let mut i: usize = 0;
    assert(views(fields@) + greedy_from(s@, d@, 0, 0).unwrap() =~= greedy_from(
        s@,
        d@,
        0,
        0,
    ).unwrap());
    loop
        invariant
            d@.len() > 0,
            s@ == line@,
            d@ == delimiter@,
            start <= i <= s@.len(),
            greedy_from(s@, d@, 0, 0) == match greedy_from(s@, d@, start as int, i as int) {
                Some(rest) => Some(views(fields@) + rest),
                None => None,
            },
        decreases s.len() - i + 1,
    {
        if match_at(&s, i, &d) {
            proof {
                lemma_run_end(s@, d@, i as int);
            }
            let ghost j = run_end(s@, d@, i as int);
            let ghost prev = views(fields@);
            let ghost sub = s@.subrange(start as int, i as int);
            fields.push(string_of_range(&s, start, i));
            assert(views(fields@) =~= prev.push(sub));
            proof {
                match greedy_from(s@, d@, j, j) {
                    Some(rest) => {
                        assert(prev + (seq![sub] + rest) =~= prev.push(sub) + rest);
                    },
                    None => {},
                }
            }
            i = i + d.len();
            while i <= s.len() && match_at(&s, i, &d)
                invariant
                    d@.len() > 0,
                    i <= s@.len(),
                    run_end(s@, d@, i as int) == j,
                decreases s.len() - i,
            {
                i = i + d.len();
            }
            assert(i == j);
            start = i;
        } else if i == s.len() {
            assert(greedy_from(s@, d@, start as int, i as int) == Some(
                seq![s@.subrange(start as int, s@.len() as int)],
            ));
            let ghost prev = views(fields@);
            fields.push(string_of_range(&s, start, s.len()));
            assert(views(fields@) =~= prev + seq![s@.subrange(start as int, s@.len() as int)]);
            return Some(fields);
        } else if s[i] as u32 >= 0x80 {
            return None;
        } else {
            i = i + 1;
        }
    }
}

/// A selected index (`end` is `None`) or range, with an optional fallback
/// text for positions outside the record.
#[derive(Debug, Clone, PartialEq, Eq)]
pub struct Bound {
    pub start: i64,
    pub end: Option<i64>,
    pub fallback: Option<String>,
}

/// A piece of an output template: literal text or a field reference.
#[derive(Debug, Clone, PartialEq, Eq)]
pub enum FormatPart {
    Literal(String),
    Field { start: i64, end: Option<i64> },
}

/// An output template.
#[derive(Debug, Clone, PartialEq, Eq)]
pub struct FormatSpec {
    pub parts: Vec<FormatPart>,
}

/// How records are cut and what is selected from them.
#[derive(Clone)]
pub struct CutConfig {
    pub delimiter: String,
    pub regex: Option<String>,
    pub join: bool,
    pub line_mode: bool,
    pub complement: bool,
    pub greedy: bool,
    pub compress: bool,
    pub only_delimited: bool,
    pub replace_delimiter: Option<String>,
    pub trim: Option<TrimMode>,
    pub json: bool,
    pub fallback_oob: Option<String>,
    pub bounds: Option<Vec<Bound>>,
    pub format_spec: Option<FormatSpec>,
}

/// Output of a scan that squeezes every run of delimiters `d` into one,
/// from position `i` with `out` written so far; `None` when the scan steps
/// over a non-ASCII character outside a delimiter.
pub open spec fn compress_from(s: Seq<char>, d: Seq<char>, i: int, out: Seq<char>) -> Option<
    Seq<char>,
>
    decreases s.len() - i,
{
    if d.len() == 0 || i < 0 || i > s.len() {
        None
    } else if matches_at(s, i, d) {
        let out2 = if ends_with(out, d) {
            out
        } else {
            out + d
        };
        let j = run_end(s, d, i);
        proof {
            lemma_run_end(s, d, i);
        }
        if j <= i {
            None
        } else {
            compress_from(s, d, j, out2)
        }
    } else if i == s.len() {
        Some(out)
    } else if !is_ascii(s[i]) {
        None
    } else {
        compress_from(s, d, i + 1, out.push(s[i]))
    }
}

/// `line` with every run of `delimiter` squeezed into one delimiter.
pub open spec fn spec_compress_delimiters(line: Seq<char>, delimiter: Seq<char>) -> Option<
    Seq<char>,
> {
    if delimiter.len() == 0 {
        Some(line)
    } else {
        compress_from(line, delimiter, 0, Seq::empty())
    }
}

/// `x` holds no occurrence of `d`.
pub open spec fn free_of(x: Seq<char>, d: Seq<char>) -> bool {
    forall|j: int| !#[trigger] matches_at(x, j, d)
}

/// The text in front of a field that follows the fields `prev`: nothing,
/// or those fields joined by `d` and one more `d`.
pub open spec fn joined_before(prev: Seq<Seq<char>>, d: Seq<char>) -> Seq<char> {
    if prev.len() == 0 {
        Seq::empty()
    } else {
        join(prev, d) + d
    }
}

/// No field joined to the ones before it ends in `d`, the last field aside.
pub open spec fn no_prefix_ends_with(f: Seq<Seq<char>>, d: Seq<char>, from: int) -> bool {
    forall|m: int| from <= m < f.len() - 1 ==> !ends_with(join(#[trigger] f.take(m + 1), d), d)
}

proof fn lemma_field_free(s: Seq<char>, d: Seq<char>, start: int, i: int)
    requires
        d.len() > 0,
        0 <= start <= i <= s.len(),
        forall|k: int| start <= k < i ==> !#[trigger] matches_at(s, k, d),
    ensures
        free_of(s.subrange(start, i), d),
{
    let x = s.subrange(start, i);
    assert forall|j: int| !#[trigger] matches_at(x, j, d) by {
        if matches_at(x, j, d) {
            assert(x.subrange(j, j + d.len()) =~= s.subrange(start + j, start + j + d.len()));
            assert(matches_at(s, start + j, d));
            assert(start <= start + j < i);
        }
    }
}

proof fn lemma_greedy_fields(s: Seq<char>, d: Seq<char>, start: int, i: int, after_run: bool)
    requires
        d.len() > 0,
        0 <= start <= i <= s.len(),
        forall|k: int| start <= k < i ==> !#[trigger] matches_at(s, k, d),
        after_run ==> !matches_at(s, start, d),
    ensures
        greedy_from(s, d, start, i) matches Some(f) ==> {
            &&& f.len() >= 1
            &&& forall|k: int| 0 <= k < f.len() ==> free_of(#[trigger] f[k], d)
            &&& forall|k: int| 0 <= k < f.len() - 1 && (k > 0 || after_run) ==> #[trigger] f[k].len() > 0
        },
    decreases s.len() - i,
{
    if matches_at(s, i, d) {
        lemma_run_end(s, d, i);
        let j = run_end(s, d, i);
        lemma_greedy_fields(s, d, j, j, true);
        lemma_field_free(s, d, start, i);
        match greedy_from(s, d, j, j) {
            Some(rest) => {
                let field = s.subrange(start, i);
                let f = seq![field] + rest;
                assert(greedy_from(s, d, start, i) == Some(f));
                assert forall|k: int| 0 <= k < f.len() implies free_of(#[trigger] f[k], d) by {
                    if k > 0 {
                        assert(f[k] == rest[k - 1]);
                    }
                }
                assert forall|k: int| 0 <= k < f.len() - 1 && (k > 0 || after_run) implies #[trigger] f[k].len() > 0 by {
                    if k > 0 {
                        assert(f[k] == rest[k - 1]);
                    } else {
                        assert(i != start);
                    }
                }
            },
            None => {},
        }
    } else if i == s.len() {
        lemma_field_free(s, d, start, i);
        let f = seq![s.subrange(start, s.len() as int)];
        assert(greedy_from(s, d, start, i) == Some(f));
    } else if is_ascii(s[i]) {
        lemma_greedy_fields(s, d, start, i + 1, after_run);
    }
}

proof fn lemma_greedy_compress(s: Seq<char>, d: Seq<char>, start: int, i: int, prev: Seq<Seq<char>>)
    requires
        d.len() > 0,
        0 <= start <= i <= s.len(),
    ensures
        greedy_from(s, d, start, i) matches Some(rest) ==> (no_prefix_ends_with(prev + rest, d, prev.len() as int)
            ==> compress_from(s, d, i, joined_before(prev, d) + s.subrange(start, i)) == Some(join(prev + rest, d))),
    decreases s.len() - i,
{
    let field = s.subrange(start, i);
    let out = joined_before(prev, d) + field;
    crate::text::lemma_join_push(prev, field, d);
    assert(join(prev.push(field), d) == out);
    if matches_at(s, i, d) {
        lemma_run_end(s, d, i);
        let j = run_end(s, d, i);
        let p2 = prev.push(field);
        lemma_greedy_compress(s, d, j, j, p2);
        match greedy_from(s, d, j, j) {
            Some(rest2) => {
                let rest = seq![field] + rest2;
                assert(greedy_from(s, d, start, i) == Some(rest));
                assert(prev + rest =~= p2 + rest2);
                if no_prefix_ends_with(prev + rest, d, prev.len() as int) {
                    let m = prev.len() as int;
                    if rest2.len() > 0 {
                        assert((prev + rest).take(m + 1) =~= p2);
                        assert(!ends_with(join((prev + rest).take(m + 1), d), d));
                    } else {
                        assert(!ends_with(out, d)) by {
                            if ends_with(out, d) {
                                // no further field: the greedy scan always ends with a field
                                lemma_greedy_fields(s, d, j, j, true);
                            }
                        }
                    }
                    assert(!ends_with(out, d));
                    assert(joined_before(p2, d) + s.subrange(j, j) =~= out + d);
                    assert forall|mm: int| p2.len() <= mm < (p2 + rest2).len() - 1 implies !ends_with(
                        join(#[trigger] (p2 + rest2).take(mm + 1), d),
                        d,
                    ) by {
                        assert((p2 + rest2).take(mm + 1) == (prev + rest).take(mm + 1));
                    }
                }
            },
            None => {},
        }
    } else if i == s.len() {
        assert(greedy_from(s, d, start, i) == Some(seq![field]));
        assert(prev + seq![field] =~= prev.push(field));
    } else if is_ascii(s[i]) {
        lemma_greedy_compress(s, d, start, i + 1, prev);
        assert(out.push(s[i]) =~= joined_before(prev, d) + s.subrange(start, i + 1));
    }
}

/// Greedy splitting gives at least one field; no field holds the delimiter;
/// every field but the first and the last is non-empty; and joining the
/// fields with one delimiter gives the line with every run of delimiters
/// squeezed into one, unless some field joined to the ones before it ends
/// with the delimiter, which never happens for a one-character delimiter.
pub proof fn greedy_split_law(line: Seq<char>, d: Seq<char>)
    requires
        d.len() > 0,
        spec_split_greedy(line, d) is Some,
    ensures
        ({
            let f = spec_split_greedy(line, d).unwrap();
            &&& f.len() >= 1
            &&& forall|k: int| 0 <= k < f.len() ==> free_of(#[trigger] f[k], d)
            &&& forall|k: int| 0 < k < f.len() - 1 ==> #[trigger] f[k].len() > 0
            &&& no_prefix_ends_with(f, d, 0) ==> spec_compress_delimiters(line, d) == Some(join(f, d))
            &&& d.len() == 1 ==> no_prefix_ends_with(f, d, 0)
        }),
{
    let f = spec_split_greedy(line, d).unwrap();
    lemma_greedy_fields(line, d, 0, 0, false);
    lemma_greedy_compress(line, d, 0, 0, Seq::empty());
    assert(Seq::<Seq<char>>::empty() + f =~= f);
    assert(joined_before(Seq::<Seq<char>>::empty(), d) + line.subrange(0, 0) =~= Seq::<char>::empty());
    if d.len() == 1 {
        assert forall|m: int| 0 <= m < f.len() - 1 implies !ends_with(join(#[trigger] f.take(m + 1), d), d) by {
            let t = f.take(m + 1);
            assert(t.drop_last() =~= f.take(m));
            assert(t.last() == f[m]);
            if m == 0 {
                assert(t =~= seq![f[0]]);
                if f[0].len() > 0 {
                    assert(join(t, d) == f[0]);
                    assert(!matches_at(f[0], f[0].len() - 1, d));
                    assert(f[0].subrange(f[0].len() - 1, f[0].len() as int) =~= seq![f[0].last()]);
                    if ends_with(join(t, d), d) {
                        assert(join(t, d).skip(join(t, d).len() - 1) =~= seq![f[0].last()]);
                        assert(f[0].subrange(f[0].len() - 1, f[0].len() as int) == d);
                    }
                } else {
                    assert(join(t, d) == f[0]);
                }
            } else {
                let x = f[m];
                assert(x.len() > 0);
                crate::text::lemma_join_push(f.take(m), x, d);
                assert(t =~= f.take(m).push(x));
                let jt = join(t, d);
                assert(jt == join(f.take(m), d) + d + x);
                assert(!matches_at(x, x.len() - 1, d));
                if ends_with(jt, d) {
                    assert(jt.skip(jt.len() - 1) =~= x.subrange(x.len() - 1, x.len() as int));
                }
            }
        }
    }
}

/// Squeezes every run of `delimiter` in `line` into a single delimiter.
pub fn compress_delimiters(line: &str, delimiter: &str) -> (r: String)
    requires
        spec_compress_delimiters(line@, delimiter@) is Some,
    ensures
        r@ == spec_compress_delimiters(line@, delimiter@).unwrap(),
{
    compress_scan(line, delimiter).unwrap()
}

/// The squeezed `line`, or `None` where the byte-wise scan would slice
/// inside a character.
fn compress_scan(line: &str, delimiter: &str) -> (r: Option<String>)
    ensures
        match r {
            Some(v) => spec_compress_delimiters(line@, delimiter@) == Some(v@),
            None => spec_compress_delimiters(line@, delimiter@) is None,
        },
{
    let s = chars_of(line);
    let d = chars_of(delimiter);
    if d.len() == 0 {
        return Some(to_string(line));
    }
    let mut out: Vec<char> = Vec::new();
    let mut i: usize = 0;
    loop
        invariant
            d@.len() > 0,
            s@ == line@,
            d@ == delimiter@,
            i <= s@.len(),
            compress_from(s@, d@, 0, Seq::empty()) == compress_from(s@, d@, i as int, out@),
        decreases s.len() - i + 1,
    {
        if match_at(&s, i, &d) {
            proof {
                lemma_run_end(s@, d@, i as int);
            }
            let ghost j = run_end(s@, d@, i as int);
            if !ends_with_chars(&out, &d) {
                push_all(&mut out, &d);
            }
            i = i + d.len();
            while i <= s.len() && match_at(&s, i, &d)
                invariant
                    d@.len() > 0,
                    i <= s@.len(),
                    run_end(s@, d@, i as int) == j,
                decreases s.len() - i,
            {
                i = i + d.len();
            }
        } else if i == s.len() {
            return Some(string_of(&out));
        } else if s[i] as u32 >= 0x80 {
            return None;
        } else {
            out.push(s[i]);
            i = i + 1;
        }
    }
}

/// Appends `t` to `v`.
fn push_all(v: &mut Vec<char>, t: &Vec<char>)
    ensures
        final(v)@ == old(v)@ + t@,
{
    let mut k: usize = 0;
    while k < t.len()
        invariant
            k <= t@.len(),
            v@ == old(v)@ + t@.take(k as int),
        decreases t.len() - k,
    {
        v.push(t[k]);
        assert(t@.take(k + 1) == t@.take(k as int).push(t@[k as int]));
        k = k + 1;
    }
    assert(t@.take(t@.len() as int) == t@);
}

/// Whether `s` ends with `p`.
fn ends_with_chars(s: &Vec<char>, p: &Vec<char>) -> (r: bool)
    ensures
        r == ends_with(s@, p@),
{
    if p.len() > s.len() {
        return false;
    }
    let r = match_at(s, s.len() - p.len(), p);
    assert(s@.skip(s@.len() - p@.len()) == s@.subrange(s@.len() - p@.len(), s@.len() as int));
    r
}

/// `line` with its delimiters removed at the ends that the trim mode names.
pub open spec fn spec_apply_trim(line: Seq<char>, trim: Option<TrimMode>, d: Seq<char>) -> Seq<
    char,
> {
    match trim {
        None => line,
        Some(mode) => if d.len() == 0 {
            line
        } else {
            let s1 = match mode {
                TrimMode::Right => line,
                _ => strip_prefixes(line, d),
            };
            match mode {
                TrimMode::Left => s1,
                _ => strip_suffixes(s1, d),
            }
        },
    }
}

/// Removes the delimiter from the start and/or end of `line`, as often as it
/// occurs there, as the configured trim mode says.
pub fn apply_trim(line: &str, config: &CutConfig) -> (r: String)
    ensures
        r@ == spec_apply_trim(line@, config.trim, config.delimiter@),
{
    let s = chars_of(line);
    let d = chars_of(config.delimiter.as_str());
    let mode = match config.trim {
        None => return to_string(line),
        Some(m) => m,
    };
    if d.len() == 0 {
        return to_string(line);
    }
    let mut lo: usize = 0;
    let mut hi: usize = s.len();
    assert(s@.skip(0) == s@);
    if mode != TrimMode::Right {
        while match_at(&s, lo, &d)
            invariant
                d@.len() > 0,
                lo <= s@.len(),
                strip_prefixes(s@, d@) == strip_prefixes(s@.skip(lo as int), d@),
            decreases s.len() - lo,
        {
            let ghost u = s@.skip(lo as int);
            assert(u.take(d@.len() as int) == s@.subrange(lo as int, lo + d@.len()));
            assert(u.skip(d@.len() as int) == s@.skip(lo + d@.len()));
            lo = lo + d.len();
        }
        proof {
            let u = s@.skip(lo as int);
            if d@.len() <= u.len() {
                assert(u.take(d@.len() as int) == s@.subrange(lo as int, lo + d@.len()));
            }
            assert(strip_prefixes(u, d@) == u);
        }
    }
    let ghost s1 = s@.skip(lo as int);
    assert(s1 == match mode {
        TrimMode::Right => s@,
        _ => strip_prefixes(s@, d@),
    });
    assert(s1 == s@.subrange(lo as int, hi as int));
    if mode != TrimMode::Left {
        while hi - lo >= d.len() && match_at(&s, hi - d.len(), &d)
            invariant
                d@.len() > 0,
                lo <= hi <= s@.len(),
                strip_suffixes(s1, d@) == strip_suffixes(s@.subrange(lo as int, hi as int), d@),
            decreases hi,
        {
            let ghost u = s@.subrange(lo as int, hi as int);
            assert(u.skip(u.len() - d@.len()) == s@.subrange(hi - d@.len(), hi as int));
            assert(u.take(u.len() - d@.len()) == s@.subrange(lo as int, hi - d@.len()));
            hi = hi - d.len();
        }
        proof {
            let u = s@.subrange(lo as int, hi as int);
            if d@.len() <= u.len() {
                assert(u.skip(u.len() - d@.len()) == s@.subrange(hi - d@.len(), hi as int));
            }
            assert(strip_suffixes(u, d@) == u);
        }
    }
    string_of_range(&s, lo, hi)
}

/// `line` without one final `\n`.
pub open spec fn spec_strip_line_terminator(line: Seq<char>) -> Seq<char> {
    if line.len() > 0 && line.last() == '\n' {
        line.drop_last()
    } else {
        line
    }
}

/// Removes one trailing line terminator.
pub fn strip_line_terminator(line: &str) -> (r: String)
    ensures
        r@ == spec_strip_line_terminator(line@),
{
    let s = chars_of(line);
    if s.len() > 0 && s[s.len() - 1] == '\n' {
        string_of_range(&s, 0, s.len() - 1)
    } else {
        // A `\r\n` ending also ends in `\n`, so nothing else is stripped.
        string_of(&s)
    }
}

/// The lines of `s`, each keeping its final `\n` (`str::split_inclusive`).
pub open spec fn split_inclusive(s: Seq<char>) -> Seq<Seq<char>>
    decreases s.len(),
{
    if s.len() == 0 {
        Seq::empty()
    } else {
        let rest = split_inclusive(s.drop_last());
        if rest.len() > 0 && rest.last().last() != '\n' {
            rest.update(rest.len() - 1, rest.last().push(s.last()))
        } else {
            rest.push(seq![s.last()])
        }
    }
}

/// The records of `text`: lines that keep their `\n` for the newline
/// separator, otherwise the pieces between separators.
pub open spec fn spec_split_lines(text: Seq<char>, sep: char) -> Seq<Seq<char>> {
    if sep == '\n' {
        split_inclusive(text)
    } else {
        split_char(text, sep)
    }
}

/// Cuts `text` into records at `sep`.
fn split_lines(text: &Vec<char>, sep: char) -> (r: Vec<Vec<char>>)
    ensures
        r@.map_values(|v: Vec<char>| v@) == spec_split_lines(text@, sep),
{
    if sep != '\n' {
        return split_on_char(text, sep);
    }
    let mut r: Vec<Vec<char>> = Vec::new();
    let mut cur: Vec<char> = Vec::new();
    let mut i: usize = 0;
    while i < text.len()
        invariant
            i <= text@.len(),
            cur@.len() == 0 ==> r@.map_values(|v: Vec<char>| v@) == split_inclusive(
                text@.take(i as int),
            ),
            cur@.len() > 0 ==> r@.map_values(|v: Vec<char>| v@).push(cur@) == split_inclusive(
                text@.take(i as int),
            ),
            cur@.len() > 0 ==> cur@.last() != '\n',
            forall|k: int| 0 <= k < r@.len() ==> (#[trigger] r@[k])@.len() > 0 && r@[k]@.last() == '\n',
        decreases text.len() - i,
    {
        assert(text@.take(i + 1).drop_last() == text@.take(i as int));
        let ghost before = r@.map_values(|v: Vec<char>| v@);
        let ghost prev = cur@;
        cur.push(text[i]);
        if text[i] == '\n' {
            let done = cur;
            r.push(done);
            cur = Vec::new();
            assert(r@.map_values(|v: Vec<char>| v@) =~= before.push(done@));
            proof {
                if prev.len() > 0 {
                    assert(before.push(prev).update(before.len() as int, prev.push('\n'))
                        =~= before.push(done@));
                } else {
                    if before.len() > 0 {
                        assert(before.last() == r@[before.len() - 1]@);
                    }
                    assert(done@ =~= seq!['\n']);
                }
            }
        } else {
            proof {
                if prev.len() > 0 {
                    assert(before.push(prev).update(before.len() as int, prev.push(text@[i as int]))
                        =~= before.push(cur@));
                } else {
                    if before.len() > 0 {
                        assert(before.last() == r@[before.len() - 1]@);
                    }
                    assert(cur@ =~= seq![text@[i as int]]);
                }
            }
        }
        i = i + 1;
    }
    assert(text@.take(text@.len() as int) == text@);
    if cur.len() > 0 {
        let ghost before = r@.map_values(|v: Vec<char>| v@);
        r.push(cur);
        assert(r@.map_values(|v: Vec<char>| v@) =~= before.push(cur@));
    }
    r
}

/// The JSON escape of one character.
pub open spec fn json_escape(c: char) -> Seq<char> {
    if c == '"' {
        seq!['\\', '"']
    } else if c == '\\' {
        seq!['\\', '\\']
    } else if c == '\n' {
        seq!['\\', 'n']
    } else if c == '\r' {
        seq!['\\', 'r']
    } else if c == '\t' {
        seq!['\\', 't']
    } else if is_control(c) {
        seq!['\\', 'u'] + pad_left(radix_digits(c as nat, 16), 4, '0')
    } else {
        seq![c]
    }
}

/// The JSON escapes of the characters of `s`, concatenated.
pub open spec fn json_body(s: Seq<char>) -> Seq<char>
    decreases s.len(),
{
    if s.len() == 0 {
        Seq::empty()
    } else {
        json_body(s.drop_last()) + json_escape(s.last())
    }
}

/// `s` as a JSON string literal.
pub open spec fn spec_json_string(s: Seq<char>) -> Seq<char> {
    seq!['"'] + json_body(s) + seq!['"']
}

/// Writes `value` as a JSON string literal.
pub fn json_string(value: &str) -> (r: String)
    ensures
        r@ == spec_json_string(value@),
{
    let s = chars_of(value);
    let mut out = String::new();
    push_char(&mut out, '"');
    let mut i: usize = 0;
    while i < s.len()
        invariant
            i <= s@.len(),
            out@ == seq!['"'] + json_body(s@.take(i as int)),
        decreases s.len() - i,
    {
        assert(s@.take(i + 1).drop_last() == s@.take(i as int));
        push_json_escape(&mut out, s[i]);
        i = i + 1;
    }
    assert(s@.take(s@.len() as int) == s@);
    push_char(&mut out, '"');
    out
}

/// Appends the JSON escape of `c`.
fn push_json_escape(out: &mut String, c: char)
    ensures
        final(out)@ == old(out)@ + json_escape(c),
{
    if c == '"' {
        push_char(out, '\\');
        push_char(out, '"');
    } else if c == '\\' {
        push_char(out, '\\');
        push_char(out, '\\');
    } else if c == '\n' {
        push_char(out, '\\');
        push_char(out, 'n');
    } else if c == '\r' {
        push_char(out, '\\');
        push_char(out, 'r');
    } else if c == '\t' {
        push_char(out, '\\');
        push_char(out, 't');
    } else if control(c) {
        push_char(out, '\\');
        push_char(out, 'u');
        let hex = radix_padded(c as u32 as u64, 16, 4);
        push_str(out, hex.as_str());
    } else {
        push_char(out, c);
    }
}

/// The character that the escape `\e` stands for in a JSON string, for
/// every escape but `\u` (RFC 8259, section 7).
pub open spec fn json_simple_escape(e: char) -> Option<char> {
    if e == '"' {
        Some('"')
    } else if e == '\\' {
        Some('\\')
    } else if e == '/' {
        Some('/')
    } else if e == 'b' {
        Some('\x08')
    } else if e == 'f' {
        Some('\x0c')
    } else if e == 'n' {
        Some('\n')
    } else if e == 'r' {
        Some('\r')
    } else if e == 't' {
        Some('\t')
    } else {
        None
    }
}

/// The value of the four hexadecimal digits of `t` from `i` on, if there
/// are four.
pub open spec fn hex4_at(t: Seq<char>, i: int) -> Option<int> {
    if 0 <= i && i + 4 <= t.len() && all_digits(t.subrange(i, i + 4), 16) {
        Some(digits_value(t.subrange(i, i + 4), 16))
    } else {
        None
    }
}

/// `c` in front of the decoded rest, if the rest decodes.
pub open spec fn prepend_decoded(c: char, rest: Option<Seq<char>>) -> Option<Seq<char>> {
    match rest {
        Some(r) => Some(seq![c] + r),
        None => None,
    }
}

/// The characters that the text between the quotes of a JSON string stands
/// for (RFC 8259, section 7): escapes `\"`, `\\`, `\/`, `\b`, `\f`, `\n`,
/// `\r`, `\t` and `\uXXXX` (a surrogate pair for a character above the
/// basic plane), other characters for themselves; `None` where a quote, a
/// character below U+0020, a backslash that starts no escape or a lone
/// surrogate makes the text invalid.
pub open spec fn json_unescape(t: Seq<char>) -> Option<Seq<char>>
    decreases t.len(),
{
    if t.len() == 0 {
        Some(Seq::empty())
    } else if t[0] == '\\' {
        if t.len() < 2 {
            None
        } else if t[1] == 'u' {
            match hex4_at(t, 2) {
                None => None,
                Some(v) => if 0xD800 <= v < 0xDC00 {
                    if t.len() >= 12 && t[6] == '\\' && t[7] == 'u' {
                        match hex4_at(t, 8) {
                            Some(w) => if 0xDC00 <= w < 0xE000 {
                                prepend_decoded(
                                    (0x10000 + (v - 0xD800) * 0x400 + (w - 0xDC00)) as char,
                                    json_unescape(t.skip(12)),
                                )
                            } else {
                                None
                            },
                            None => None,
                        }
                    } else {
                        None
                    }
                } else if 0xDC00 <= v < 0xE000 {
                    None
                } else {
                    prepend_decoded(v as char, json_unescape(t.skip(6)))
                },
            }
        } else {
            match json_simple_escape(t[1]) {
                Some(c) => prepend_decoded(c, json_unescape(t.skip(2))),
                None => None,
            }
        }
    } else if t[0] == '"' || (t[0] as u32) < 0x20 {
        None
    } else {
        prepend_decoded(t[0], json_unescape(t.skip(1)))
    }
}

proof fn lemma_hex_digit_char(d: nat)
    requires
        d < 16,
    ensures
        digit_val(digit_char(d), 16) == d,
        !is_control(digit_char(d)),
{
    let c = digit_char(d);
    if d < 10 {
        assert(c as u32 == 48 + d);
    } else {
        assert(c as u32 == 97 + d - 10);
    }
}

/// The four hex digits of a control character's escape.
proof fn lemma_control_hex(c: char)
    requires
        is_control(c),
    ensures
        ({
            let h = pad_left(radix_digits(c as nat, 16), 4, '0');
            &&& h.len() == 4
            &&& all_digits(h, 16)
            &&& digits_value(h, 16) == c as u32
            &&& forall|i: int| 0 <= i < 4 ==> !is_control(#[trigger] h[i])
        }),
{
    let u = c as u32 as nat;
    let h = pad_left(radix_digits(u, 16), 4, '0');
    assert(u == c as nat);
    assert(digit_val('0', 16) == 0);
    reveal_with_fuel(digits_value, 5);
    if u < 16 {
        lemma_hex_digit_char(u);
        assert(radix_digits(u, 16) =~= seq![digit_char(u)]);
        assert(h =~= seq!['0', '0', '0', digit_char(u)]);
        assert(h.drop_last() =~= seq!['0', '0', '0']);
        assert(h.drop_last().drop_last() =~= seq!['0', '0']);
        assert(h.drop_last().drop_last().drop_last() =~= seq!['0']);
        assert(h.drop_last().drop_last().drop_last().drop_last() =~= Seq::<char>::empty());
    } else {
        assert(u < 256);
        let a = u / 16;
        let b = u % 16;
        crate::num::lemma_div_smaller(u, 16);
        lemma_hex_digit_char(a);
        lemma_hex_digit_char(b);
        assert(radix_digits(a, 16) =~= seq![digit_char(a)]);
        assert(radix_digits(u, 16) =~= seq![digit_char(a), digit_char(b)]);
        assert(h =~= seq!['0', '0', digit_char(a), digit_char(b)]);
        assert(h.drop_last() =~= seq!['0', '0', digit_char(a)]);
        assert(h.drop_last().drop_last() =~= seq!['0', '0']);
        assert(h.drop_last().drop_last().drop_last() =~= seq!['0']);
        assert(h.drop_last().drop_last().drop_last().drop_last() =~= Seq::<char>::empty());
        assert(u == a * 16 + b);
    }
}

/// Decoding the escape of `c` in front of `rest` gives `c` in front of what
/// `rest` decodes to.
proof fn lemma_unescape_escape(c: char, rest: Seq<char>)
    ensures
        json_unescape(json_escape(c) + rest) == prepend_decoded(c, json_unescape(rest)),
{
    let t = json_escape(c) + rest;
    if c == '"' || c == '\\' || c == '\n' || c == '\r' || c == '\t' {
        assert(t[0] == '\\');
        assert(t.skip(2) =~= rest);
    } else if is_control(c) {
        lemma_control_hex(c);
        let h = pad_left(radix_digits(c as nat, 16), 4, '0');
        assert(t[0] == '\\' && t[1] == 'u');
        assert(t.subrange(2, 6) =~= h);
        assert(t.skip(6) =~= rest);
        assert(((c as u32) as int) as char == c);
    } else {
        assert(t[0] == c);
        assert(t.skip(1) =~= rest);
    }
}

proof fn lemma_body_front(s: Seq<char>)
    requires
        s.len() > 0,
    ensures
        json_body(s) == json_escape(s[0]) + json_body(s.drop_first()),
    decreases s.len(),
{
    if s.len() == 1 {
        assert(s.drop_last() =~= Seq::<char>::empty());
        assert(s.drop_first() =~= Seq::<char>::empty());
        assert(json_body(s.drop_last()) == Seq::<char>::empty());
        assert(json_body(s.drop_first()) == Seq::<char>::empty());
        assert(json_body(s) =~= json_escape(s[0]));
    } else {
        lemma_body_front(s.drop_last());
        assert(s.drop_last().drop_first() =~= s.drop_first().drop_last());
        assert(s.drop_first().last() == s.last());
    }
}

proof fn lemma_decode_body(s: Seq<char>)
    ensures
        json_unescape(json_body(s)) == Some(s),
    decreases s.len(),
{
    if s.len() > 0 {
        lemma_body_front(s);
        lemma_decode_body(s.drop_first());
        lemma_unescape_escape(s[0], json_body(s.drop_first()));
        assert(seq![s[0]] + s.drop_first() =~= s);
    }
}

proof fn lemma_body_no_control(s: Seq<char>)
    ensures
        forall|i: int| 0 <= i < json_body(s).len() ==> !is_control(#[trigger] json_body(s)[i]),
    decreases s.len(),
{
    if s.len() > 0 {
        lemma_body_no_control(s.drop_last());
        let a = json_body(s.drop_last());
        let e = json_escape(s.last());
        if is_control(s.last()) && !(s.last() == '\n' || s.last() == '\r' || s.last() == '\t') {
            lemma_control_hex(s.last());
        }
        assert forall|i: int| 0 <= i < e.len() implies !is_control(#[trigger] e[i]) by {
            if is_control(s.last()) && !(s.last() == '\n' || s.last() == '\r' || s.last() == '\t') {
                let h = pad_left(radix_digits(s.last() as nat, 16), 4, '0');
                if i >= 2 {
                    assert(e[i] == h[i - 2]);
                }
            }
        }
        assert forall|i: int| 0 <= i < json_body(s).len() implies !is_control(#[trigger] json_body(s)[i]) by {
            if i < a.len() {
                assert(json_body(s)[i] == a[i]);
            } else {
                assert(json_body(s)[i] == e[i - a.len()]);
            }
        }
    }
}

/// A JSON string literal is quoted, holds no control character, and decodes
/// back to exactly the text it was made from.
pub proof fn json_string_round_trip(s: Seq<char>)
    ensures
        ({
            let j = spec_json_string(s);
            &&& j.len() >= 2
            &&& j[0] == '"'
            &&& j[j.len() - 1] == '"'
            &&& forall|i: int| 0 <= i < j.len() ==> !is_control(#[trigger] j[i])
            &&& json_unescape(j.subrange(1, j.len() - 1)) == Some(s)
        }),
{
    let j = spec_json_string(s);
    let b = json_body(s);
    lemma_body_no_control(s);
    lemma_decode_body(s);
    assert(j.subrange(1, j.len() - 1) =~= b);
    assert forall|i: int| 0 <= i < j.len() implies !is_control(#[trigger] j[i]) by {
        if 1 <= i < j.len() - 1 {
            assert(j[i] == b[i - 1]);
        }
    }
}

/// The JSON array of string literals for `values`, with a final newline.
pub open spec fn spec_to_json(values: Seq<Seq<char>>) -> Seq<char> {
    seq!['['] + join(values.map_values(|v: Seq<char>| spec_json_string(v)), seq![','])
        + seq![']', '\n']
}

/// Writes `values` as a JSON array of strings followed by a newline.
pub fn to_json(values: &Vec<String>) -> (r: Result<String, String>)
    ensures
        r matches Ok(s) && s@ == spec_to_json(views(values@)),
{
    let mut out = String::new();
    push_char(&mut out, '[');
    let ghost js = views(values@).map_values(|v: Seq<char>| spec_json_string(v));
    let mut i: usize = 0;
    while i < values.len()
        invariant
            i <= values@.len(),
            js == views(values@).map_values(|v: Seq<char>| spec_json_string(v)),
            out@ == seq!['['] + join(js.take(i as int), seq![',']),
        decreases values.len() - i,
    {
        let ghost before = out@;
        if i > 0 {
            push_char(&mut out, ',');
        }
        let j = json_string(values[i].as_str());
        push_str(&mut out, j.as_str());
        assert(js.take(i + 1).drop_last() == js.take(i as int));
        assert(js.take(i + 1).last() == j@);
        if i == 0 {
            assert(js.take(1) =~= seq![j@]);
            assert(js.take(0) =~= Seq::<Seq<char>>::empty());
        }
        assert(out@ =~= seq!['['] + join(js.take(i + 1), seq![',']));
        i = i + 1;
    }
    assert(js.take(values@.len() as int) == js);
    push_char(&mut out, ']');
    push_char(&mut out, '\n');
    assert(out@ =~= spec_to_json(views(values@)));
    Ok(out)
}

/// The message for a position outside the record.
pub open spec fn oob_message(n: int) -> Seq<char> {
    "Error: Out of bounds: "@ + signed_decimal(n)
}

/// The message for a position outside the record.
fn oob(n: i64) -> (m: String)
    ensures
        m@ == oob_message(n as int),
{
    let mut m = to_string("Error: Out of bounds: ");
    let d = i64_to_string(n);
    push_str(&mut m, d.as_str());
    m
}

/// The 1-based position of `idx` among `total` items, or the error.
pub open spec fn spec_resolve(idx: int, total: int) -> Result<int, Seq<char>> {
    match spec_resolve_index(idx, total) {
        Some(p) => Ok(p),
        None => Err(oob_message(idx)),
    }
}

fn resolve(idx: i64, total: i64) -> (r: Result<i64, String>)
    requires
        0 <= total,
    ensures
        match r {
            Ok(p) => spec_resolve(idx as int, total as int) == Ok::<int, Seq<char>>(p as int) && 1
                <= p <= total,
            Err(e) => spec_resolve(idx as int, total as int) == Err::<int, Seq<char>>(e@),
        },
{
    match resolve_index(idx, total) {
        Some(p) => Ok(p),
        None => Err(oob(idx)),
    }
}

/// The positions `(first, last)` that a bound covers among `total` items.
pub open spec fn spec_resolve_range(b: Bound, total: int) -> Result<(int, int), Seq<char>> {
    match spec_resolve(b.start as int, total) {
        Err(e) => Err(e),
        Ok(s) => match b.end {
            None => Ok((s, s)),
            Some(end) => match spec_resolve(end as int, total) {
                Err(e) => Err(e),
                Ok(t) => if s > t {
                    Err(oob_message(b.start as int))
                } else {
                    Ok((s, t))
                },
            },
        },
    }
}

fn resolve_range(b: &Bound, total: i64) -> (r: Result<(i64, i64), String>)
    requires
        0 <= total,
    ensures
        match r {
            Ok(p) => spec_resolve_range(*b, total as int) == Ok::<(int, int), Seq<char>>(
                (p.0 as int, p.1 as int),
            ) && 1 <= p.0 <= p.1 <= total,
            Err(e) => spec_resolve_range(*b, total as int) == Err::<(int, int), Seq<char>>(e@),
        },
{
    let s = match resolve(b.start, total) {
        Ok(v) => v,
        Err(e) => return Err(e),
    };
    match b.end {
        None => Ok((s, s)),
        Some(end) => {
            let t = match resolve(end, total) {
                Ok(v) => v,
                Err(e) => return Err(e),
            };
            if s > t {
                Err(oob(b.start))
            } else {
                Ok((s, t))
            }
        },
    }
}

/// The ranges that cover the positions a bound leaves out.
pub open spec fn spec_complement(b: Bound, total: int) -> Result<Seq<Bound>, Seq<char>> {
    match spec_resolve_range(b, total) {
        Err(e) => Err(e),
        Ok((s, t)) => Ok(
            (if s > 1 {
                seq![Bound { start: 1, end: Some((s - 1) as i64), fallback: None }]
            } else {
                Seq::empty()
            }) + (if t < total {
                seq![Bound { start: (t + 1) as i64, end: Some(total as i64), fallback: None }]
            } else {
                Seq::empty()
            }),
        ),
    }
}

/// Position `p` lies in the range of `b`, a range with an end.
pub open spec fn covers(b: Bound, p: int) -> bool {
    b.start <= p && (b.end matches Some(e) && p <= e)
}

/// Position `p` lies in one of the ranges `v`.
pub open spec fn covered_by(v: Seq<Bound>, p: int) -> bool {
    exists|k: int| 0 <= k < v.len() && #[trigger] covers(v[k], p)
}

/// The complement of a bound that names positions `s..=t` of `1..=total`
/// is a list of ranges inside `1..=total` that together cover exactly the
/// positions outside `s..=t`; a bound that names no positions has no
/// complement, for the same reason.
pub proof fn complement_covers_the_rest(b: Bound, total: int)
    requires
        0 <= total <= i64::MAX,
    ensures
        spec_resolve_range(b, total) matches Ok((s, t)) ==> {
            &&& 1 <= s <= t <= total
            &&& spec_complement(b, total) matches Ok(v) && {
                &&& forall|k: int|
                    0 <= k < v.len() ==> 1 <= (#[trigger] v[k]).start && (v[k].end matches Some(e) && v[k].start
                        <= e <= total)
                &&& forall|p: int| 1 <= p <= total ==> (#[trigger] covered_by(v, p) <==> (p < s || t < p))
            }
        },
        spec_resolve_range(b, total) matches Err(e) ==> spec_complement(b, total) == Err::<Seq<Bound>, Seq<char>>(e),
{
    crate::bounds::resolve_index_in_range(b.start as int, total);
    if let Some(end) = b.end {
        crate::bounds::resolve_index_in_range(end as int, total);
    }
    if let Ok((s, t)) = spec_resolve_range(b, total) {
        assert(1 <= s <= t <= total);
        let v = spec_complement(b, total)->Ok_0;
        let lo = Bound { start: 1, end: Some((s - 1) as i64), fallback: None };
        let hi = Bound { start: (t + 1) as i64, end: Some(total as i64), fallback: None };
        assert forall|p: int| 1 <= p <= total implies (#[trigger] covered_by(v, p) <==> (p < s || t < p)) by {
            if p < s {
                assert(v[0] == lo);
                assert(covers(v[0], p));
            } else if t < p {
                let k: int = if s > 1 {
                    1
                } else {
                    0
                };
                assert(v[k] == hi);
                assert(covers(v[k], p));
            } else {
                assert forall|k: int| 0 <= k < v.len() implies !#[trigger] covers(v[k], p) by {
                    if s > 1 && k == 0 {
                        assert(v[k] == lo);
                    } else {
                        assert(v[k] == hi);
                    }
                }
            }
        }
        assert forall|k: int| 0 <= k < v.len() implies 1 <= (#[trigger] v[k]).start && (v[k].end matches Some(e)
            && v[k].start <= e <= total) by {
            if s > 1 && k == 0 {
                assert(v[k] == lo);
            } else {
                assert(v[k] == hi);
            }
        }
    }
}

fn complement_bound(b: &Bound, total: i64) -> (r: Result<Vec<Bound>, String>)
    requires
        0 <= total,
    ensures
        match r {
            Ok(v) => spec_complement(*b, total as int) == Ok::<Seq<Bound>, Seq<char>>(v@),
            Err(e) => spec_complement(*b, total as int) == Err::<Seq<Bound>, Seq<char>>(e@),
        },
{
    let (s, t) = match resolve_range(b, total) {
        Ok(p) => p,
        Err(e) => return Err(e),
    };
    let mut v: Vec<Bound> = Vec::new();
    if s > 1 {
        v.push(Bound { start: 1, end: Some(s - 1), fallback: None });
    }
    if t < total {
        v.push(Bound { start: t + 1, end: Some(total), fallback: None });
    }
    assert(v@ =~= (if s > 1 {
        seq![Bound { start: 1, end: Some((s - 1) as i64), fallback: None }]
    } else {
        Seq::empty()
    }) + (if t < total {
        seq![Bound { start: (t + 1) as i64, end: Some(total as i64), fallback: None }]
    } else {
        Seq::empty()
    }));
    Ok(v)
}

/// The bounds that a configured bound stands for: itself, or its complement.
pub open spec fn spec_expand(b: Bound, c: CutConfig, total: int) -> Result<Seq<Bound>, Seq<char>> {
    if c.complement {
        spec_complement(b, total)
    } else {
        Ok(seq![b])
    }
}

fn expand(b: &Bound, config: &CutConfig, total: i64) -> (r: Result<Vec<Bound>, String>)
    requires
        0 <= total,
    ensures
        match r {
            Ok(v) => spec_expand(*b, *config, total as int) == Ok::<Seq<Bound>, Seq<char>>(v@),
            Err(e) => spec_expand(*b, *config, total as int) == Err::<Seq<Bound>, Seq<char>>(e@),
        },
{
    if config.complement {
        complement_bound(b, total)
    } else {
        let mut v: Vec<Bound> = Vec::new();
        v.push(clone_bound(b));
        assert(v@ =~= seq![*b]);
        Ok(v)
    }
}

/// A copy of a bound.
fn clone_bound(b: &Bound) -> (r: Bound)
    ensures
        r == *b,
{
    Bound { start: b.start, end: b.end, fallback: clone_opt(&b.fallback) }
}

/// A copy of an optional string.
pub fn clone_opt(o: &Option<String>) -> (r: Option<String>)
    ensures
        r == *o,
{
    match o {
        Some(s) => Some(s.clone()),
        None => None,
    }
}

/// The fallback of a bound, else the configured one.
pub open spec fn spec_pick_fallback(b: Bound, c: CutConfig) -> Option<Seq<char>> {
    match b.fallback {
        Some(f) => Some(f@),
        None => opt_view(c.fallback_oob),
    }
}

/// The fallback text for a bound: its own, else the configured one.
fn pick_fallback(bound: &Bound, config: &CutConfig) -> (r: Option<String>)
    ensures
        opt_view(r) == spec_pick_fallback(*bound, *config),
{
    match &bound.fallback {
        Some(f) => Some(f.clone()),
        None => clone_opt(&config.fallback_oob),
    }
}

/// What joins the pieces of a range: a newline for lines, else the
/// replacement delimiter or the delimiter.
pub open spec fn spec_join_delimiter(c: CutConfig) -> Seq<char> {
    if c.line_mode {
        "\n"@
    } else {
        match c.replace_delimiter {
            Some(r) => r@,
            None => c.delimiter@,
        }
    }
}

/// The text that joins the pieces of a range.
fn join_delimiter(config: &CutConfig) -> (r: String)
    ensures
        r@ == spec_join_delimiter(*config),
{
    if config.line_mode {
        to_string("\n")
    } else {
        match &config.replace_delimiter {
            Some(r) => r.clone(),
            None => config.delimiter.clone(),
        }
    }
}

/// Whether a bound is a range.
fn is_range_bound(bound: &Bound) -> (r: bool)
    ensures
        r == bound.end is Some,
{
    bound.end.is_some()
}

/// The text a bound selects: a single field, or the fields of a range
/// joined by `js`; the fallback when the bound lies outside.
pub open spec fn spec_extract_range(fields: Seq<Seq<char>>, b: Bound, c: CutConfig, js: Seq<char>) -> Result<
    Seq<char>,
    Seq<char>,
> {
    match spec_resolve_range(b, fields.len() as int) {
        Err(e) => match spec_pick_fallback(b, c) {
            Some(f) => Ok(f),
            None => Err(e),
        },
        Ok((s, t)) => if b.end is Some {
            Ok(join(fields.subrange(s - 1, t), js))
        } else {
            Ok(fields[s - 1])
        },
    }
}

fn extract_range(fields: &[String], bound: &Bound, config: &CutConfig, join_str: &str) -> (r: Result<
    String,
    String,
>)
    requires
        fields@.len() <= i64::MAX,
    ensures
        match r {
            Ok(v) => spec_extract_range(views(fields@), *bound, *config, join_str@) == Ok::<
                Seq<char>,
                Seq<char>,
            >(v@),
            Err(e) => spec_extract_range(views(fields@), *bound, *config, join_str@) == Err::<
                Seq<char>,
                Seq<char>,
            >(e@),
        },
{
    let total = fields.len() as i64;
    let (start, end) = match resolve_range(bound, total) {
        Ok(v) => v,
        Err(e) => {
            match pick_fallback(bound, config) {
                Some(fb) => return Ok(fb),
                None => return Err(e),
            }
        },
    };
    let ghost fv = views(fields@);
    if is_range_bound(bound) {
        let mut out = String::new();
        let first = (start - 1) as usize;
        let last = end as usize;
        let mut k = first;
        while k < last
            invariant
                first <= k <= last <= fields@.len(),
                first == start - 1,
                last == end,
                fv == views(fields@),
                out@ == join(fv.subrange(first as int, k as int), join_str@),
            decreases last - k,
        {
            if k > first {
                push_str(&mut out, join_str);
            }
            push_str(&mut out, fields[k].as_str());
            assert(fv.subrange(first as int, k + 1).drop_last() == fv.subrange(first as int, k as int));
            if k == first {
                assert(fv.subrange(first as int, k as int) =~= Seq::<Seq<char>>::empty());
            }
            assert(out@ =~= join(fv.subrange(first as int, k + 1), join_str@));
            k = k + 1;
        }
        Ok(out)
    } else {
        Ok(fields[(start - 1) as usize].clone())
    }
}

/// The text that the pieces of a template produce, or the first error.
pub open spec fn spec_render_format(fields: Seq<Seq<char>>, parts: Seq<FormatPart>, c: CutConfig, js: Seq<
    char,
>) -> Result<Seq<char>, Seq<char>>
    decreases parts.len(),
{
    if parts.len() == 0 {
        Ok(Seq::empty())
    } else {
        match spec_render_format(fields, parts.drop_last(), c, js) {
            Err(e) => Err(e),
            Ok(o) => match parts.last() {
                FormatPart::Literal(t) => Ok(o + t@),
                FormatPart::Field { start, end } => match spec_extract_range(
                    fields,
                    Bound { start, end, fallback: None },
                    c,
                    js,
                ) {
                    Err(e) => Err(e),
                    Ok(x) => Ok(o + x),
                },
            },
        }
    }
}

/// Fills a template with the fields it names.
fn render_format(fields: &[String], spec: &FormatSpec, config: &CutConfig) -> (r: Result<
    String,
    String,
>)
    requires
        fields@.len() <= i64::MAX,
    ensures
        match r {
            Ok(v) => spec_render_format(views(fields@), spec.parts@, *config, spec_join_delimiter(*config))
                == Ok::<Seq<char>, Seq<char>>(v@),
            Err(e) => spec_render_format(views(fields@), spec.parts@, *config, spec_join_delimiter(*config))
                == Err::<Seq<char>, Seq<char>>(e@),
        },
{
    let join_str = join_delimiter(config);
    let mut out = String::new();
    let mut k: usize = 0;
    let ghost fv = views(fields@);
    while k < spec.parts.len()
        invariant
            k <= spec.parts@.len(),
            fields@.len() <= i64::MAX,
            fv == views(fields@),
            join_str@ == spec_join_delimiter(*config),
            spec_render_format(fv, spec.parts@.take(k as int), *config, join_str@) == Ok::<
                Seq<char>,
                Seq<char>,
            >(out@),
        decreases spec.parts.len() - k,
    {
        assert(spec.parts@.take(k + 1).drop_last() == spec.parts@.take(k as int));
        assert(spec.parts@.take(k + 1).last() == spec.parts@[k as int]);
        match &spec.parts[k] {
            FormatPart::Literal(t) => {
                push_str(&mut out, t.as_str());
            },
            FormatPart::Field { start, end } => {
                let b = Bound { start: *start, end: *end, fallback: None };
                match extract_range(fields, &b, config, join_str.as_str()) {
                    Ok(x) => push_str(&mut out, x.as_str()),
                    Err(e) => {
                        proof {
                            lemma_render_format_err(fv, spec.parts@, *config, join_str@, k + 1);
                        }
                        return Err(e);
                    },
                }
            },
        }
        k = k + 1;
    }
    assert(spec.parts@.take(spec.parts@.len() as int) == spec.parts@);
    Ok(out)
}

proof fn lemma_render_format_err(fields: Seq<Seq<char>>, parts: Seq<FormatPart>, c: CutConfig, js: Seq<
    char,
>, n: int)
    requires
        0 <= n <= parts.len(),
        spec_render_format(fields, parts.take(n), c, js) is Err,
    ensures
        spec_render_format(fields, parts, c, js) == spec_render_format(fields, parts.take(n), c, js),
    decreases parts.len() - n,
{
    if n < parts.len() {
        assert(parts.take(n + 1).drop_last() == parts.take(n));
        lemma_render_format_err(fields, parts, c, js, n + 1);
    } else {
        assert(parts.take(n) == parts);
    }
}

/// The texts that bounds `bs` select, or the first error.
pub open spec fn spec_extract_all(fields: Seq<Seq<char>>, bs: Seq<Bound>, c: CutConfig, js: Seq<char>) -> Result<
    Seq<Seq<char>>,
    Seq<char>,
>
    decreases bs.len(),
{
    if bs.len() == 0 {
        Ok(Seq::empty())
    } else {
        match spec_extract_all(fields, bs.drop_last(), c, js) {
            Err(e) => Err(e),
            Ok(xs) => match spec_extract_range(fields, bs.last(), c, js) {
                Err(e) => Err(e),
                Ok(x) => Ok(xs.push(x)),
            },
        }
    }
}

/// The chunks that configured bounds `bs` select (each expanded to its
/// complement when asked), or the first error.
pub open spec fn spec_chunks(fields: Seq<Seq<char>>, bs: Seq<Bound>, c: CutConfig, js: Seq<char>) -> Result<
    Seq<Seq<char>>,
    Seq<char>,
>
    decreases bs.len(),
{
    if bs.len() == 0 {
        Ok(Seq::empty())
    } else {
        match spec_chunks(fields, bs.drop_last(), c, js) {
            Err(e) => Err(e),
            Ok(cs) => match spec_expand(bs.last(), c, fields.len() as int) {
                Err(e) => Err(e),
                Ok(used) => match spec_extract_all(fields, used, c, js) {
                    Err(e) => Err(e),
                    Ok(xs) => Ok(cs + xs),
                },
            },
        }
    }
}

/// The fields that bounds `bs` cover, in order, or the first error.
pub open spec fn spec_values_all(fields: Seq<Seq<char>>, bs: Seq<Bound>) -> Result<Seq<Seq<char>>, Seq<char>>
    decreases bs.len(),
{
    if bs.len() == 0 {
        Ok(Seq::empty())
    } else {
        match spec_values_all(fields, bs.drop_last()) {
            Err(e) => Err(e),
            Ok(vs) => match spec_resolve_range(bs.last(), fields.len() as int) {
                Err(e) => Err(e),
                Ok((s, t)) => Ok(vs + fields.subrange(s - 1, t)),
            },
        }
    }
}

/// The fields that configured bounds `bs` cover (each expanded to its
/// complement when asked), or the first error.
pub open spec fn spec_json_values(fields: Seq<Seq<char>>, bs: Seq<Bound>, c: CutConfig) -> Result<
    Seq<Seq<char>>,
    Seq<char>,
>
    decreases bs.len(),
{
    if bs.len() == 0 {
        Ok(Seq::empty())
    } else {
        match spec_json_values(fields, bs.drop_last(), c) {
            Err(e) => Err(e),
            Ok(vs) => match spec_expand(bs.last(), c, fields.len() as int) {
                Err(e) => Err(e),
                Ok(used) => match spec_values_all(fields, used) {
                    Err(e) => Err(e),
                    Ok(xs) => Ok(vs + xs),
                },
            },
        }
    }
}

/// What a record renders to: the template, or the selected chunks (joined
/// when asked), or their JSON array.
pub open spec fn spec_render_selection(fields: Seq<Seq<char>>, c: CutConfig) -> Result<Seq<char>, Seq<char>> {
    let js = spec_join_delimiter(c);
    match c.format_spec {
        Some(fs) => spec_render_format(fields, fs.parts@, c, js),
        None => if fields.len() == 0 && c.complement {
            Err("Error: the complement is empty"@)
        } else {
            match c.bounds {
                None => Err("Missing bounds"@),
                Some(bs) => if c.json {
                    match spec_json_values(fields, bs@, c) {
                        Err(e) => Err(e),
                        Ok(vs) => Ok(spec_to_json(vs)),
                    }
                } else {
                    match spec_chunks(fields, bs@, c, js) {
                        Err(e) => Err(e),
                        Ok(cs) => Ok(
                            if c.join {
                                join(cs, js)
                            } else {
                                crate::text::concat(cs)
                            },
                        ),
                    }
                },
            }
        },
    }
}

/// Appends copies of `fields[first..last]` to `out`.
fn push_range(fields: &[String], first: usize, last: usize, out: &mut Vec<String>)
    requires
        first <= last <= fields@.len(),
    ensures
        views(final(out)@) == views(old(out)@) + views(fields@).subrange(first as int, last as int),
{
    let ghost base = views(out@);
    let ghost fv = views(fields@);
    let mut k = first;
    assert(fv.subrange(first as int, first as int) =~= Seq::<Seq<char>>::empty());
    assert(views(out@) =~= base + fv.subrange(first as int, first as int));
    while k < last
        invariant
            first <= k <= last <= fields@.len(),
            fv == views(fields@),
            views(out@) == base + fv.subrange(first as int, k as int),
        decreases last - k,
    {
        let ghost before = views(out@);
        out.push(fields[k].clone());
        assert(views(out@) =~= before.push(fv[k as int]));
        assert(views(out@) =~= base + fv.subrange(first as int, k + 1));
        k = k + 1;
    }
}

/// The fields that one configured bound covers, appended to `out`.
fn push_bound_values(fields: &[String], bound: &Bound, config: &CutConfig, out: &mut Vec<String>) -> (r:
    Result<(), String>)
    requires
        fields@.len() <= i64::MAX,
    ensures
        match r {
            Ok(_) => match spec_expand(*bound, *config, fields@.len() as int) {
                Ok(used) => spec_values_all(views(fields@), used) == Ok::<Seq<Seq<char>>, Seq<char>>(
                    views(final(out)@).skip(old(out)@.len() as int),
                ) && views(final(out)@).take(old(out)@.len() as int) == views(old(out)@)
                    && final(out)@.len() >= old(out)@.len(),
                Err(_) => false,
            },
            Err(e) => match spec_expand(*bound, *config, fields@.len() as int) {
                Ok(used) => spec_values_all(views(fields@), used) == Err::<Seq<Seq<char>>, Seq<char>>(e@),
                Err(e2) => e2 == e@,
            },
        },
{
    let total = fields.len() as i64;
    let used = match expand(bound, config, total) {
        Ok(v) => v,
        Err(e) => return Err(e),
    };
    let ghost fv = views(fields@);
    let ghost base = views(out@);
    let ghost n0 = out@.len() as int;
    let mut j: usize = 0;
    assert(views(out@).skip(n0) =~= Seq::<Seq<char>>::empty());
    while j < used.len()
        invariant
            j <= used@.len(),
            fields@.len() <= i64::MAX,
            total == fields@.len(),
            fv == views(fields@),
            spec_expand(*bound, *config, total as int) == Ok::<Seq<Bound>, Seq<char>>(used@),
            n0 == old(out)@.len(),
            base == views(old(out)@),
            views(out@).take(n0) == base,
            out@.len() >= n0,
            spec_values_all(fv, used@.take(j as int)) == Ok::<Seq<Seq<char>>, Seq<char>>(
                views(out@).skip(n0),
            ),
        decreases used.len() - j,
    {
        assert(used@.take(j + 1).drop_last() == used@.take(j as int));
        assert(used@.take(j + 1).last() == used@[j as int]);
        let (s, t) = match resolve_range(&used[j], total) {
            Ok(p) => p,
            Err(e) => {
                proof {
                    lemma_values_all_err(fv, used@, j + 1);
                }
                return Err(e);
            },
        };
        assert(1 <= s <= t <= total);
        assert(s - 1 < fields@.len());
        let ghost mid = views(out@);
        let n: usize = fields.len();
        assert(t <= n);
        let first: usize = (s - 1) as usize;
        let last: usize = t as usize;
        assert(first as int == s - 1);
        assert(last as int == t);
        push_range(fields, first, last, out);
        assert(views(out@) =~= mid + fv.subrange(s - 1, t as int));
        assert(views(out@).skip(n0) =~= mid.skip(n0) + fv.subrange(s - 1, t as int));
        assert(views(out@).take(n0) =~= base);
        j = j + 1;
    }
    assert(used@.take(used@.len() as int) == used@);
    Ok(())
}

proof fn lemma_values_all_err(fields: Seq<Seq<char>>, bs: Seq<Bound>, n: int)
    requires
        0 <= n <= bs.len(),
        spec_values_all(fields, bs.take(n)) is Err,
    ensures
        spec_values_all(fields, bs) == spec_values_all(fields, bs.take(n)),
    decreases bs.len() - n,
{
    if n < bs.len() {
        assert(bs.take(n + 1).drop_last() == bs.take(n));
        lemma_values_all_err(fields, bs, n + 1);
    } else {
        assert(bs.take(n) == bs);
    }
}

proof fn lemma_json_values_err(fields: Seq<Seq<char>>, bs: Seq<Bound>, c: CutConfig, n: int)
    requires
        0 <= n <= bs.len(),
        spec_json_values(fields, bs.take(n), c) is Err,
    ensures
        spec_json_values(fields, bs, c) == spec_json_values(fields, bs.take(n), c),
    decreases bs.len() - n,
{
    if n < bs.len() {
        assert(bs.take(n + 1).drop_last() == bs.take(n));
        lemma_json_values_err(fields, bs, c, n + 1);
    } else {
        assert(bs.take(n) == bs);
    }
}

/// The fields that the configured bounds cover, for JSON output.
pub open spec fn spec_select_json_fields(fields: Seq<Seq<char>>, c: CutConfig) -> Result<Seq<Seq<char>>, Seq<char>> {
    match c.bounds {
        None => Err("Missing bounds"@),
        Some(bs) => spec_json_values(fields, bs@, c),
    }
}

/// The fields that the configured bounds cover, in order, for JSON output.
fn select_json_fields(fields: &[String], config: &CutConfig) -> (r: Result<Vec<String>, String>)
    requires
        fields@.len() <= i64::MAX,
    ensures
        match r {
            Ok(v) => spec_select_json_fields(views(fields@), *config) == Ok::<Seq<Seq<char>>, Seq<char>>(
                views(v@),
            ),
            Err(e) => spec_select_json_fields(views(fields@), *config) == Err::<Seq<Seq<char>>, Seq<char>>(
                e@,
            ),
        },
{
    let bounds = match &config.bounds {
        Some(b) => b,
        None => return Err(to_string("Missing bounds")),
    };
    let ghost fv = views(fields@);
    let mut selected: Vec<String> = Vec::new();
    let mut i: usize = 0;
    assert(views(selected@) =~= Seq::<Seq<char>>::empty());
    while i < bounds.len()
        invariant
            i <= bounds@.len(),
            fields@.len() <= i64::MAX,
            fv == views(fields@),
            config.bounds == Some(*bounds),
            spec_json_values(fv, bounds@.take(i as int), *config) == Ok::<Seq<Seq<char>>, Seq<char>>(
                views(selected@),
            ),
        decreases bounds.len() - i,
    {
        assert(bounds@.take(i + 1).drop_last() == bounds@.take(i as int));
        assert(bounds@.take(i + 1).last() == bounds@[i as int]);
        let ghost before = views(selected@);
        match push_bound_values(fields, &bounds[i], config, &mut selected) {
            Ok(_) => {
                assert(views(selected@) =~= before + views(selected@).skip(before.len() as int));
            },
            Err(e) => {
                proof {
                    lemma_json_values_err(fv, bounds@, *config, i + 1);
                }
                return Err(e);
            },
        }
        i = i + 1;
    }
    assert(bounds@.take(bounds@.len() as int) == bounds@);
    Ok(selected)
}

/// The lines that the configured bounds cover, for JSON output.
fn lines_for_json(lines: &[String], config: &CutConfig) -> (r: Result<Vec<String>, String>)
    requires
        lines@.len() <= i64::MAX,
    ensures
        match r {
            Ok(v) => spec_select_json_fields(views(lines@), *config) == Ok::<Seq<Seq<char>>, Seq<char>>(
                views(v@),
            ),
            Err(e) => spec_select_json_fields(views(lines@), *config) == Err::<Seq<Seq<char>>, Seq<char>>(
                e@,
            ),
        },
{
    select_json_fields(lines, config)
}


/// The chunks that one configured bound selects, appended to `out`.
fn push_bound_chunks(
    fields: &[String],
    bound: &Bound,
    config: &CutConfig,
    js: &str,
    out: &mut Vec<String>,
) -> (r: Result<(), String>)
    requires
        fields@.len() <= i64::MAX,
    ensures
        match r {
            Ok(_) => match spec_expand(*bound, *config, fields@.len() as int) {
                Ok(used) => spec_extract_all(views(fields@), used, *config, js@) == Ok::<
                    Seq<Seq<char>>,
                    Seq<char>,
                >(views(final(out)@).skip(old(out)@.len() as int)) && views(final(out)@).take(
                    old(out)@.len() as int,
                ) == views(old(out)@) && final(out)@.len() >= old(out)@.len(),
                Err(_) => false,
            },
            Err(e) => match spec_expand(*bound, *config, fields@.len() as int) {
                Ok(used) => spec_extract_all(views(fields@), used, *config, js@) == Err::<
                    Seq<Seq<char>>,
                    Seq<char>,
                >(e@),
                Err(e2) => e2 == e@,
            },
        },
{
    let total = fields.len() as i64;
    let used = match expand(bound, config, total) {
        Ok(v) => v,
        Err(e) => return Err(e),
    };
    let ghost fv = views(fields@);
    let ghost base = views(out@);
    let ghost n0 = out@.len() as int;
    let mut j: usize = 0;
    assert(views(out@).skip(n0) =~= Seq::<Seq<char>>::empty());
    while j < used.len()
        invariant
            j <= used@.len(),
            fields@.len() <= i64::MAX,
            total == fields@.len(),
            fv == views(fields@),
            spec_expand(*bound, *config, total as int) == Ok::<Seq<Bound>, Seq<char>>(used@),
            n0 == old(out)@.len(),
            base == views(old(out)@),
            views(out@).take(n0) == base,
            out@.len() >= n0,
            spec_extract_all(fv, used@.take(j as int), *config, js@) == Ok::<
                Seq<Seq<char>>,
                Seq<char>,
            >(views(out@).skip(n0)),
        decreases used.len() - j,
    {
        assert(used@.take(j + 1).drop_last() == used@.take(j as int));
        assert(used@.take(j + 1).last() == used@[j as int]);
        let ghost before = views(out@);
        match extract_range(fields, &used[j], config, js) {
            Ok(x) => {
                out.push(x);
                assert(views(out@) =~= before.push(x@));
                assert(views(out@).skip(n0) =~= before.skip(n0).push(x@));
                assert(views(out@).take(n0) =~= before.take(n0));
            },
            Err(e) => {
                proof {
                    lemma_extract_all_err(fv, used@, *config, js@, j + 1);
                }
                return Err(e);
            },
        }
        j = j + 1;
    }
    assert(used@.take(used@.len() as int) == used@);
    Ok(())
}

proof fn lemma_extract_all_err(fields: Seq<Seq<char>>, bs: Seq<Bound>, c: CutConfig, js: Seq<char>, n: int)
    requires
        0 <= n <= bs.len(),
        spec_extract_all(fields, bs.take(n), c, js) is Err,
    ensures
        spec_extract_all(fields, bs, c, js) == spec_extract_all(fields, bs.take(n), c, js),
    decreases bs.len() - n,
{
    if n < bs.len() {
        assert(bs.take(n + 1).drop_last() == bs.take(n));
        lemma_extract_all_err(fields, bs, c, js, n + 1);
    } else {
        assert(bs.take(n) == bs);
    }
}

proof fn lemma_chunks_err(fields: Seq<Seq<char>>, bs: Seq<Bound>, c: CutConfig, js: Seq<char>, n: int)
    requires
        0 <= n <= bs.len(),
        spec_chunks(fields, bs.take(n), c, js) is Err,
    ensures
        spec_chunks(fields, bs, c, js) == spec_chunks(fields, bs.take(n), c, js),
    decreases bs.len() - n,
{
    if n < bs.len() {
        assert(bs.take(n + 1).drop_last() == bs.take(n));
        lemma_chunks_err(fields, bs, c, js, n + 1);
    } else {
        assert(bs.take(n) == bs);
    }
}

/// The chunks that the bounds `bounds` select, in order.
fn collect_chunks(fields: &[String], bounds: &Vec<Bound>, config: &CutConfig, js: &str) -> (r: Result<
    Vec<String>,
    String,
>)
    requires
        fields@.len() <= i64::MAX,
    ensures
        match r {
            Ok(v) => spec_chunks(views(fields@), bounds@, *config, js@) == Ok::<Seq<Seq<char>>, Seq<char>>(
                views(v@),
            ),
            Err(e) => spec_chunks(views(fields@), bounds@, *config, js@) == Err::<Seq<Seq<char>>, Seq<char>>(
                e@,
            ),
        },
{
    let ghost fv = views(fields@);
    let mut chunks: Vec<String> = Vec::new();
    let mut i: usize = 0;
    assert(views(chunks@) =~= Seq::<Seq<char>>::empty());
    while i < bounds.len()
        invariant
            i <= bounds@.len(),
            fields@.len() <= i64::MAX,
            fv == views(fields@),
            spec_chunks(fv, bounds@.take(i as int), *config, js@) == Ok::<Seq<Seq<char>>, Seq<char>>(
                views(chunks@),
            ),
        decreases bounds.len() - i,
    {
        assert(bounds@.take(i + 1).drop_last() == bounds@.take(i as int));
        assert(bounds@.take(i + 1).last() == bounds@[i as int]);
        let ghost before = views(chunks@);
        match push_bound_chunks(fields, &bounds[i], config, js, &mut chunks) {
            Ok(_) => {
                assert(views(chunks@) =~= before + views(chunks@).skip(before.len() as int));
            },
            Err(e) => {
                proof {
                    lemma_chunks_err(fv, bounds@, *config, js@, i + 1);
                }
                return Err(e);
            },
        }
        i = i + 1;
    }
    assert(bounds@.take(bounds@.len() as int) == bounds@);
    Ok(chunks)
}

/// Renders one record: through the template when there is one, else the
/// selected chunks, joined when asked, or their JSON array.
fn render_selection(fields: &[String], config: &CutConfig) -> (r: Result<String, String>)
    requires
        fields@.len() <= i64::MAX,
    ensures
        match r {
            Ok(v) => spec_render_selection(views(fields@), *config) == Ok::<Seq<char>, Seq<char>>(v@),
            Err(e) => spec_render_selection(views(fields@), *config) == Err::<Seq<char>, Seq<char>>(e@),
        },
{
    if let Some(fs) = &config.format_spec {
        return render_format(fields, fs, config);
    }
    if fields.len() == 0 && config.complement {
        return Err(to_string("Error: the complement is empty"));
    }
    let bounds = match &config.bounds {
        Some(b) => b,
        None => return Err(to_string("Missing bounds")),
    };
    let join_str = join_delimiter(config);
    if config.json {
        let selected = match select_json_fields(fields, config) {
            Ok(v) => v,
            Err(e) => return Err(e),
        };
        return to_json(&selected);
    }
    let chunks = match collect_chunks(fields, bounds, config, join_str.as_str()) {
        Ok(v) => v,
        Err(e) => return Err(e),
    };
    if config.join {
        Ok(join_strings(&chunks, join_str.as_str()))
    } else {
        Ok(concat_strings(&chunks))
    }
}


/// The `regex` crate's compiled expression, carried through opaque.
#[verifier::external_type_specification]
#[verifier::external_body]
pub struct ExRegex(Regex);

/// Whether `Regex::new` accepts `pattern` (a valid pattern within the
/// crate's default size limit).
pub uninterp spec fn regex_compiles(pattern: Seq<char>) -> bool;

/// The text of the error that `Regex::new` gives for `pattern`.
pub uninterp spec fn regex_error_text(pattern: Seq<char>) -> Seq<char>;

/// Whether the compiled `pattern` matches anywhere in `text`.
pub uninterp spec fn regex_finds(pattern: Seq<char>, text: Seq<char>) -> bool;

/// The pieces of `text` between the matches of `pattern` (`Regex::split`).
pub uninterp spec fn regex_pieces(pattern: Seq<char>, text: Seq<char>) -> Seq<Seq<char>>;

/// A compiled expression together with the pattern it came from.
pub struct CompiledRegex {
    re: Regex,
    pattern: String,
}

impl CompiledRegex {
    /// The pattern this expression was compiled from.
    pub closed spec fn source(&self) -> Seq<char> {
        self.pattern@
    }

    /// Compiles `pattern`; the error is the text of the crate's error.
    pub fn new(pattern: &str) -> (r: Result<CompiledRegex, String>)
        ensures
            r is Ok <==> regex_compiles(pattern@),
            match r {
                Ok(c) => c.source() == pattern@,
                Err(m) => m@ == regex_error_text(pattern@),
            },
    {
        compile_regex(pattern)
    }
}

/// Compiles `pattern` with `regex::Regex::new`; on failure gives the text of
/// the crate's error. Believed: success exactly when [`regex_compiles`]
/// holds, and the error text is [`regex_error_text`] of the pattern.
#[verifier::external_body]
pub(crate) fn compile_regex(pattern: &str) -> (r: Result<CompiledRegex, String>)
    ensures
        r is Ok <==> regex_compiles(pattern@),
        match r {
            Ok(c) => c.source() == pattern@,
            Err(m) => m@ == regex_error_text(pattern@),
        },
{
    match Regex::new(pattern) {
        Ok(re) => Ok(CompiledRegex { re, pattern: pattern.to_string() }),
        Err(e) => Err(e.to_string()),
    }
}

/// `Regex::is_match`: believed to be [`regex_finds`] of the expression's
/// pattern and the haystack.
#[verifier::external_body]
pub(crate) fn regex_is_match(re: &CompiledRegex, text: &str) -> (r: bool)
    ensures
        r == regex_finds(re.source(), text@),
{
    re.re.is_match(text)
}

/// `Regex::split`, each piece copied: believed to be [`regex_pieces`] of the
/// expression's pattern and the haystack.
#[verifier::external_body]
pub(crate) fn regex_split(re: &CompiledRegex, text: &str) -> (r: Vec<String>)
    ensures
        views(r@) == regex_pieces(re.source(), text@),
{
    re.re.split(text).map(|p| p.to_string()).collect()
}

/// Whether the non-empty `d` occurs somewhere in `s`.
pub open spec fn contains_seq(s: Seq<char>, d: Seq<char>) -> bool {
    exists|i: int| matches_at(s, i, d)
}

/// Whether `d` occurs in `s`.
fn contains_chars(s: &[char], d: &[char]) -> (r: bool)
    ensures
        r == contains_seq(s@, d@),
{
    if d.len() == 0 {
        assert(s@.subrange(0, 0) =~= d@);
        assert(matches_at(s@, 0, d@));
        return true;
    }
    let mut i: usize = 0;
    while i < s.len()
        invariant
            i <= s@.len(),
            d@.len() > 0,
            forall|j: int| 0 <= j < i ==> !matches_at(s@, j, d@),
        decreases s.len() - i,
    {
        if match_at(s, i, d) {
            return true;
        }
        i = i + 1;
    }
    false
}

/// Whether a record holds a delimiter: a match of the pattern when there is
/// one (a pattern that does not compile matches nothing), an occurrence of
/// the delimiter otherwise; always, when the delimiter is empty.
pub open spec fn spec_line_contains_delimiter(line: Seq<char>, c: CutConfig) -> bool {
    match c.regex {
        Some(p) => regex_compiles(p@) && regex_finds(p@, line),
        None => if c.delimiter@.len() > 0 {
            contains_seq(line, c.delimiter@)
        } else {
            true
        },
    }
}

/// Whether `line` holds a delimiter.
fn line_contains_delimiter(line: &str, config: &CutConfig) -> (r: bool)
    ensures
        r == spec_line_contains_delimiter(line@, *config),
{
    match &config.regex {
        Some(p) => match compile_regex(p.as_str()) {
            Ok(re) => regex_is_match(&re, line),
            Err(_) => false,
        },
        None => {
            let d = chars_of(config.delimiter.as_str());
            if d.len() > 0 {
                let s = chars_of(line);
                contains_chars(&s, &d)
            } else {
                true
            }
        },
    }
}

/// The fields of a record: trimmed and squeezed as configured, then split by
/// the pattern, by runs of the delimiter, or at each delimiter. `None` where
/// the byte-wise squeeze or greedy scan would slice inside a character.
pub open spec fn spec_split_into_fields(line: Seq<char>, c: CutConfig) -> Option<
    Result<Seq<Seq<char>>, Seq<char>>,
> {
    let d = c.delimiter@;
    let trimmed = spec_apply_trim(line, c.trim, d);
    let prepared = if c.compress {
        spec_compress_delimiters(trimmed, d)
    } else {
        Some(trimmed)
    };
    match prepared {
        None => None,
        Some(t) => match c.regex {
            Some(p) => if regex_compiles(p@) {
                Some(Ok(regex_pieces(p@, t)))
            } else {
                Some(Err("Invalid regex: "@ + regex_error_text(p@)))
            },
            None => if c.greedy {
                match spec_split_greedy(t, d) {
                    None => None,
                    Some(f) => Some(Ok(f)),
                }
            } else {
                Some(Ok(spec_split_normal(t, d)))
            },
        },
    }
}

/// Cuts a record into its fields.
fn split_into_fields(line: &str, config: &CutConfig) -> (r: Option<Result<Vec<String>, String>>)
    ensures
        match r {
            None => spec_split_into_fields(line@, *config) is None,
            Some(Ok(v)) => spec_split_into_fields(line@, *config) == Some(
                Ok::<Seq<Seq<char>>, Seq<char>>(views(v@)),
            ),
            Some(Err(e)) => spec_split_into_fields(line@, *config) == Some(
                Err::<Seq<Seq<char>>, Seq<char>>(e@),
            ),
        },
{
    let trimmed = apply_trim(line, config);
    let prepared = if config.compress {
        match compress_scan(trimmed.as_str(), config.delimiter.as_str()) {
            Some(t) => t,
            None => return None,
        }
    } else {
        trimmed
    };
    match &config.regex {
        Some(p) => match compile_regex(p.as_str()) {
            Ok(re) => Some(Ok(regex_split(&re, prepared.as_str()))),
            Err(m) => {
                let mut msg = to_string("Invalid regex: ");
                push_str(&mut msg, m.as_str());
                Some(Err(msg))
            },
        },
        None => {
            if config.greedy {
                match greedy_scan(prepared.as_str(), config.delimiter.as_str()) {
                    Some(f) => Some(Ok(f)),
                    None => None,
                }
            } else {
                Some(Ok(split_normal(prepared.as_str(), config.delimiter.as_str())))
            }
        },
    }
}

/// A record terminated by a line end: empty when the bound is valid.
pub open spec fn spec_validate_line_bound(b: Bound) -> Result<(), Seq<char>> {
    match b.end {
        None => Ok(()),
        Some(end) => if b.start < 1 {
            Err(oob_message(b.start as int))
        } else if end < 0 && b.start != 1 {
            Err(oob_message(b.start as int))
        } else if end < 0 && end != -1 {
            Err(oob_message(end as int))
        } else {
            Ok(())
        },
    }
}

/// Checks a bound for line selection: a range must start at 1 or later,
/// and may count from the end only as `1:-1`.
fn validate_line_bound(bound: &Bound) -> (r: Result<(), String>)
    ensures
        match r {
            Ok(_) => spec_validate_line_bound(*bound) == Ok::<(), Seq<char>>(()),
            Err(e) => spec_validate_line_bound(*bound) == Err::<(), Seq<char>>(e@),
        },
{
    if let Some(end) = bound.end {
        if bound.start < 1 {
            return Err(oob(bound.start));
        }
        if end < 0 {
            if bound.start != 1 {
                return Err(oob(bound.start));
            }
            if end != -1 {
                return Err(oob(end));
            }
        }
    }
    Ok(())
}


/// The text that `String::from_utf8_lossy` makes of `bytes`.
pub uninterp spec fn utf8_lossy(bytes: Seq<u8>) -> Seq<char>;

/// `String::from_utf8_lossy`, made owned: believed to be [`utf8_lossy`] of
/// the bytes, which for valid UTF-8 is the decoded text (std documents that
/// only invalid sequences are replaced).
#[verifier::external_body]
pub(crate) fn decode_lossy(data: &[u8]) -> (r: String)
    ensures
        r@ == utf8_lossy(data@),
        valid_utf8(data@) ==> r@ == decode_utf8(data@),
{
    String::from_utf8_lossy(data).into_owned()
}

/// The outcome of a run as plain values: `None` where no result is defined.
pub open spec fn outcome_view(r: Option<Result<String, String>>) -> Option<Result<Seq<char>, Seq<char>>> {
    match r {
        None => None,
        Some(Ok(v)) => Some(Ok(v@)),
        Some(Err(e)) => Some(Err(e@)),
    }
}

/// The output of records `lines`, each rendered by `f`, one after another;
/// the first error or undefined record decides.
pub open spec fn fold_records(
    lines: Seq<Seq<char>>,
    f: spec_fn(Seq<char>) -> Option<Result<Seq<char>, Seq<char>>>,
) -> Option<Result<Seq<char>, Seq<char>>>
    decreases lines.len(),
{
    if lines.len() == 0 {
        Some(Ok(Seq::empty()))
    } else {
        match fold_records(lines.drop_last(), f) {
            Some(Ok(o)) => match f(lines.last()) {
                Some(Ok(x)) => Some(Ok(o + x)),
                other => other,
            },
            other => other,
        }
    }
}

proof fn lemma_fold_records_stop(
    lines: Seq<Seq<char>>,
    f: spec_fn(Seq<char>) -> Option<Result<Seq<char>, Seq<char>>>,
    n: int,
)
    requires
        0 <= n <= lines.len(),
        !(fold_records(lines.take(n), f) is Some && fold_records(lines.take(n), f)->0 is Ok),
    ensures
        fold_records(lines, f) == fold_records(lines.take(n), f),
    decreases lines.len() - n,
{
    if n < lines.len() {
        assert(lines.take(n + 1).drop_last() == lines.take(n));
        lemma_fold_records_stop(lines, f, n + 1);
    } else {
        assert(lines.take(n) == lines);
    }
}

/// The records of the input bytes, read as text, without their terminators.
pub open spec fn spec_records(data: Seq<u8>, zero_terminated: bool) -> Seq<Seq<char>> {
    spec_split_lines(utf8_lossy(data), if zero_terminated { '\0' } else { '\n' })
}

/// Renders records with `f` and concatenates their outputs.
fn run_records(
    lines: &Vec<Vec<char>>,
    config: &CutConfig,
    mode: u8,
    f: Ghost<spec_fn(Seq<char>) -> Option<Result<Seq<char>, Seq<char>>>>,
) -> (r: Option<Result<String, String>>)
    requires
        mode == 0 ==> f@ == (|l: Seq<char>| spec_field_record(l, *config)),
        mode != 0 ==> f@ == (|l: Seq<char>| spec_char_record(l, *config)),
    ensures
        outcome_view(r) == fold_records(lines@.map_values(|v: Vec<char>| v@), f@),
{
    let ghost lv = lines@.map_values(|v: Vec<char>| v@);
    let mut output = String::new();
    let mut i: usize = 0;
    assert(lv.take(0) =~= Seq::<Seq<char>>::empty());
    while i < lines.len()
        invariant
            i <= lines@.len(),
            lv == lines@.map_values(|v: Vec<char>| v@),
            mode == 0 ==> f@ == (|l: Seq<char>| spec_field_record(l, *config)),
            mode != 0 ==> f@ == (|l: Seq<char>| spec_char_record(l, *config)),
            fold_records(lv.take(i as int), f@) == Some(Ok::<Seq<char>, Seq<char>>(output@)),
        decreases lines.len() - i,
    {
        assert(lv.take(i + 1).drop_last() == lv.take(i as int));
        assert(lv.take(i + 1).last() == lv[i as int]);
        let line = string_of(lines[i].as_slice());
        let rec = if mode == 0 {
            field_record(line.as_str(), config)
        } else {
            char_record(line.as_str(), config)
        };
        match rec {
            Some(Ok(x)) => push_str(&mut output, x.as_str()),
            other => {
                proof {
                    lemma_fold_records_stop(lv, f@, i + 1);
                }
                return other;
            },
        }
        i = i + 1;
    }
    assert(lv.take(lines@.len() as int) == lv);
    Some(Ok(output))
}

/// One record's output when cutting fields.
pub open spec fn spec_field_record(line: Seq<char>, c: CutConfig) -> Option<Result<Seq<char>, Seq<char>>> {
    let l = spec_strip_line_terminator(line);
    if c.only_delimited && !spec_line_contains_delimiter(l, c) {
        Some(Ok(Seq::empty()))
    } else {
        match spec_split_into_fields(l, c) {
            None => None,
            Some(Err(e)) => Some(Err(e)),
            Some(Ok(fields)) => if fields.len() > i64::MAX {
                None
            } else if c.json {
                match spec_select_json_fields(fields, c) {
                    Err(e) => Some(Err(e)),
                    Ok(sel) => Some(Ok(spec_to_json(sel))),
                }
            } else {
                match spec_render_selection(fields, c) {
                    Err(e) => Some(Err(e)),
                    Ok(x) => Some(Ok(x.push('\n'))),
                }
            },
        }
    }
}

fn field_record(line: &str, config: &CutConfig) -> (r: Option<Result<String, String>>)
    ensures
        outcome_view(r) == spec_field_record(line@, *config),
{
    let l = strip_line_terminator(line);
    if config.only_delimited && !line_contains_delimiter(l.as_str(), config) {
        return Some(Ok(String::new()));
    }
    let fields = match split_into_fields(l.as_str(), config) {
        None => return None,
        Some(Err(e)) => return Some(Err(e)),
        Some(Ok(f)) => f,
    };
    if fields.len() as u64 > 0x7fff_ffff_ffff_ffffu64 {
        return None;
    }
    if config.json {
        match select_json_fields(&fields, config) {
            Err(e) => Some(Err(e)),
            Ok(sel) => to_json_text(&sel),
        }
    } else {
        match render_selection(&fields, config) {
            Err(e) => Some(Err(e)),
            Ok(x) => {
                let mut out = x;
                push_char(&mut out, '\n');
                Some(Ok(out))
            },
        }
    }
}

/// The JSON array of `values`, as a defined outcome.
fn to_json_text(values: &Vec<String>) -> (r: Option<Result<String, String>>)
    ensures
        outcome_view(r) == Some(Ok::<Seq<char>, Seq<char>>(spec_to_json(views(values@)))),
{
    match to_json(values) {
        Ok(j) => Some(Ok(j)),
        Err(e) => Some(Err(e)),
    }
}

/// The characters of `s`, each as a one-character string.
pub open spec fn char_fields(s: Seq<char>) -> Seq<Seq<char>> {
    s.map_values(|c: char| seq![c])
}

/// One record's output when cutting characters.
pub open spec fn spec_char_record(line: Seq<char>, c: CutConfig) -> Option<Result<Seq<char>, Seq<char>>> {
    let l = spec_strip_line_terminator(line);
    if l.len() > i64::MAX {
        None
    } else if c.json {
        match spec_select_json_fields(char_fields(l), c) {
            Err(e) => Some(Err(e)),
            Ok(sel) => Some(Ok(spec_to_json(sel))),
        }
    } else {
        match spec_render_selection(char_fields(l), c) {
            Err(e) => Some(Err(e)),
            Ok(x) => Some(Ok(x.push('\n'))),
        }
    }
}

/// Each character of `s` as a string of its own.
fn char_strings(s: &[char]) -> (r: Vec<String>)
    ensures
        views(r@) == char_fields(s@),
{
    let mut r: Vec<String> = Vec::new();
    let mut i: usize = 0;
    while i < s.len()
        invariant
            i <= s@.len(),
            views(r@) == char_fields(s@.take(i as int)),
        decreases s.len() - i,
    {
        let mut one = String::new();
        push_char(&mut one, s[i]);
        let ghost before = views(r@);
        r.push(one);
        assert(views(r@) =~= before.push(seq![s@[i as int]]));
        assert(char_fields(s@.take(i + 1)) =~= char_fields(s@.take(i as int)).push(seq![s@[i as int]]));
        i = i + 1;
    }
    assert(s@.take(s@.len() as int) == s@);
    r
}

fn char_record(line: &str, config: &CutConfig) -> (r: Option<Result<String, String>>)
    ensures
        outcome_view(r) == spec_char_record(line@, *config),
{
    let l = strip_line_terminator(line);
    let cs = chars_of(l.as_str());
    if cs.len() as u64 > 0x7fff_ffff_ffff_ffffu64 {
        return None;
    }
    let fields = char_strings(cs.as_slice());
    if config.json {
        match select_json_fields(&fields, config) {
            Err(e) => Some(Err(e)),
            Ok(sel) => to_json_text(&sel),
        }
    } else {
        match render_selection(&fields, config) {
            Err(e) => Some(Err(e)),
            Ok(x) => {
                let mut out = x;
                push_char(&mut out, '\n');
                Some(Ok(out))
            },
        }
    }
}

/// What cutting fields out of `data` gives; `None` where no result is
/// defined (a byte-wise scan that would slice inside a character, or a
/// record with more fields than an `i64` counts).
pub open spec fn spec_process_fields(data: Seq<u8>, c: CutConfig, zero_terminated: bool) -> Option<
    Result<Seq<char>, Seq<char>>,
> {
    fold_records(spec_records(data, zero_terminated), |l: Seq<char>| spec_field_record(l, c))
}

/// What cutting characters out of `data` gives; `None` for a record longer
/// than an `i64` counts.
pub open spec fn spec_process_characters(data: Seq<u8>, c: CutConfig, zero_terminated: bool) -> Option<
    Result<Seq<char>, Seq<char>>,
> {
    fold_records(spec_records(data, zero_terminated), |l: Seq<char>| spec_char_record(l, c))
}

fn records_of(data: &[u8], zero_terminated: bool) -> (r: Vec<Vec<char>>)
    ensures
        r@.map_values(|v: Vec<char>| v@) == spec_records(data@, zero_terminated),
{
    let sep = if zero_terminated {
        '\0'
    } else {
        '\n'
    };
    let text = decode_lossy(data);
    let tv = chars_of(text.as_str());
    split_lines(&tv, sep)
}

fn fields_outcome(data: &[u8], config: &CutConfig, zero_terminated: bool) -> (r: Option<
    Result<String, String>,
>)
    ensures
        outcome_view(r) == spec_process_fields(data@, *config, zero_terminated),
{
    let lines = records_of(data, zero_terminated);
    run_records(&lines, config, 0, Ghost(|l: Seq<char>| spec_field_record(l, *config)))
}

fn characters_outcome(data: &[u8], config: &CutConfig, zero_terminated: bool) -> (r: Option<
    Result<String, String>,
>)
    ensures
        outcome_view(r) == spec_process_characters(data@, *config, zero_terminated),
{
    let lines = records_of(data, zero_terminated);
    run_records(&lines, config, 1, Ghost(|l: Seq<char>| spec_char_record(l, *config)))
}

/// Cuts fields out of each record of `data` and renders the selection, one
/// output line (or JSON array) per record.
pub fn process_fields(data: &[u8], config: &CutConfig, zero_terminated: bool) -> (r: Result<String, String>)
    requires
        spec_process_fields(data@, *config, zero_terminated) is Some,
    ensures
        outcome_view(Some(r)) == spec_process_fields(data@, *config, zero_terminated),
{
    fields_outcome(data, config, zero_terminated).unwrap()
}

/// [`process_fields`] where it is defined; `None` where it is not.
pub fn process_fields_checked(data: &[u8], config: &CutConfig, zero_terminated: bool) -> (r: Option<
    Result<String, String>,
>)
    ensures
        outcome_view(r) == spec_process_fields(data@, *config, zero_terminated),
{
    if fields_outcome(data, config, zero_terminated).is_some() {
        Some(process_fields(data, config, zero_terminated))
    } else {
        None
    }
}

/// Cuts characters out of each record of `data` and renders the selection.
pub fn process_characters(data: &[u8], config: &CutConfig, zero_terminated: bool) -> (r: Result<
    String,
    String,
>)
    requires
        spec_process_characters(data@, *config, zero_terminated) is Some,
    ensures
        outcome_view(Some(r)) == spec_process_characters(data@, *config, zero_terminated),
{
    characters_outcome(data, config, zero_terminated).unwrap()
}

/// [`process_characters`] where it is defined; `None` where it is not.
pub fn process_characters_checked(data: &[u8], config: &CutConfig, zero_terminated: bool) -> (r: Option<
    Result<String, String>,
>)
    ensures
        outcome_view(r) == spec_process_characters(data@, *config, zero_terminated),
{
    if characters_outcome(data, config, zero_terminated).is_some() {
        Some(process_characters(data, config, zero_terminated))
    } else {
        None
    }
}


/// The bytes that bounds `bs` cover, in order, or the first error.
pub open spec fn spec_byte_ranges(data: Seq<u8>, bs: Seq<Bound>) -> Result<Seq<u8>, Seq<char>>
    decreases bs.len(),
{
    if bs.len() == 0 {
        Ok(Seq::empty())
    } else {
        match spec_byte_ranges(data, bs.drop_last()) {
            Err(e) => Err(e),
            Ok(o) => match spec_resolve_range(bs.last(), data.len() as int) {
                Err(e) => Err(e),
                Ok((s, t)) => Ok(o + data.subrange(s - 1, t)),
            },
        }
    }
}

/// The bytes that configured bounds `bs` cover (each expanded to its
/// complement when asked), or the first error.
pub open spec fn spec_bytes_all(data: Seq<u8>, bs: Seq<Bound>, c: CutConfig) -> Result<Seq<u8>, Seq<char>>
    decreases bs.len(),
{
    if bs.len() == 0 {
        Ok(Seq::empty())
    } else {
        match spec_bytes_all(data, bs.drop_last(), c) {
            Err(e) => Err(e),
            Ok(o) => match spec_expand(bs.last(), c, data.len() as int) {
                Err(e) => Err(e),
                Ok(used) => match spec_byte_ranges(data, used) {
                    Err(e) => Err(e),
                    Ok(x) => Ok(o + x),
                },
            },
        }
    }
}

/// The bytes that the configured bounds select.
pub open spec fn spec_select_bytes(data: Seq<u8>, c: CutConfig) -> Result<Seq<u8>, Seq<char>> {
    match c.bounds {
        None => Err("Missing bounds"@),
        Some(bs) => spec_bytes_all(data, bs@, c),
    }
}

proof fn lemma_byte_ranges_err(data: Seq<u8>, bs: Seq<Bound>, n: int)
    requires
        0 <= n <= bs.len(),
        spec_byte_ranges(data, bs.take(n)) is Err,
    ensures
        spec_byte_ranges(data, bs) == spec_byte_ranges(data, bs.take(n)),
    decreases bs.len() - n,
{
    if n < bs.len() {
        assert(bs.take(n + 1).drop_last() == bs.take(n));
        lemma_byte_ranges_err(data, bs, n + 1);
    } else {
        assert(bs.take(n) == bs);
    }
}

proof fn lemma_bytes_all_err(data: Seq<u8>, bs: Seq<Bound>, c: CutConfig, n: int)
    requires
        0 <= n <= bs.len(),
        spec_bytes_all(data, bs.take(n), c) is Err,
    ensures
        spec_bytes_all(data, bs, c) == spec_bytes_all(data, bs.take(n), c),
    decreases bs.len() - n,
{
    if n < bs.len() {
        assert(bs.take(n + 1).drop_last() == bs.take(n));
        lemma_bytes_all_err(data, bs, c, n + 1);
    } else {
        assert(bs.take(n) == bs);
    }
}

/// Appends `data[first..last]` to `out`.
fn push_bytes(data: &[u8], first: usize, last: usize, out: &mut Vec<u8>)
    requires
        first <= last <= data@.len(),
    ensures
        final(out)@ == old(out)@ + data@.subrange(first as int, last as int),
{
    let mut k = first;
    while k < last
        invariant
            first <= k <= last <= data@.len(),
            out@ == old(out)@ + data@.subrange(first as int, k as int),
        decreases last - k,
    {
        out.push(data[k]);
        assert(data@.subrange(first as int, k + 1) =~= data@.subrange(first as int, k as int).push(
            data@[k as int],
        ));
        k = k + 1;
    }
}

/// The bytes that one configured bound covers, appended to `out`.
fn push_bound_bytes(data: &[u8], bound: &Bound, config: &CutConfig, out: &mut Vec<u8>) -> (r: Result<
    (),
    String,
>)
    requires
        data@.len() <= i64::MAX,
    ensures
        match r {
            Ok(_) => match spec_expand(*bound, *config, data@.len() as int) {
                Ok(used) => spec_byte_ranges(data@, used) == Ok::<Seq<u8>, Seq<char>>(
                    final(out)@.skip(old(out)@.len() as int),
                ) && final(out)@.take(old(out)@.len() as int) == old(out)@ && final(out)@.len()
                    >= old(out)@.len(),
                Err(_) => false,
            },
            Err(e) => match spec_expand(*bound, *config, data@.len() as int) {
                Ok(used) => spec_byte_ranges(data@, used) == Err::<Seq<u8>, Seq<char>>(e@),
                Err(e2) => e2 == e@,
            },
        },
{
    let total = data.len() as i64;
    let used = match expand(bound, config, total) {
        Ok(v) => v,
        Err(e) => return Err(e),
    };
    let ghost base = out@;
    let ghost n0 = out@.len() as int;
    let mut j: usize = 0;
    assert(out@.skip(n0) =~= Seq::<u8>::empty());
    while j < used.len()
        invariant
            j <= used@.len(),
            data@.len() <= i64::MAX,
            total == data@.len(),
            spec_expand(*bound, *config, total as int) == Ok::<Seq<Bound>, Seq<char>>(used@),
            n0 == old(out)@.len(),
            base == old(out)@,
            out@.take(n0) == base,
            out@.len() >= n0,
            spec_byte_ranges(data@, used@.take(j as int)) == Ok::<Seq<u8>, Seq<char>>(out@.skip(n0)),
        decreases used.len() - j,
    {
        assert(used@.take(j + 1).drop_last() == used@.take(j as int));
        assert(used@.take(j + 1).last() == used@[j as int]);
        let (s, t) = match resolve_range(&used[j], total) {
            Ok(p) => p,
            Err(e) => {
                proof {
                    lemma_byte_ranges_err(data@, used@, j + 1);
                }
                return Err(e);
            },
        };
        let n: usize = data.len();
        assert(1 <= s <= t <= n);
        let ghost mid = out@;
        let first: usize = (s - 1) as usize;
        let last: usize = t as usize;
        assert(first as int == s - 1);
        assert(last as int == t);
        push_bytes(data, first, last, out);
        assert(out@.skip(n0) =~= mid.skip(n0) + data@.subrange(s - 1, t as int));
        assert(out@.take(n0) =~= base);
        j = j + 1;
    }
    assert(used@.take(used@.len() as int) == used@);
    Ok(())
}

/// The bytes of `data` that the configured bounds select, in order.
fn select_bytes(data: &[u8], config: &CutConfig) -> (r: Result<Vec<u8>, String>)
    requires
        data@.len() <= i64::MAX,
    ensures
        match r {
            Ok(v) => spec_select_bytes(data@, *config) == Ok::<Seq<u8>, Seq<char>>(v@),
            Err(e) => spec_select_bytes(data@, *config) == Err::<Seq<u8>, Seq<char>>(e@),
        },
{
    let bounds = match &config.bounds {
        Some(b) => b,
        None => return Err(to_string("Missing bounds")),
    };
    let mut out: Vec<u8> = Vec::new();
    let mut i: usize = 0;
    while i < bounds.len()
        invariant
            i <= bounds@.len(),
            data@.len() <= i64::MAX,
            config.bounds == Some(*bounds),
            spec_bytes_all(data@, bounds@.take(i as int), *config) == Ok::<Seq<u8>, Seq<char>>(out@),
        decreases bounds.len() - i,
    {
        assert(bounds@.take(i + 1).drop_last() == bounds@.take(i as int));
        assert(bounds@.take(i + 1).last() == bounds@[i as int]);
        let ghost before = out@;
        match push_bound_bytes(data, &bounds[i], config, &mut out) {
            Ok(_) => {
                assert(out@ =~= before + out@.skip(before.len() as int));
            },
            Err(e) => {
                proof {
                    lemma_bytes_all_err(data@, bounds@, *config, i + 1);
                }
                return Err(e);
            },
        }
        i = i + 1;
    }
    assert(bounds@.take(bounds@.len() as int) == bounds@);
    Ok(out)
}

/// The bytes of `data`, each as the one-character string of the character
/// with that code.
pub open spec fn byte_fields(data: Seq<u8>) -> Seq<Seq<char>> {
    data.map_values(|b: u8| seq![b as char])
}

/// The character whose code is `b`.
fn byte_char(b: u8) -> (c: char)
    ensures
        c == b as char,
{
    b as char
}

/// Each byte of `data` as a one-character string.
fn byte_strings(data: &[u8]) -> (r: Vec<String>)
    ensures
        views(r@) == byte_fields(data@),
{
    let mut r: Vec<String> = Vec::new();
    let mut i: usize = 0;
    while i < data.len()
        invariant
            i <= data@.len(),
            views(r@) == byte_fields(data@.take(i as int)),
        decreases data.len() - i,
    {
        let mut one = String::new();
        push_char(&mut one, byte_char(data[i]));
        let ghost before = views(r@);
        r.push(one);
        assert(views(r@) =~= before.push(seq![data@[i as int] as char]));
        assert(byte_fields(data@.take(i + 1)) =~= byte_fields(data@.take(i as int)).push(
            seq![data@[i as int] as char],
        ));
        i = i + 1;
    }
    assert(data@.take(data@.len() as int) == data@);
    r
}

/// What cutting bytes out of `data` gives: the selected bytes read as text,
/// or the JSON array of the selected bytes.
pub open spec fn spec_process_bytes(data: Seq<u8>, c: CutConfig) -> Result<Seq<char>, Seq<char>> {
    if c.json {
        match spec_select_json_fields(byte_fields(data), c) {
            Err(e) => Err(e),
            Ok(sel) => Ok(spec_to_json(sel)),
        }
    } else {
        match spec_select_bytes(data, c) {
            Err(e) => Err(e),
            Ok(b) => Ok(utf8_lossy(b)),
        }
    }
}

/// Cuts bytes out of `data`.
pub fn process_bytes(data: &[u8], config: &CutConfig) -> (r: Result<String, String>)
    requires
        data@.len() <= i64::MAX,
    ensures
        match r {
            Ok(v) => spec_process_bytes(data@, *config) == Ok::<Seq<char>, Seq<char>>(v@),
            Err(e) => spec_process_bytes(data@, *config) == Err::<Seq<char>, Seq<char>>(e@),
        },
{
    if config.json {
        let fields = byte_strings(data);
        let selected = match select_json_fields(&fields, config) {
            Ok(v) => v,
            Err(e) => return Err(e),
        };
        return to_json(&selected);
    }
    match select_bytes(data, config) {
        Ok(b) => Ok(decode_lossy(b.as_slice())),
        Err(e) => Err(e),
    }
}

/// The first error among the line bounds `bs`, if any.
pub open spec fn spec_validate_all(bs: Seq<Bound>) -> Result<(), Seq<char>>
    decreases bs.len(),
{
    if bs.len() == 0 {
        Ok(())
    } else {
        match spec_validate_all(bs.drop_last()) {
            Err(e) => Err(e),
            Ok(_) => spec_validate_line_bound(bs.last()),
        }
    }
}

proof fn lemma_validate_all_err(bs: Seq<Bound>, n: int)
    requires
        0 <= n <= bs.len(),
        spec_validate_all(bs.take(n)) is Err,
    ensures
        spec_validate_all(bs) == spec_validate_all(bs.take(n)),
    decreases bs.len() - n,
{
    if n < bs.len() {
        assert(bs.take(n + 1).drop_last() == bs.take(n));
        lemma_validate_all_err(bs, n + 1);
    } else {
        assert(bs.take(n) == bs);
    }
}

fn validate_all(bounds: &Vec<Bound>) -> (r: Result<(), String>)
    ensures
        match r {
            Ok(_) => spec_validate_all(bounds@) == Ok::<(), Seq<char>>(()),
            Err(e) => spec_validate_all(bounds@) == Err::<(), Seq<char>>(e@),
        },
{
    let mut i: usize = 0;
    while i < bounds.len()
        invariant
            i <= bounds@.len(),
            spec_validate_all(bounds@.take(i as int)) == Ok::<(), Seq<char>>(()),
        decreases bounds.len() - i,
    {
        assert(bounds@.take(i + 1).drop_last() == bounds@.take(i as int));
        assert(bounds@.take(i + 1).last() == bounds@[i as int]);
        match validate_line_bound(&bounds[i]) {
            Ok(_) => {},
            Err(e) => {
                proof {
                    lemma_validate_all_err(bounds@, i + 1);
                }
                return Err(e);
            },
        }
        i = i + 1;
    }
    assert(bounds@.take(bounds@.len() as int) == bounds@);
    Ok(())
}

/// The records of `data` as lines, each without its terminator.
pub open spec fn spec_raw_lines(data: Seq<u8>, zero_terminated: bool) -> Seq<Seq<char>> {
    spec_records(data, zero_terminated).map_values(|l: Seq<char>| spec_strip_line_terminator(l))
}

/// What selecting lines out of `data` gives; `None` when there are more
/// lines than an `i64` counts.
pub open spec fn spec_process_lines(data: Seq<u8>, c: CutConfig, zero_terminated: bool) -> Option<
    Result<Seq<char>, Seq<char>>,
> {
    let pre = match c.bounds {
        None => Ok(()),
        Some(bs) => spec_validate_all(bs@),
    };
    let raw = spec_raw_lines(data, zero_terminated);
    match pre {
        Err(e) => Some(Err(e)),
        Ok(_) => if raw.len() == 0 {
            Some(Ok(Seq::empty()))
        } else if raw.len() > i64::MAX {
            None
        } else if c.json {
            match spec_select_json_fields(raw, c) {
                Err(e) => Some(Err(e)),
                Ok(sel) => Some(Ok(spec_to_json(sel))),
            }
        } else {
            match spec_render_selection(raw, c) {
                Err(e) => Some(Err(e)),
                Ok(x) => Some(Ok(x.push('\n'))),
            }
        },
    }
}

fn lines_outcome(data: &[u8], config: &CutConfig, zero_terminated: bool) -> (r: Option<
    Result<String, String>,
>)
    ensures
        outcome_view(r) == spec_process_lines(data@, *config, zero_terminated),
{
    if let Some(bounds) = &config.bounds {
        match validate_all(bounds) {
            Ok(_) => {},
            Err(e) => return Some(Err(e)),
        }
    }
    let records = records_of(data, zero_terminated);
    let ghost rv = records@.map_values(|v: Vec<char>| v@);
    let mut raw: Vec<String> = Vec::new();
    let mut i: usize = 0;
    while i < records.len()
        invariant
            i <= records@.len(),
            rv == records@.map_values(|v: Vec<char>| v@),
            views(raw@) == rv.take(i as int).map_values(|l: Seq<char>| spec_strip_line_terminator(l)),
        decreases records.len() - i,
    {
        let line = string_of(records[i].as_slice());
        let ghost before = views(raw@);
        raw.push(strip_line_terminator(line.as_str()));
        assert(views(raw@) =~= before.push(spec_strip_line_terminator(rv[i as int])));
        assert(rv.take(i + 1).map_values(|l: Seq<char>| spec_strip_line_terminator(l)) =~= rv.take(
            i as int,
        ).map_values(|l: Seq<char>| spec_strip_line_terminator(l)).push(
            spec_strip_line_terminator(rv[i as int]),
        ));
        i = i + 1;
    }
    assert(rv.take(records@.len() as int) == rv);
    if raw.len() == 0 {
        return Some(Ok(String::new()));
    }
    if raw.len() as u64 > 0x7fff_ffff_ffff_ffffu64 {
        return None;
    }
    if config.json {
        match lines_for_json(&raw, config) {
            Err(e) => Some(Err(e)),
            Ok(sel) => to_json_text(&sel),
        }
    } else {
        match render_selection(&raw, config) {
            Err(e) => Some(Err(e)),
            Ok(x) => {
                let mut out = x;
                push_char(&mut out, '\n');
                Some(Ok(out))
            },
        }
    }
}

/// Selects whole lines of `data`.
pub fn process_lines(data: &[u8], config: &CutConfig, zero_terminated: bool) -> (r: Result<String, String>)
    requires
        spec_process_lines(data@, *config, zero_terminated) is Some,
    ensures
        outcome_view(Some(r)) == spec_process_lines(data@, *config, zero_terminated),
{
    lines_outcome(data, config, zero_terminated).unwrap()
}

/// [`process_lines`] where it is defined; `None` where it is not.
pub fn process_lines_checked(data: &[u8], config: &CutConfig, zero_terminated: bool) -> (r: Option<
    Result<String, String>,
>)
    ensures
        outcome_view(r) == spec_process_lines(data@, *config, zero_terminated),
{
    if lines_outcome(data, config, zero_terminated).is_some() {
        Some(process_lines(data, config, zero_terminated))
    } else {
        None
    }
}


proof fn lemma_join_prepend(a: Seq<char>, xs: Seq<Seq<char>>, sep: Seq<char>)
    requires
        xs.len() >= 1,
    ensures
        join(seq![a] + xs, sep) == a + sep + join(xs, sep),
    decreases xs.len(),
{
    if xs.len() == 1 {
        assert((seq![a] + xs).drop_last() =~= seq![a]);
        assert(join(seq![a], sep) == a);
        assert(join(xs, sep) == xs[0]);
        assert(join(seq![a] + xs, sep) == join(seq![a], sep) + sep + xs.last());
    } else {
        lemma_join_prepend(a, xs.drop_last(), sep);
        assert((seq![a] + xs).drop_last() =~= seq![a] + xs.drop_last());
        assert((seq![a] + xs).last() == xs.last());
        assert(join(seq![a] + xs, sep) == join(seq![a] + xs.drop_last(), sep) + sep + xs.last());
        assert(join(xs, sep) == join(xs.drop_last(), sep) + sep + xs.last());
        assert(a + sep + join(xs.drop_last(), sep) + sep + xs.last() =~= a + sep + (join(
            xs.drop_last(),
            sep,
        ) + sep + xs.last()));
    }
}

proof fn lemma_split_str_nonempty(s: Seq<char>, d: Seq<char>)
    ensures
        split_str(s, d).len() >= 1,
    decreases s.len(),
{
    let i = first_match(s, d);
    if d.len() == 0 || i >= s.len() {
    } else {
        lemma_first_match(s, d);
        lemma_split_str_nonempty(s.skip(i + d.len()), d);
    }
}

/// Joining the fields of a line with the delimiter they were split at gives
/// the line back.
pub proof fn split_then_join(line: Seq<char>, delimiter: Seq<char>)
    ensures
        join(spec_split_normal(line, delimiter), delimiter) == line,
    decreases line.len(),
{
    if delimiter.len() > 0 {
        let i = first_match(line, delimiter);
        lemma_first_match(line, delimiter);
        if i < line.len() {
            let rest = line.skip(i + delimiter.len());
            split_then_join(rest, delimiter);
            lemma_split_str_nonempty(rest, delimiter);
            lemma_join_prepend(line.take(i), split_str(rest, delimiter), delimiter);
            assert(line.subrange(i, i + delimiter.len()) == delimiter);
            assert(line =~= line.take(i) + delimiter + rest);
        }
    }
}

} // verus!
