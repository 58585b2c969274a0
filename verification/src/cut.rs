//! Line, byte, character and field selection over whole inputs.
use vstd::prelude::*;
use vstd::utf8::encode_utf8;
use crate::bounds::{normalize_range, opt_view, resolve_index, spec_resolve_index, BoundItem, Bounds};
use crate::cutter::{
    decode_lossy, regex_finds, regex_is_match, spec_json_string, spec_to_json, to_json, utf8_lossy,
    CompiledRegex,
};
use crate::split::{bytes_at, spec_split, split};
use crate::text::{concat, join, join_strings, concat_strings};
use crate::format::{fill_template, format_template, lemma_template_deterministic, answer_view};
use crate::num::{i64_to_string, signed_decimal};
use crate::text::{push_char, push_str, to_string, views};

verus! {

/// What a selection picks from each record.
#[derive(Debug, Clone, Copy, PartialEq, Eq, Structural)]
pub enum CutMode {
    Fields,
    Bytes,
    Characters,
    Lines,
}

/// Which ends of a record lose their delimiters before splitting.
#[derive(Debug, Clone, Copy, PartialEq, Eq, Structural)]
pub enum TrimMode {
    Left,
    Right,
    Both,
}

/// How an input is cut.
pub struct Options {
    pub delimiter: String,
    pub regex: Option<CompiledRegex>,
    pub greedy: bool,
    pub compress: bool,
    pub trim: Option<TrimMode>,
    pub complement: bool,
    pub join: bool,
    pub replace_delimiter: Option<String>,
    pub only_delimited: bool,
    pub zero_terminated: bool,
    pub json: bool,
    pub fallback_oob: Option<String>,
    pub bounds: Bounds,
    pub bounds_raw: String,
    pub mode: CutMode,
    pub lines_no_join: bool,
}

/// The pieces of `s` between occurrences of byte `sep`.
pub open spec fn split_bytes(s: Seq<u8>, sep: u8) -> Seq<Seq<u8>>
    decreases s.len(),
{
    if s.len() == 0 {
        seq![Seq::<u8>::empty()]
    } else {
        let rest = split_bytes(s.drop_last(), sep);
        if s.last() == sep {
            rest.push(Seq::<u8>::empty())
        } else {
            rest.update(rest.len() - 1, rest.last().push(s.last()))
        }
    }
}

proof fn lemma_split_bytes_nonempty(s: Seq<u8>, sep: u8)
    ensures
        split_bytes(s, sep).len() >= 1,
    decreases s.len(),
{
    if s.len() > 0 {
        lemma_split_bytes_nonempty(s.drop_last(), sep);
    }
}

proof fn lemma_split_bytes_len(s: Seq<u8>, sep: u8)
    ensures
        split_bytes(s, sep).len() <= s.len() + 1,
    decreases s.len(),
{
    if s.len() > 0 {
        lemma_split_bytes_len(s.drop_last(), sep);
        lemma_split_bytes_nonempty(s.drop_last(), sep);
        let rest = split_bytes(s.drop_last(), sep);
        if s.last() != sep {
            assert(rest.update(rest.len() - 1, rest.last().push(s.last())).len() == rest.len());
        }
    }
}

proof fn lemma_line_split_len(data: Seq<u8>, zero: bool)
    ensures
        spec_line_split(data, zero).len() <= data.len() + 1,
{
    lemma_split_bytes_len(data, if zero { 0u8 } else { 10u8 });
}

/// The views of byte vectors.
pub open spec fn byte_views(v: Seq<Vec<u8>>) -> Seq<Seq<u8>> {
    v.map_values(|b: Vec<u8>| b@)
}

/// Splits `s` at every byte `sep`.
fn split_on_byte(s: &[u8], sep: u8) -> (r: Vec<Vec<u8>>)
    ensures
        byte_views(r@) == split_bytes(s@, sep),
{
    let mut r: Vec<Vec<u8>> = Vec::new();
    let mut cur: Vec<u8> = Vec::new();
    let mut i: usize = 0;
    while i < s.len()
        invariant
            i <= s@.len(),
            byte_views(r@).push(cur@) == split_bytes(s@.take(i as int), sep),
        decreases s.len() - i,
    {
        assert(s@.take(i + 1).drop_last() == s@.take(i as int));
        proof {
            lemma_split_bytes_nonempty(s@.take(i as int), sep);
        }
        let ghost before = byte_views(r@);
        if s[i] == sep {
            let done = cur;
            r.push(done);
            cur = Vec::new();
            assert(byte_views(r@) =~= before.push(done@));
        } else {
            let ghost prev = cur@;
            cur.push(s[i]);
            assert(before.push(prev).update(before.len() as int, prev.push(s@[i as int])) =~= before.push(
                cur@,
            ));
        }
        i = i + 1;
    }
    assert(s@.take(s@.len() as int) == s@);
    let ghost before = byte_views(r@);
    r.push(cur);
    assert(byte_views(r@) =~= before.push(cur@));
    r
}

/// The records of `data`: the pieces between separators (NUL or newline),
/// without the empty piece after a final newline; none for empty input.
pub open spec fn spec_line_split(data: Seq<u8>, zero: bool) -> Seq<Seq<u8>> {
    let sep: u8 = if zero {
        0u8
    } else {
        10u8
    };
    let ls = split_bytes(data, sep);
    if data.len() == 0 {
        Seq::empty()
    } else if !zero && data.last() == 10u8 && ls.last().len() == 0 {
        ls.drop_last()
    } else {
        ls
    }
}

/// Cuts `data` into records.
fn line_split(data: &[u8], zero: bool) -> (r: Vec<Vec<u8>>)
    ensures
        byte_views(r@) == spec_line_split(data@, zero),
{
    if data.len() == 0 {
        let r: Vec<Vec<u8>> = Vec::new();
        assert(byte_views(r@) =~= Seq::<Seq<u8>>::empty());
        return r;
    }
    let sep: u8 = if zero {
        0
    } else {
        10
    };
    let mut lines = split_on_byte(data, sep);
    proof {
        lemma_split_bytes_nonempty(data@, sep);
    }
    if !zero && data[data.len() - 1] == 10 && lines[lines.len() - 1].len() == 0 {
        let ghost before = byte_views(lines@);
        lines.pop();
        assert(byte_views(lines@) =~= before.drop_last());
    }
    lines
}

/// The message for an index outside the record.
pub open spec fn oob_text(n: int) -> Seq<char> {
    "Out of bounds: "@ + signed_decimal(n)
}

/// The message for index `n` outside the record.
fn oob(n: i64) -> (m: String)
    ensures
        m@ == oob_text(n as int),
{
    let mut m = to_string("Out of bounds: ");
    let d = i64_to_string(n);
    push_str(&mut m, d.as_str());
    m
}

/// The 0-based positions that one selection item covers among `len` lines.
pub open spec fn item_indices(item: BoundItem, len: int) -> Result<Seq<int>, Seq<char>> {
    match item {
        BoundItem::Single(idx, _) => match spec_resolve_index(idx as int, len) {
            Some(r) => Ok(seq![r - 1]),
            None => Err(oob_text(idx as int)),
        },
        BoundItem::Range(start, end, _) => {
            let s: int = if start == 0 {
                1
            } else {
                start as int
            };
            let e: int = if end == 0 {
                len
            } else {
                end as int
            };
            if s > 0 && spec_resolve_index(s, len) is None {
                Err(oob_text(s))
            } else {
                let rs: int = if s > 0 {
                    spec_resolve_index(s, len)->0
                } else {
                    1
                };
                match spec_resolve_index(e, len) {
                    None => Err(oob_text(e)),
                    Some(re) => if rs > re {
                        Err(oob_text(start as int))
                    } else {
                        Ok(Seq::new((re - rs + 1) as nat, |k: int| rs - 1 + k))
                    },
                }
            }
        },
    }
}

/// The positions that the items cover, in order, or the first error.
pub open spec fn indices_of(items: Seq<BoundItem>, len: int) -> Result<Seq<int>, Seq<char>>
    decreases items.len(),
{
    if items.len() == 0 {
        Ok(Seq::empty())
    } else {
        match indices_of(items.drop_last(), len) {
            Err(e) => Err(e),
            Ok(xs) => match item_indices(items.last(), len) {
                Err(e) => Err(e),
                Ok(ys) => Ok(xs + ys),
            },
        }
    }
}

/// Whether a single item selects every line: `-1`, or a range from the first
/// (or open start) to the last (or open end).
pub open spec fn selects_all(items: Seq<BoundItem>) -> bool {
    items.len() == 1 && match items[0] {
        BoundItem::Single(idx, _) => idx == -1,
        BoundItem::Range(a, b, _) => (a == 0 || a == 1) && (b == 0 || b == -1),
    }
}

/// The 0-based line positions that a selection covers among `len` lines.
pub open spec fn spec_select_line_indices(items: Seq<BoundItem>, len: int) -> Result<Seq<int>, Seq<char>> {
    if len == 0 {
        Ok(Seq::empty())
    } else if selects_all(items) {
        Ok(Seq::new(len as nat, |k: int| k))
    } else {
        indices_of(items, len)
    }
}

/// The views of positions.
pub open spec fn index_views(v: Seq<usize>) -> Seq<int> {
    v.map_values(|u: usize| u as int)
}

proof fn lemma_indices_err(items: Seq<BoundItem>, len: int, n: int)
    requires
        0 <= n <= items.len(),
        indices_of(items.take(n), len) is Err,
    ensures
        indices_of(items, len) == indices_of(items.take(n), len),
    decreases items.len() - n,
{
    if n < items.len() {
        assert(items.take(n + 1).drop_last() == items.take(n));
        lemma_indices_err(items, len, n + 1);
    } else {
        assert(items.take(n) == items);
    }
}

/// Appends `first..=last` (0-based: `first - 1 ..= last - 1`) to `out`.
fn push_positions(out: &mut Vec<usize>, first: i64, last: i64)
    requires
        1 <= first <= last,
        last <= usize::MAX,
    ensures
        index_views(final(out)@) == index_views(old(out)@) + Seq::new(
            (last - first + 1) as nat,
            |k: int| first - 1 + k,
        ),
{
    let mut i: i64 = first;
    while i <= last
        invariant
            1 <= first <= i <= last,
            last <= usize::MAX,
            index_views(out@) == index_views(old(out)@) + Seq::new(
                (i - first) as nat,
                |k: int| first - 1 + k,
            ),
        decreases last - i + 1,
    {
        let ghost before = index_views(out@);
        out.push((i - 1) as usize);
        assert(index_views(out@) =~= before.push(i - 1));
        assert(index_views(old(out)@) + Seq::new((i + 1 - first) as nat, |k: int| first - 1 + k)
            =~= (index_views(old(out)@) + Seq::new((i - first) as nat, |k: int| first - 1 + k)).push(
            i - 1,
        ));
        if i == last {
            return;
        }
        i = i + 1;
    }
}

/// The 0-based line positions that `bounds` selects among `len` lines.
fn select_line_indices(bounds: &Bounds, len: i64) -> (r: Result<Vec<usize>, String>)
    requires
        0 <= len,
        len <= usize::MAX,
    ensures
        match r {
            Ok(v) => spec_select_line_indices(bounds.items@, len as int) == Ok::<Seq<int>, Seq<char>>(
                index_views(v@),
            ),
            Err(e) => spec_select_line_indices(bounds.items@, len as int) == Err::<Seq<int>, Seq<char>>(
                e@,
            ),
        },
{
    let mut out: Vec<usize> = Vec::new();
    if len == 0 {
        assert(index_views(out@) =~= Seq::<int>::empty());
        return Ok(out);
    }
    let all = bounds.items.len() == 1 && match &bounds.items[0] {
        BoundItem::Single(idx, _) => *idx == -1,
        BoundItem::Range(a, b, _) => (*a == 0 || *a == 1) && (*b == 0 || *b == -1),
    };
    if all {
        push_positions(&mut out, 1, len);
        assert(index_views(out@) =~= Seq::new(len as nat, |k: int| k));
        return Ok(out);
    }
    let items = &bounds.items;
    let mut n: usize = 0;
    assert(index_views(out@) =~= Seq::<int>::empty());
    while n < items.len()
        invariant
            n <= items@.len(),
            1 <= len <= usize::MAX,
            *items == bounds.items,
            !selects_all(items@),
            indices_of(items@.take(n as int), len as int) == Ok::<Seq<int>, Seq<char>>(index_views(out@)),
        decreases items.len() - n,
    {
        assert(items@.take(n + 1).drop_last() == items@.take(n as int));
        assert(items@.take(n + 1).last() == items@[n as int]);
        let ghost before = index_views(out@);
        match &items[n] {
            BoundItem::Single(idx, _) => match resolve_index(*idx, len) {
                Some(r) => {
                    out.push((r - 1) as usize);
                    assert(index_views(out@) =~= before + seq![r - 1]);
                },
                None => {
                    proof {
                        lemma_indices_err(items@, len as int, n + 1);
                    }
                    return Err(oob(*idx));
                },
            },
            BoundItem::Range(start, end, _) => {
                let (s, e) = normalize_range(*start, *end, len);
                let rs: i64 = if s > 0 {
                    match resolve_index(s, len) {
                        Some(v) => v,
                        None => {
                            proof {
                                lemma_indices_err(items@, len as int, n + 1);
                            }
                            return Err(oob(s));
                        },
                    }
                } else {
                    1
                };
                let re = match resolve_index(e, len) {
                    Some(v) => v,
                    None => {
                        proof {
                            lemma_indices_err(items@, len as int, n + 1);
                        }
                        return Err(oob(e));
                    },
                };
                if rs > re {
                    proof {
                        lemma_indices_err(items@, len as int, n + 1);
                    }
                    return Err(oob(*start));
                }
                push_positions(&mut out, rs, re);
            },
        }
        n = n + 1;
    }
    assert(items@.take(items@.len() as int) == items@);
    Ok(out)
}

/// The positions below `n` that `removed` does not hold, in order.
pub open spec fn kept_upto(n: int, removed: Seq<int>) -> Seq<int>
    decreases n,
{
    if n <= 0 {
        Seq::empty()
    } else {
        kept_upto(n - 1, removed) + if removed.contains(n - 1) {
            Seq::<int>::empty()
        } else {
            seq![n - 1]
        }
    }
}

/// Whether `v` holds `x`.
fn holds_index(v: &Vec<usize>, x: usize) -> (r: bool)
    ensures
        r == index_views(v@).contains(x as int),
{
    let mut i: usize = 0;
    while i < v.len()
        invariant
            i <= v@.len(),
            forall|j: int| 0 <= j < i ==> v@[j] != x,
        decreases v.len() - i,
    {
        if v[i] == x {
            assert(index_views(v@)[i as int] == x as int);
            return true;
        }
        i = i + 1;
    }
    assert forall|j: int| 0 <= j < index_views(v@).len() implies index_views(v@)[j] != x as int by {
        assert(v@[j] != x);
    }
    false
}

/// The positions below `n` that `removed` does not hold.
fn kept_positions(n: usize, removed: &Vec<usize>) -> (r: Vec<usize>)
    ensures
        index_views(r@) == kept_upto(n as int, index_views(removed@)),
{
    let mut out: Vec<usize> = Vec::new();
    let mut k: usize = 0;
    assert(index_views(out@) =~= Seq::<int>::empty());
    while k < n
        invariant
            k <= n,
            index_views(out@) == kept_upto(k as int, index_views(removed@)),
        decreases n - k,
    {
        let ghost before = index_views(out@);
        if !holds_index(removed, k) {
            out.push(k);
            assert(index_views(out@) =~= before.push(k as int));
        } else {
            assert(index_views(out@) =~= before + Seq::<int>::empty());
        }
        k = k + 1;
    }
    out
}

/// The bytes written for the selected lines from the `k`-th selected on:
/// each line, then the replacement delimiter unless it is the last, then a
/// newline.
pub open spec fn selection_from(lines: Seq<Seq<u8>>, idx: Seq<int>, k: int, sep: Option<Seq<char>>) -> Seq<u8>
    decreases idx.len() - k,
{
    if k < 0 || k >= idx.len() {
        Seq::empty()
    } else {
        lines[idx[k]] + (if k + 1 < idx.len() && sep is Some {
            encode_utf8(sep->0)
        } else {
            Seq::empty()
        }) + seq![10u8] + selection_from(lines, idx, k + 1, sep)
    }
}

/// The concatenation of byte strings.
pub open spec fn concat_bytes(parts: Seq<Seq<u8>>) -> Seq<u8>
    decreases parts.len(),
{
    if parts.len() == 0 {
        Seq::empty()
    } else {
        concat_bytes(parts.drop_last()) + parts.last()
    }
}

/// The bytes written for lines `idx` of `lines`: nothing for no lines; all
/// of them and one newline when lines are not joined; else each with its
/// own newline.
pub open spec fn spec_line_selection(lines: Seq<Seq<u8>>, idx: Seq<int>, o: Options) -> Seq<u8> {
    if idx.len() == 0 {
        Seq::empty()
    } else if o.lines_no_join {
        concat_bytes(idx.map_values(|i: int| lines[i])) + seq![10u8]
    } else {
        selection_from(lines, idx, 0, opt_view(o.replace_delimiter))
    }
}

/// Appends the UTF-8 bytes of `s` to `out`.
fn push_text(out: &mut Vec<u8>, s: &str)
    ensures
        final(out)@ == old(out)@ + encode_utf8(s@),
{
    let b = s.as_bytes();
    push_slice(out, b);
}

/// Appends `b` to `out`.
fn push_slice(out: &mut Vec<u8>, b: &[u8])
    ensures
        final(out)@ == old(out)@ + b@,
{
    let mut i: usize = 0;
    while i < b.len()
        invariant
            i <= b@.len(),
            out@ == old(out)@ + b@.take(i as int),
        decreases b.len() - i,
    {
        out.push(b[i]);
        assert(b@.take(i + 1) == b@.take(i as int).push(b@[i as int]));
        i = i + 1;
    }
    assert(b@.take(b@.len() as int) == b@);
}

/// The bytes written for the selected lines.
fn line_selection(lines: &Vec<Vec<u8>>, idx: &Vec<usize>, opts: &Options) -> (r: Vec<u8>)
    requires
        forall|k: int| 0 <= k < idx@.len() ==> (#[trigger] idx@[k]) < lines@.len(),
    ensures
        r@ == spec_line_selection(byte_views(lines@), index_views(idx@), *opts),
{
    let ghost lv = byte_views(lines@);
    let ghost iv = index_views(idx@);
    let mut out: Vec<u8> = Vec::new();
    if idx.len() == 0 {
        return out;
    }
    if opts.lines_no_join {
        let mut k: usize = 0;
        while k < idx.len()
            invariant
                k <= idx@.len(),
                lv == byte_views(lines@),
                iv == index_views(idx@),
                forall|j: int| 0 <= j < idx@.len() ==> (#[trigger] idx@[j]) < lines@.len(),
                out@ == concat_bytes(iv.take(k as int).map_values(|i: int| lv[i])),
            decreases idx.len() - k,
        {
            push_slice(&mut out, lines[idx[k]].as_slice());
            assert(iv.take(k + 1).map_values(|i: int| lv[i]).drop_last() =~= iv.take(
                k as int,
            ).map_values(|i: int| lv[i]));
            assert(iv.take(k + 1).map_values(|i: int| lv[i]).last() == lv[iv[k as int]]);
            k = k + 1;
        }
        assert(iv.take(idx@.len() as int) =~= iv);
        out.push(10);
        return out;
    }
    let ghost sep = opt_view(opts.replace_delimiter);
    let mut k: usize = 0;
    while k < idx.len()
        invariant
            k <= idx@.len(),
            lv == byte_views(lines@),
            iv == index_views(idx@),
            sep == opt_view(opts.replace_delimiter),
            forall|j: int| 0 <= j < idx@.len() ==> (#[trigger] idx@[j]) < lines@.len(),
            selection_from(lv, iv, 0, sep) == out@ + selection_from(lv, iv, k as int, sep),
        decreases idx.len() - k,
    {
        let ghost before = out@;
        push_slice(&mut out, lines[idx[k]].as_slice());
        if k + 1 < idx.len() {
            if let Some(s) = &opts.replace_delimiter {
                push_text(&mut out, s.as_str());
            }
        }
        out.push(10);
        assert(out@ =~= before + lv[iv[k as int]] + (if k + 1 < iv.len() && sep is Some {
            encode_utf8(sep->0)
        } else {
            Seq::empty()
        }) + seq![10u8]);
        k = k + 1;
    }
    assert(selection_from(lv, iv, k as int, sep) =~= Seq::<u8>::empty());
    out
}


/// The text of lines `i..=re` (1-based; outside lines give the fallback),
/// appended to `out`, lines separated by newlines where text came before.
pub open spec fn line_slice_from(
    lines: Seq<Seq<u8>>,
    i: int,
    re: int,
    fb: Option<Seq<char>>,
    out: Seq<char>,
) -> Result<Seq<char>, Seq<char>>
    decreases re - i + 1,
{
    if i > re {
        Ok(out)
    } else {
        match spec_resolve_index(i, lines.len() as int) {
            Some(r) => line_slice_from(
                lines,
                i + 1,
                re,
                fb,
                (if out.len() > 0 {
                    out.push('\n')
                } else {
                    out
                }) + utf8_lossy(lines[r - 1]),
            ),
            None => match fb {
                Some(f) => line_slice_from(lines, i + 1, re, fb, out + f),
                None => Err(oob_text(i)),
            },
        }
    }
}

/// What a template placeholder gives in line mode: the lines of a range
/// `start..=end` (open ends filled in), or the line at `idx`; outside lines
/// give the configured fallback.
pub open spec fn spec_line_slice(
    lines: Seq<Seq<u8>>,
    idx: i64,
    start: Option<i64>,
    end: Option<i64>,
    fb: Option<Seq<char>>,
) -> Result<Seq<char>, Seq<char>> {
    let len = lines.len() as int;
    match (start, end) {
        (Some(s), Some(e)) => {
            let rs: int = if s == 0 {
                1
            } else {
                s as int
            };
            let re: int = if e == 0 {
                len
            } else {
                e as int
            };
            line_slice_from(lines, rs, re, fb, Seq::empty())
        },
        _ => match spec_resolve_index(idx as int, len) {
            Some(r) => Ok(utf8_lossy(lines[r - 1])),
            None => match fb {
                Some(f) => Ok(f),
                None => Err(oob_text(idx as int)),
            },
        },
    }
}

/// Resolves a placeholder against the lines.
fn resolve_line_slice(
    lines: &Vec<Vec<u8>>,
    idx: i64,
    start: Option<i64>,
    end: Option<i64>,
    len: i64,
    opts: &Options,
) -> (r: Result<String, String>)
    requires
        len == lines@.len(),
    ensures
        answer_view(r) == spec_line_slice(byte_views(lines@), idx, start, end, opt_view(opts.fallback_oob)),
{
    let ghost lv = byte_views(lines@);
    let ghost fb = opt_view(opts.fallback_oob);
    let n: usize = lines.len();
    assert(lv.len() == lines@.len());
    if start.is_some() && end.is_some() {
        let s = start.unwrap();
        let e = end.unwrap();
        let (rs, re) = normalize_range(s, e, len);
        let mut out = String::new();
        let mut i: i128 = rs as i128;
        while i <= re as i128
            invariant
                rs <= i,
                i <= re as i128 + 1 || i == rs as i128,
                len == lines@.len(),
                n == lines@.len(),
                lv == byte_views(lines@),
                lv.len() == lines@.len(),
                spec_line_slice(lv, idx, start, end, fb) == line_slice_from(
                    lv,
                    rs as int,
                    re as int,
                    fb,
                    Seq::empty(),
                ),
                fb == opt_view(opts.fallback_oob),
                i64::MIN <= i <= i64::MAX as i128 + 1,
                line_slice_from(lv, rs as int, re as int, fb, Seq::empty()) == line_slice_from(
                    lv,
                    i as int,
                    re as int,
                    fb,
                    out@,
                ),
            decreases re as i128 + 1 - i,
        {
            let ii = i as i64;
            match resolve_index(ii, len) {
                Some(p) => {
                    assert(lv[p - 1] == lines@[p - 1]@);
                    if !out.as_str().is_empty() {
                        push_char(&mut out, '\n');
                    }
                    let text = decode_lossy(lines[(p - 1) as usize].as_slice());
                    push_str(&mut out, text.as_str());
                },
                None => match &opts.fallback_oob {
                    Some(f) => push_str(&mut out, f.as_str()),
                    None => {
                        assert(ii as int == i);
                        assert(line_slice_from(lv, i as int, re as int, fb, out@) == Err::<
                            Seq<char>,
                            Seq<char>,
                        >(oob_text(i as int)));
                        return Err(oob(ii));
                    },
                },
            }
            i = i + 1;
        }
        return Ok(out);
    }
    match resolve_index(idx, len) {
        Some(p) => {
            assert(lv[p - 1] == lines@[p - 1]@);
            let t = decode_lossy(lines[(p - 1) as usize].as_slice());
            assert(t@ == utf8_lossy(lv[p - 1]));
            assert(spec_resolve_index(idx as int, lv.len() as int) == Some(p as int));
            assert(!(start is Some && end is Some));
            assert(spec_line_slice(lv, idx, start, end, fb) == Ok::<Seq<char>, Seq<char>>(t@));
            Ok(t)
        },
        None => match &opts.fallback_oob {
            Some(f) => {
                let c = f.clone();
                assert(spec_line_slice(lv, idx, start, end, fb) == Ok::<Seq<char>, Seq<char>>(c@));
                Ok(c)
            },
            None => {
                assert(spec_resolve_index(idx as int, lv.len() as int) is None);
                assert(fb is None);
                assert(!(start is Some && end is Some));
                assert(spec_line_slice(lv, idx, start, end, fb) == Err::<Seq<char>, Seq<char>>(oob_text(idx as int)));
                let m = oob(idx);
                assert(m@ == oob_text(idx as int));
                let res: Result<String, String> = Err(m);
                assert(answer_view(res) == Err::<Seq<char>, Seq<char>>(m@));
                assert(answer_view(res) == spec_line_slice(byte_views(lines@), idx, start, end, opt_view(opts.fallback_oob)));
                res
            },
        },
    }
}

/// What line mode writes for `data`: a filled template and a newline, or the
/// selected lines (all others when complemented).
pub open spec fn spec_cut_lines(data: Seq<u8>, o: Options) -> Result<Seq<u8>, Seq<char>> {
    let lines = spec_line_split(data, o.zero_terminated);
    let len = lines.len() as int;
    let fb = opt_view(o.fallback_oob);
    if o.bounds.is_format {
        match fill_template(
            o.bounds_raw@,
            0,
            Seq::empty(),
            |a: i64, b: Option<i64>, c: Option<i64>| spec_line_slice(lines, a, b, c, fb),
        ) {
            Err(e) => Err(e),
            Ok(t) => Ok(encode_utf8(t) + seq![10u8]),
        }
    } else {
        match spec_select_line_indices(o.bounds.items@, len) {
            Err(e) => Err(e),
            Ok(ix) => Ok(
                spec_line_selection(
                    lines,
                    if o.complement {
                        kept_upto(len, ix)
                    } else {
                        ix
                    },
                    o,
                ),
            ),
        }
    }
}

proof fn lemma_kept_in_range(n: int, removed: Seq<int>)
    ensures
        forall|k: int| 0 <= k < kept_upto(n, removed).len() ==> 0 <= #[trigger] kept_upto(n, removed)[k] < n,
    decreases n,
{
    if n > 0 {
        lemma_kept_in_range(n - 1, removed);
        let prev = kept_upto(n - 1, removed);
        let cur = kept_upto(n, removed);
        assert forall|k: int| 0 <= k < cur.len() implies 0 <= #[trigger] cur[k] < n by {
            if k < prev.len() {
                assert(cur[k] == prev[k]);
            }
        }
    }
}

proof fn lemma_indices_in_range(items: Seq<BoundItem>, len: int)
    requires
        len >= 0,
        indices_of(items, len) is Ok,
    ensures
        forall|k: int| 0 <= k < indices_of(items, len)->Ok_0.len() ==> 0 <= #[trigger] indices_of(items, len)->Ok_0[k] < len,
    decreases items.len(),
{
    if items.len() > 0 {
        lemma_indices_in_range(items.drop_last(), len);
        let xs = indices_of(items.drop_last(), len)->Ok_0;
        let ys = item_indices(items.last(), len)->Ok_0;
        assert forall|k: int| 0 <= k < ys.len() implies 0 <= #[trigger] ys[k] < len by {
            match items.last() {
                BoundItem::Single(idx, _) => {},
                BoundItem::Range(start, end, _) => {
                    let s: int = if start == 0 { 1 } else { start as int };
                    if s > 0 {
                        crate::bounds::resolve_index_in_range(s, len);
                    }
                    let e: int = if end == 0 { len } else { end as int };
                    crate::bounds::resolve_index_in_range(e, len);
                },
            }
        }
        assert forall|k: int| 0 <= k < (xs + ys).len() implies 0 <= #[trigger] (xs + ys)[k] < len by {
            if k < xs.len() {
                assert((xs + ys)[k] == xs[k]);
            } else {
                assert((xs + ys)[k] == ys[k - xs.len()]);
            }
        }
    }
}

/// Selects lines of `data`; the bytes to write, or the error.
fn cut_lines(data: &[u8], opts: &Options) -> (r: Result<Vec<u8>, String>)
    requires
        data@.len() < i64::MAX,
    ensures
        match r {
            Ok(v) => spec_cut_lines(data@, *opts) == Ok::<Seq<u8>, Seq<char>>(v@),
            Err(e) => spec_cut_lines(data@, *opts) == Err::<Seq<u8>, Seq<char>>(e@),
        },
{
    let lines = line_split(data, opts.zero_terminated);
    let ghost lv = byte_views(lines@);
    let ghost fb = opt_view(opts.fallback_oob);
    proof {
        lemma_line_split_len(data@, opts.zero_terminated);
    }
    let len = lines.len() as i64;
    if opts.bounds.is_format {
        let f = |a: i64, b: Option<i64>, c: Option<i64>| -> (x: Result<String, String>)
            ensures
                answer_view(x) == spec_line_slice(
                    byte_views(lines@),
                    a,
                    b,
                    c,
                    opt_view(opts.fallback_oob),
                ),
            { resolve_line_slice(&lines, a, b, c, len, opts) };
        let res = format_template(opts.bounds_raw.as_str(), f);
        proof {
            assert((|a: i64, b: Option<i64>, c: Option<i64>| spec_line_slice(lv, a, b, c, fb)) =~= (|
                a: i64,
                b: Option<i64>,
                c: Option<i64>,
            | spec_line_slice(spec_line_split(data@, opts.zero_terminated), a, b, c, opt_view(opts.fallback_oob))));
            lemma_template_deterministic(
                opts.bounds_raw@,
                0,
                Seq::empty(),
                |a: i64, b: Option<i64>, c: Option<i64>, x: Result<String, String>|
                    call_ensures(f, (a, b, c), x),
                |a: i64, b: Option<i64>, c: Option<i64>| spec_line_slice(lv, a, b, c, fb),
                answer_view(res),
            );
        }
        let t = match res {
            Ok(t) => t,
            Err(e) => return Err(e),
        };
        let mut out: Vec<u8> = Vec::new();
        push_text(&mut out, t.as_str());
        out.push(10);
        assert(out@ =~= encode_utf8(t@) + seq![10u8]);
        return Ok(out);
    }
    let indices = match select_line_indices(&opts.bounds, len) {
        Ok(v) => v,
        Err(e) => return Err(e),
    };
    proof {
        if len > 0 && !selects_all(opts.bounds.items@) {
            lemma_indices_in_range(opts.bounds.items@, len as int);
        }
    }
    if opts.complement {
        let kept = kept_positions(lines.len(), &indices);
        proof {
            lemma_kept_in_range(lines@.len() as int, index_views(indices@));
            assert forall|k: int| 0 <= k < kept@.len() implies (#[trigger] kept@[k]) < lines@.len() by {
                assert(index_views(kept@)[k] == kept@[k] as int);
            }
        }
        return Ok(line_selection(&lines, &kept, opts));
    }
    proof {
        assert forall|k: int| 0 <= k < indices@.len() implies (#[trigger] indices@[k]) < lines@.len() by {
            assert(index_views(indices@)[k] == indices@[k] as int);
        }
    }
    Ok(line_selection(&lines, &indices, opts))
}


/// Quotes `s` as a JSON string.
pub fn json_string(s: &str) -> (r: String)
    ensures
        r@ == spec_json_string(s@),
{
    crate::cutter::json_string(s)
}

/// Whether a record holds the delimiter: a match of the expression on its
/// text, else the delimiter's bytes somewhere in it.
pub open spec fn spec_has_delimiter(data: Seq<u8>, o: Options) -> bool {
    match o.regex {
        Some(re) => regex_finds(re.source(), utf8_lossy(data)),
        None => exists|i: int| #[trigger] bytes_at(data, i, encode_utf8(o.delimiter@)),
    }
}

/// Whether testing a record for the delimiter would fail: no expression and
/// an empty delimiter (a window of size zero).
pub open spec fn delimiter_test_fails(o: Options) -> bool {
    o.regex is None && o.delimiter@.len() == 0
}

/// Whether `data` holds the delimiter.
fn has_delimiter(data: &[u8], opts: &Options) -> (r: bool)
    requires
        !delimiter_test_fails(*opts),
    ensures
        r == spec_has_delimiter(data@, *opts),
{
    match &opts.regex {
        Some(re) => {
            let text = decode_lossy(data);
            regex_is_match(re, text.as_str())
        },
        None => {
            let d = opts.delimiter.as_str().as_bytes();
            proof {
                assert(d@.len() > 0) by {
                    crate::split::lemma_encode_nonempty(opts.delimiter@);
                }
            }
            let mut i: usize = 0;
            while i < data.len()
                invariant
                    i <= data@.len(),
                    d@ == encode_utf8(opts.delimiter@),
                    opts.regex is None,
                    d@.len() > 0,
                    forall|j: int| 0 <= j < i ==> !bytes_at(data@, j, d@),
                decreases data.len() - i,
            {
                if crate::split::bytes_match(data, i, d) {
                    assert(bytes_at(data@, i as int, encode_utf8(opts.delimiter@)));
                    assert(opts.regex is None);
                    assert(spec_has_delimiter(data@, *opts));
                    return true;
                }
                i = i + 1;
            }
            assert forall|j: int| !bytes_at(data@, j, d@) by {
                if 0 <= j < i {
                }
            }
            false
        },
    }
}

/// The fallback of an item, else the configured one, else an error.
pub open spec fn spec_fallback_value(fb: Option<String>, o: Options, err: Seq<char>) -> Result<Seq<char>, Seq<char>> {
    match fb {
        Some(f) => Ok(f@),
        None => match o.fallback_oob {
            Some(f) => Ok(f@),
            None => Err(err),
        },
    }
}

/// The fallback text, or the error `err`.
fn fallback_value(fb: &Option<String>, opts: &Options, err: String) -> (r: Result<String, String>)
    ensures
        answer_view(r) == spec_fallback_value(*fb, *opts, err@),
{
    match fb {
        Some(f) => Ok(f.clone()),
        None => match &opts.fallback_oob {
            Some(f) => Ok(f.clone()),
            None => Err(err),
        },
    }
}

/// The field at index `idx`, else the fallback.
pub open spec fn spec_field_at(parts: Seq<Seq<char>>, idx: int, fb: Option<String>, o: Options) -> Result<Seq<char>, Seq<char>> {
    match spec_resolve_index(idx, parts.len() as int) {
        Some(r) => Ok(parts[r - 1]),
        None => spec_fallback_value(fb, o, oob_text(idx)),
    }
}

fn field_at(parts: &Vec<String>, idx: i64, fb: &Option<String>, opts: &Options) -> (r: Result<String, String>)
    requires
        parts@.len() <= i64::MAX,
    ensures
        answer_view(r) == spec_field_at(views(parts@), idx as int, *fb, *opts),
{
    let n = parts.len();
    match resolve_index(idx, n as i64) {
        Some(p) => Ok(parts[(p - 1) as usize].clone()),
        None => fallback_value(fb, opts, oob(idx)),
    }
}

/// `ps` written one after another, the separator before each piece that
/// follows non-empty text.
pub open spec fn chunk_join(ps: Seq<Seq<char>>, sep: Seq<char>) -> Seq<char>
    decreases ps.len(),
{
    if ps.len() == 0 {
        Seq::empty()
    } else {
        let acc = chunk_join(ps.drop_last(), sep);
        (if acc.len() > 0 {
            acc + sep
        } else {
            acc
        }) + ps.last()
    }
}

/// The values that one selection item adds.
pub open spec fn spec_item_values(parts: Seq<Seq<char>>, item: BoundItem, o: Options) -> Result<Seq<Seq<char>>, Seq<char>> {
    let len = parts.len() as int;
    match item {
        BoundItem::Single(idx, fb) => match spec_field_at(parts, idx as int, fb, o) {
            Ok(v) => Ok(seq![v]),
            Err(e) => Err(e),
        },
        BoundItem::Range(start, end, fb) => {
            let s: int = if start == 0 {
                1
            } else {
                start as int
            };
            let e: int = if end == 0 {
                len
            } else {
                end as int
            };
            match (spec_resolve_index(s, len), spec_resolve_index(e, len)) {
                (Some(rs), Some(re)) => if rs == re {
                    Ok(seq![parts[rs - 1]])
                } else if o.join || o.replace_delimiter is Some {
                    Ok(if rs <= re {
                        parts.subrange(rs - 1, re)
                    } else {
                        Seq::empty()
                    })
                } else {
                    Ok(
                        seq![
                            if rs <= re {
                                chunk_join(parts.subrange(rs - 1, re), o.delimiter@)
                            } else {
                                Seq::empty()
                            },
                        ],
                    )
                },
                _ => match spec_fallback_value(fb, o, "Out of bounds"@) {
                    Ok(v) => Ok(seq![v]),
                    Err(e) => Err(e),
                },
            }
        },
    }
}

/// The values that the items select, in order, or the first error.
pub open spec fn spec_select_fields(parts: Seq<Seq<char>>, items: Seq<BoundItem>, o: Options) -> Result<Seq<Seq<char>>, Seq<char>>
    decreases items.len(),
{
    if items.len() == 0 {
        Ok(Seq::empty())
    } else {
        match spec_select_fields(parts, items.drop_last(), o) {
            Err(e) => Err(e),
            Ok(xs) => match spec_item_values(parts, items.last(), o) {
                Err(e) => Err(e),
                Ok(ys) => Ok(xs + ys),
            },
        }
    }
}

proof fn lemma_select_fields_err(parts: Seq<Seq<char>>, items: Seq<BoundItem>, o: Options, n: int)
    requires
        0 <= n <= items.len(),
        spec_select_fields(parts, items.take(n), o) is Err,
    ensures
        spec_select_fields(parts, items, o) == spec_select_fields(parts, items.take(n), o),
    decreases items.len() - n,
{
    if n < items.len() {
        assert(items.take(n + 1).drop_last() == items.take(n));
        lemma_select_fields_err(parts, items, o, n + 1);
    } else {
        assert(items.take(n) == items);
    }
}

/// The pieces `parts[first..last]` written with the separator before each
/// piece that follows non-empty text.
fn chunk_of(parts: &Vec<String>, first: usize, last: usize, sep: &str) -> (r: String)
    requires
        first <= last <= parts@.len(),
    ensures
        r@ == chunk_join(views(parts@).subrange(first as int, last as int), sep@),
{
    let ghost pv = views(parts@);
    let mut out = String::new();
    let mut k = first;
    assert(pv.subrange(first as int, first as int) =~= Seq::<Seq<char>>::empty());
    while k < last
        invariant
            first <= k <= last <= parts@.len(),
            pv == views(parts@),
            out@ == chunk_join(pv.subrange(first as int, k as int), sep@),
        decreases last - k,
    {
        if !out.as_str().is_empty() {
            push_str(&mut out, sep);
        }
        push_str(&mut out, parts[k].as_str());
        assert(pv.subrange(first as int, k + 1).drop_last() =~= pv.subrange(first as int, k as int));
        k = k + 1;
    }
    out
}

/// Appends copies of `parts[first..last]` to `out`.
fn push_parts(parts: &Vec<String>, first: usize, last: usize, out: &mut Vec<String>)
    requires
        first <= last <= parts@.len(),
    ensures
        views(final(out)@) == views(old(out)@) + views(parts@).subrange(first as int, last as int),
{
    let ghost base = views(out@);
    let ghost pv = views(parts@);
    let mut k = first;
    assert(views(out@) =~= base + pv.subrange(first as int, first as int));
    while k < last
        invariant
            first <= k <= last <= parts@.len(),
            pv == views(parts@),
            views(out@) == base + pv.subrange(first as int, k as int),
        decreases last - k,
    {
        let ghost before = views(out@);
        out.push(parts[k].clone());
        assert(views(out@) =~= before.push(pv[k as int]));
        assert(views(out@) =~= base + pv.subrange(first as int, k + 1));
        k = k + 1;
    }
}

/// Appends the values of one item to `out`.
fn collect_items(parts: &Vec<String>, item: &BoundItem, opts: &Options, out: &mut Vec<String>) -> (r: Result<(), String>)
    requires
        parts@.len() <= i64::MAX,
    ensures
        match r {
            Ok(_) => spec_item_values(views(parts@), *item, *opts) == Ok::<Seq<Seq<char>>, Seq<char>>(
                views(final(out)@).skip(old(out)@.len() as int),
            ) && views(final(out)@).take(old(out)@.len() as int) == views(old(out)@)
                && final(out)@.len() >= old(out)@.len(),
            Err(e) => spec_item_values(views(parts@), *item, *opts) == Err::<Seq<Seq<char>>, Seq<char>>(e@),
        },
{
    let ghost pv = views(parts@);
    let ghost base = views(out@);
    let n = parts.len();
    let len = n as i64;
    let ghost added: Seq<Seq<char>>;
    match item {
        BoundItem::Single(idx, fb) => {
            let v = match field_at(parts, *idx, fb, opts) {
                Ok(v) => v,
                Err(e) => return Err(e),
            };
            out.push(v);
            proof {
                added = seq![v@];
            }
        },
        BoundItem::Range(start, end, fb) => {
            let (s, e) = normalize_range(*start, *end, len);
            match (resolve_index(s, len), resolve_index(e, len)) {
                (Some(rs), Some(re)) => {
                    if rs == re {
                        out.push(parts[(rs - 1) as usize].clone());
                        proof {
                            added = seq![pv[rs - 1]];
                        }
                    } else if opts.join || opts.replace_delimiter.is_some() {
                        if rs <= re {
                            push_parts(parts, (rs - 1) as usize, re as usize, out);
                            proof {
                                added = pv.subrange(rs - 1, re as int);
                            }
                        } else {
                            proof {
                                added = Seq::empty();
                            }
                        }
                    } else {
                        let chunk = if rs <= re {
                            chunk_of(parts, (rs - 1) as usize, re as usize, opts.delimiter.as_str())
                        } else {
                            String::new()
                        };
                        out.push(chunk);
                        proof {
                            added = seq![chunk@];
                        }
                    }
                },
                _ => {
                    let v = match fallback_value(fb, opts, to_string("Out of bounds")) {
                        Ok(v) => v,
                        Err(e) => return Err(e),
                    };
                    out.push(v);
                    proof {
                        added = seq![v@];
                    }
                },
            }
        },
    }
    assert(views(out@) =~= base + added);
    assert(spec_item_values(pv, *item, *opts) == Ok::<Seq<Seq<char>>, Seq<char>>(added));
    assert(views(out@).skip(base.len() as int) =~= added);
    assert(views(out@).take(base.len() as int) =~= base);
    Ok(())
}

/// The values that the configured items select.
fn select_fields(parts: &Vec<String>, opts: &Options) -> (r: Result<Vec<String>, String>)
    requires
        parts@.len() <= i64::MAX,
    ensures
        match r {
            Ok(v) => spec_select_fields(views(parts@), opts.bounds.items@, *opts) == Ok::<
                Seq<Seq<char>>,
                Seq<char>,
            >(views(v@)),
            Err(e) => spec_select_fields(views(parts@), opts.bounds.items@, *opts) == Err::<
                Seq<Seq<char>>,
                Seq<char>,
            >(e@),
        },
{
    let items = &opts.bounds.items;
    let ghost pv = views(parts@);
    let mut out: Vec<String> = Vec::new();
    let mut i: usize = 0;
    assert(views(out@) =~= Seq::<Seq<char>>::empty());
    while i < items.len()
        invariant
            i <= items@.len(),
            parts@.len() <= i64::MAX,
            pv == views(parts@),
            *items == opts.bounds.items,
            spec_select_fields(pv, items@.take(i as int), *opts) == Ok::<Seq<Seq<char>>, Seq<char>>(
                views(out@),
            ),
        decreases items.len() - i,
    {
        assert(items@.take(i + 1).drop_last() == items@.take(i as int));
        assert(items@.take(i + 1).last() == items@[i as int]);
        let ghost before = views(out@);
        match collect_items(parts, &items[i], opts, &mut out) {
            Ok(_) => {
                assert(views(out@) =~= before + views(out@).skip(before.len() as int));
            },
            Err(e) => {
                proof {
                    lemma_select_fields_err(pv, items@, *opts, i + 1);
                }
                return Err(e);
            },
        }
        i = i + 1;
    }
    assert(items@.take(items@.len() as int) == items@);
    Ok(out)
}


/// The 0-based positions of the fields that single items name.
pub open spec fn removed_positions(items: Seq<BoundItem>, len: int) -> Seq<int>
    decreases items.len(),
{
    if items.len() == 0 {
        Seq::empty()
    } else {
        removed_positions(items.drop_last(), len) + match items.last() {
            BoundItem::Single(idx, _) => match spec_resolve_index(idx as int, len) {
                Some(r) => seq![r - 1],
                None => Seq::<int>::empty(),
            },
            _ => Seq::<int>::empty(),
        }
    }
}

/// The kept fields written one after another, the delimiter between two
/// that were neighbours in the record.
pub open spec fn complement_text(parts: Seq<Seq<char>>, kept: Seq<int>, p: int, sep: Seq<char>) -> Seq<char>
    decreases kept.len() - p,
{
    if p < 0 || p >= kept.len() {
        Seq::empty()
    } else {
        parts[kept[p]] + (if p + 1 < kept.len() && kept[p + 1] == kept[p] + 1 {
            sep
        } else {
            Seq::empty()
        }) + complement_text(parts, kept, p + 1, sep)
    }
}

/// The fields that single items do not name: each one when joining, else
/// one text of them.
pub open spec fn spec_complement_fields(parts: Seq<Seq<char>>, o: Options) -> Seq<Seq<char>> {
    let kept = kept_upto(parts.len() as int, removed_positions(o.bounds.items@, parts.len() as int));
    if o.join || o.replace_delimiter is Some {
        kept.map_values(|k: int| parts[k])
    } else {
        seq![complement_text(parts, kept, 0, o.delimiter@)]
    }
}

/// The fields that the single items do not name.
fn complement_fields(parts: &Vec<String>, opts: &Options) -> (r: Vec<String>)
    requires
        parts@.len() <= i64::MAX,
    ensures
        views(r@) == spec_complement_fields(views(parts@), *opts),
{
    let ghost pv = views(parts@);
    let n = parts.len();
    let len = n as i64;
    let items = &opts.bounds.items;
    let mut removed: Vec<usize> = Vec::new();
    let mut i: usize = 0;
    assert(index_views(removed@) =~= Seq::<int>::empty());
    while i < items.len()
        invariant
            i <= items@.len(),
            len == n,
            n == parts@.len(),
            *items == opts.bounds.items,
            index_views(removed@) == removed_positions(items@.take(i as int), len as int),
            forall|k: int| 0 <= k < removed@.len() ==> (#[trigger] removed@[k]) < n,
        decreases items.len() - i,
    {
        assert(items@.take(i + 1).drop_last() == items@.take(i as int));
        assert(items@.take(i + 1).last() == items@[i as int]);
        let ghost before = index_views(removed@);
        match &items[i] {
            BoundItem::Single(idx, _) => match resolve_index(*idx, len) {
                Some(p) => {
                    removed.push((p - 1) as usize);
                    assert(index_views(removed@) =~= before + seq![p - 1]);
                },
                None => {
                    assert(index_views(removed@) =~= before + Seq::<int>::empty());
                },
            },
            _ => {
                assert(index_views(removed@) =~= before + Seq::<int>::empty());
            },
        }
        i = i + 1;
    }
    assert(items@.take(items@.len() as int) == items@);
    let kept = kept_positions(n, &removed);
    let ghost kv = index_views(kept@);
    proof {
        lemma_kept_in_range(n as int, index_views(removed@));
    }
    if opts.join || opts.replace_delimiter.is_some() {
        let mut out: Vec<String> = Vec::new();
        let mut k: usize = 0;
        while k < kept.len()
            invariant
                k <= kept@.len(),
                kv == index_views(kept@),
                pv == views(parts@),
                forall|j: int| 0 <= j < kv.len() ==> 0 <= #[trigger] kv[j] < n,
                n == parts@.len(),
                views(out@) == kv.take(k as int).map_values(|x: int| pv[x]),
            decreases kept.len() - k,
        {
            assert(kv[k as int] == kept@[k as int] as int);
            let ghost before = views(out@);
            out.push(parts[kept[k]].clone());
            assert(views(out@) =~= before.push(pv[kv[k as int]]));
            assert(kv.take(k + 1).map_values(|x: int| pv[x]) =~= kv.take(k as int).map_values(
                |x: int| pv[x],
            ).push(pv[kv[k as int]]));
            k = k + 1;
        }
        assert(kv.take(kept@.len() as int) =~= kv);
        return out;
    }
    let mut text = String::new();
    let mut p: usize = 0;
    while p < kept.len()
        invariant
            p <= kept@.len(),
            kv == index_views(kept@),
            pv == views(parts@),
            forall|j: int| 0 <= j < kv.len() ==> 0 <= #[trigger] kv[j] < n,
            n == parts@.len(),
            complement_text(pv, kv, 0, opts.delimiter@) == text@ + complement_text(
                pv,
                kv,
                p as int,
                opts.delimiter@,
            ),
        decreases kept.len() - p,
    {
        assert(kv[p as int] == kept@[p as int] as int);
        let ghost before = text@;
        push_str(&mut text, parts[kept[p]].as_str());
        if p + 1 < kept.len() && kept[p + 1] == kept[p] + 1 {
            assert(kv[p + 1] == kept@[p + 1] as int);
            push_str(&mut text, opts.delimiter.as_str());
        } else {
            proof {
                if p + 1 < kept@.len() {
                    assert(kv[p + 1] == kept@[p + 1] as int);
                }
            }
        }
        assert(text@ =~= before + pv[kv[p as int]] + (if p + 1 < kv.len() && kv[p + 1] == kv[p as int] + 1 {
            opts.delimiter@
        } else {
            Seq::empty()
        }));
        p = p + 1;
    }
    assert(complement_text(pv, kv, p as int, opts.delimiter@) =~= Seq::<char>::empty());
    let mut out: Vec<String> = Vec::new();
    out.push(text);
    assert(views(out@) =~= seq![text@]);
    out
}

/// The bytes written for the selected values: joined by the replacement
/// delimiter (or the delimiter) when joining, else one after another; then
/// a newline.
pub open spec fn spec_joined_line(parts: Seq<Seq<char>>, o: Options) -> Seq<u8> {
    let sep = match o.replace_delimiter {
        Some(r) => r@,
        None => o.delimiter@,
    };
    encode_utf8(
        if o.join || o.replace_delimiter is Some {
            join(parts, sep)
        } else {
            concat(parts)
        },
    ) + seq![10u8]
}

fn joined_line(parts: &Vec<String>, opts: &Options) -> (r: Vec<u8>)
    ensures
        r@ == spec_joined_line(views(parts@), *opts),
{
    let line = if opts.join || opts.replace_delimiter.is_some() {
        let sep = match &opts.replace_delimiter {
            Some(r) => r.as_str(),
            None => opts.delimiter.as_str(),
        };
        join_strings(parts.as_slice(), sep)
    } else {
        concat_strings(parts.as_slice())
    };
    let mut out: Vec<u8> = Vec::new();
    push_text(&mut out, line.as_str());
    out.push(10);
    assert(out@ =~= encode_utf8(line@) + seq![10u8]);
    out
}

/// The JSON line written for `parts`.
fn json_line(parts: &Vec<String>) -> (r: Vec<u8>)
    ensures
        r@ == encode_utf8(spec_to_json(views(parts@))),
{
    let text = match to_json(parts) {
        Ok(t) => t,
        Err(_) => String::new(),
    };
    let mut out: Vec<u8> = Vec::new();
    push_text(&mut out, text.as_str());
    assert(out@ =~= encode_utf8(text@));
    out
}


/// The outcome of selecting values item by item with `f`; the first item
/// without a result, or with an error, decides.
pub open spec fn fold_items(
    items: Seq<BoundItem>,
    f: spec_fn(BoundItem) -> Option<Result<Seq<char>, Seq<char>>>,
) -> Option<Result<Seq<Seq<char>>, Seq<char>>>
    decreases items.len(),
{
    if items.len() == 0 {
        Some(Ok(Seq::empty()))
    } else {
        match fold_items(items.drop_last(), f) {
            Some(Ok(xs)) => match f(items.last()) {
                Some(Ok(x)) => Some(Ok(xs.push(x))),
                Some(Err(e)) => Some(Err(e)),
                None => None,
            },
            other => other,
        }
    }
}

proof fn lemma_fold_items_stop(
    items: Seq<BoundItem>,
    f: spec_fn(BoundItem) -> Option<Result<Seq<char>, Seq<char>>>,
    n: int,
)
    requires
        0 <= n <= items.len(),
        !(fold_items(items.take(n), f) matches Some(Ok(_))),
    ensures
        fold_items(items, f) == fold_items(items.take(n), f),
    decreases items.len() - n,
{
    if n < items.len() {
        assert(items.take(n + 1).drop_last() == items.take(n));
        lemma_fold_items_stop(items, f, n + 1);
    } else {
        assert(items.take(n) == items);
    }
}

/// The text of items `start..=end` of a record of `len` items, `piece`
/// giving the text of `first..last` (0-based); `None` when the start lies
/// more than one past the end.
pub open spec fn spec_slice(
    len: int,
    start: int,
    end: int,
    fb: Option<String>,
    o: Options,
    piece: spec_fn(int, int) -> Seq<char>,
) -> Option<Result<Seq<char>, Seq<char>>> {
    match (spec_resolve_index(start, len), spec_resolve_index(end, len)) {
        (Some(rs), Some(re)) => if rs - 1 > re {
            None
        } else {
            Some(Ok(piece(rs - 1, re)))
        },
        _ => Some(spec_fallback_value(fb, o, "Out of bounds"@)),
    }
}

/// The text that an item selects, `piece` giving the text of a run.
pub open spec fn spec_item_slice(
    len: int,
    item: BoundItem,
    o: Options,
    piece: spec_fn(int, int) -> Seq<char>,
) -> Option<Result<Seq<char>, Seq<char>>> {
    match item {
        BoundItem::Single(idx, fb) => spec_slice(len, idx as int, idx as int, fb, o, piece),
        BoundItem::Range(start, end, fb) => spec_slice(
            len,
            if start == 0 {
                1
            } else {
                start as int
            },
            if end == 0 {
                len
            } else {
                end as int
            },
            fb,
            o,
            piece,
        ),
    }
}

/// The text of a run of bytes.
pub open spec fn byte_piece(data: Seq<u8>) -> spec_fn(int, int) -> Seq<char> {
    |a: int, b: int| utf8_lossy(data.subrange(a, b))
}

/// The text of a run of characters.
pub open spec fn char_piece(chars: Seq<char>) -> spec_fn(int, int) -> Seq<char> {
    |a: int, b: int| chars.subrange(a, b)
}

/// The texts that the items select from `data`'s bytes.
pub open spec fn spec_select_bytes(data: Seq<u8>, o: Options) -> Option<Result<Seq<Seq<char>>, Seq<char>>> {
    fold_items(o.bounds.items@, |it: BoundItem| spec_item_slice(data.len() as int, it, o, byte_piece(data)))
}

/// The texts that the items select from `chars`.
pub open spec fn spec_select_characters(chars: Seq<char>, o: Options) -> Option<Result<Seq<Seq<char>>, Seq<char>>> {
    fold_items(o.bounds.items@, |it: BoundItem| spec_item_slice(chars.len() as int, it, o, char_piece(chars)))
}

/// The run `start..=end` of bytes or characters (`chars` when `is_chars`).
fn slice_any(
    data: &[u8],
    chars: &[char],
    is_chars: bool,
    start: i64,
    end: i64,
    fb: &Option<String>,
    opts: &Options,
) -> (r: Option<Result<String, String>>)
    requires
        (if is_chars {
            chars@.len()
        } else {
            data@.len()
        }) <= i64::MAX,
    ensures
        crate::cutter::outcome_view(r) == spec_slice(
            if is_chars {
                chars@.len() as int
            } else {
                data@.len() as int
            },
            start as int,
            end as int,
            *fb,
            *opts,
            if is_chars {
                char_piece(chars@)
            } else {
                byte_piece(data@)
            },
        ),
{
    let n: usize = if is_chars {
        chars.len()
    } else {
        data.len()
    };
    let len = n as i64;
    match (resolve_index(start, len), resolve_index(end, len)) {
        (Some(rs), Some(re)) => {
            if rs - 1 > re {
                return None;
            }
            let from = (rs - 1) as usize;
            let to = re as usize;
            if is_chars {
                Some(Ok(crate::text::string_of_range(chars, from, to)))
            } else {
                let mut b: Vec<u8> = Vec::new();
                push_slice(&mut b, crate::text::slice_bytes(data, from, to).as_slice());
                assert(b@ =~= data@.subrange(from as int, to as int));
                Some(Ok(decode_lossy(b.as_slice())))
            }
        },
        _ => match fallback_value(fb, opts, to_string("Out of bounds")) {
            Ok(v) => Some(Ok(v)),
            Err(e) => Some(Err(e)),
        },
    }
}

/// The texts that the items select from the bytes of `data` (or from
/// `chars`, when `is_chars`).
fn select_any(data: &[u8], chars: &[char], is_chars: bool, opts: &Options) -> (r: Option<
    Result<Vec<String>, String>,
>)
    requires
        (if is_chars {
            chars@.len()
        } else {
            data@.len()
        }) <= i64::MAX,
    ensures
        match r {
            None => (if is_chars {
                spec_select_characters(chars@, *opts)
            } else {
                spec_select_bytes(data@, *opts)
            }) is None,
            Some(Ok(v)) => (if is_chars {
                spec_select_characters(chars@, *opts)
            } else {
                spec_select_bytes(data@, *opts)
            }) == Some(Ok::<Seq<Seq<char>>, Seq<char>>(views(v@))),
            Some(Err(e)) => (if is_chars {
                spec_select_characters(chars@, *opts)
            } else {
                spec_select_bytes(data@, *opts)
            }) == Some(Err::<Seq<Seq<char>>, Seq<char>>(e@)),
        },
{
    let ghost len: int = if is_chars {
        chars@.len() as int
    } else {
        data@.len() as int
    };
    let ghost piece = if is_chars {
        char_piece(chars@)
    } else {
        byte_piece(data@)
    };
    let ghost f = |it: BoundItem| spec_item_slice(len, it, *opts, piece);
    let n: usize = if is_chars {
        chars.len()
    } else {
        data.len()
    };
    let items = &opts.bounds.items;
    let mut out: Vec<String> = Vec::new();
    let mut i: usize = 0;
    assert(views(out@) =~= Seq::<Seq<char>>::empty());
    assert(f == (if is_chars {
        |it: BoundItem| spec_item_slice(chars@.len() as int, it, *opts, char_piece(chars@))
    } else {
        |it: BoundItem| spec_item_slice(data@.len() as int, it, *opts, byte_piece(data@))
    }));
    while i < items.len()
        invariant
            i <= items@.len(),
            *items == opts.bounds.items,
            n == len,
            len <= i64::MAX,
            len == (if is_chars {
                chars@.len() as int
            } else {
                data@.len() as int
            }),
            piece == (if is_chars {
                char_piece(chars@)
            } else {
                byte_piece(data@)
            }),
            f == (|it: BoundItem| spec_item_slice(len, it, *opts, piece)),
            fold_items(items@.take(i as int), f) == Some(Ok::<Seq<Seq<char>>, Seq<char>>(views(out@))),
        decreases items.len() - i,
    {
        assert(items@.take(i + 1).drop_last() == items@.take(i as int));
        assert(items@.take(i + 1).last() == items@[i as int]);
        let res = match &items[i] {
            BoundItem::Single(idx, fb) => slice_any(data, chars, is_chars, *idx, *idx, fb, opts),
            BoundItem::Range(start, end, fb) => {
                let (s, e) = normalize_range(*start, *end, n as i64);
                slice_any(data, chars, is_chars, s, e, fb, opts)
            },
        };
        match res {
            Some(Ok(v)) => {
                let ghost before = views(out@);
                out.push(v);
                assert(views(out@) =~= before.push(v@));
            },
            other => {
                proof {
                    lemma_fold_items_stop(items@, f, i + 1);
                }
                return match other {
                    None => None,
                    Some(Ok(_)) => None,
                    Some(Err(e)) => Some(Err(e)),
                };
            },
        }
        i = i + 1;
    }
    assert(items@.take(items@.len() as int) == items@);
    Some(Ok(out))
}


/// The fields `i..=re` (1-based; outside ones give the configured fallback)
/// appended to `out`, the delimiter before each field that follows text.
pub open spec fn field_slice_from(
    parts: Seq<Seq<char>>,
    i: int,
    re: int,
    o: Options,
    out: Seq<char>,
) -> Result<Seq<char>, Seq<char>>
    decreases re - i + 1,
{
    if i > re {
        Ok(out)
    } else {
        match spec_resolve_index(i, parts.len() as int) {
            Some(r) => field_slice_from(
                parts,
                i + 1,
                re,
                o,
                (if out.len() > 0 {
                    out + o.delimiter@
                } else {
                    out
                }) + parts[r - 1],
            ),
            None => match o.fallback_oob {
                Some(f) => field_slice_from(parts, i + 1, re, o, out + f@),
                None => Err(oob_text(i)),
            },
        }
    }
}

/// What a template placeholder gives in field mode.
pub open spec fn spec_field_slice(
    parts: Seq<Seq<char>>,
    idx: i64,
    start: Option<i64>,
    end: Option<i64>,
    o: Options,
) -> Result<Seq<char>, Seq<char>> {
    let len = parts.len() as int;
    match (start, end) {
        (Some(s), Some(e)) => field_slice_from(
            parts,
            if s == 0 {
                1
            } else {
                s as int
            },
            if e == 0 {
                len
            } else {
                e as int
            },
            o,
            Seq::empty(),
        ),
        _ => spec_field_at(parts, idx as int, None, o),
    }
}

/// Resolves a placeholder against the fields.
fn resolve_field_slice(
    parts: &Vec<String>,
    idx: i64,
    start: Option<i64>,
    end: Option<i64>,
    opts: &Options,
) -> (r: Result<String, String>)
    requires
        parts@.len() <= i64::MAX,
    ensures
        answer_view(r) == spec_field_slice(views(parts@), idx, start, end, *opts),
{
    let ghost pv = views(parts@);
    let n: usize = parts.len();
    let len = n as i64;
    if start.is_some() && end.is_some() {
        let s = start.unwrap();
        let e = end.unwrap();
        let (rs, re) = normalize_range(s, e, len);
        let mut out = String::new();
        let mut i: i128 = rs as i128;
        while i <= re as i128
            invariant
                rs <= i,
                i <= re as i128 + 1 || i == rs as i128,
                len == n,
                n == parts@.len(),
                pv == views(parts@),
                i64::MIN <= i <= i64::MAX as i128 + 1,
                spec_field_slice(pv, idx, start, end, *opts) == field_slice_from(
                    pv,
                    rs as int,
                    re as int,
                    *opts,
                    Seq::empty(),
                ),
                field_slice_from(pv, rs as int, re as int, *opts, Seq::empty()) == field_slice_from(
                    pv,
                    i as int,
                    re as int,
                    *opts,
                    out@,
                ),
            decreases re as i128 + 1 - i,
        {
            let ii = i as i64;
            match resolve_index(ii, len) {
                Some(p) => {
                    if !out.as_str().is_empty() {
                        push_str(&mut out, opts.delimiter.as_str());
                    }
                    push_str(&mut out, parts[(p - 1) as usize].as_str());
                },
                None => match &opts.fallback_oob {
                    Some(f) => push_str(&mut out, f.as_str()),
                    None => {
                        assert(ii as int == i);
                        return Err(oob(ii));
                    },
                },
            }
            i = i + 1;
        }
        return Ok(out);
    }
    field_at(parts, idx, &None, opts)
}

/// The bytes written for one record in field mode; `None` where no result
/// is defined (testing for an empty delimiter, more fields than an `i64`
/// counts).
pub open spec fn spec_field_record(rec: Seq<u8>, o: Options) -> Option<Result<Seq<u8>, Seq<char>>> {
    if o.only_delimited && delimiter_test_fails(o) {
        None
    } else if o.only_delimited && !spec_has_delimiter(rec, o) {
        Some(Ok(Seq::empty()))
    } else {
        let parts = spec_split(utf8_lossy(rec), o);
        if parts.len() > i64::MAX {
            None
        } else if o.json {
            Some(Ok(encode_utf8(spec_to_json(parts))))
        } else if o.bounds.is_format {
            let template = match o.bounds.format_template {
                Some(t) => t@,
                None => o.bounds_raw@,
            };
            match fill_template(
                template,
                0,
                Seq::empty(),
                |a: i64, b: Option<i64>, c: Option<i64>| spec_field_slice(parts, a, b, c, o),
            ) {
                Err(e) => Some(Err(e)),
                Ok(t) => Some(Ok(encode_utf8(t) + seq![10u8])),
            }
        } else {
            let sel = if o.complement {
                Ok(spec_complement_fields(parts, o))
            } else {
                spec_select_fields(parts, o.bounds.items@, o)
            };
            match sel {
                Err(e) => Some(Err(e)),
                Ok(v) => Some(Ok(spec_joined_line(v, o))),
            }
        }
    }
}

fn field_record(rec: &[u8], opts: &Options) -> (r: Option<Result<Vec<u8>, String>>)
    ensures
        bytes_outcome(r) == spec_field_record(rec@, *opts),
{
    if opts.only_delimited && opts.regex.is_none() && opts.delimiter.as_str().is_empty() {
        return None;
    }
    if opts.only_delimited && !has_delimiter(rec, opts) {
        return Some(Ok(Vec::new()));
    }
    let text = decode_lossy(rec);
    let parts = split(text.as_str(), opts);
    let ghost pv = views(parts@);
    if parts.len() as u64 > 0x7fff_ffff_ffff_ffffu64 {
        return None;
    }
    if opts.json {
        return Some(Ok(json_line(&parts)));
    }
    if opts.bounds.is_format {
        let template = match &opts.bounds.format_template {
            Some(t) => t.as_str(),
            None => opts.bounds_raw.as_str(),
        };
        let f = |a: i64, b: Option<i64>, c: Option<i64>| -> (x: Result<String, String>)
            ensures
                answer_view(x) == spec_field_slice(views(parts@), a, b, c, *opts),
            { resolve_field_slice(&parts, a, b, c, opts) };
        let res = format_template(template, f);
        proof {
            lemma_template_deterministic(
                template@,
                0,
                Seq::empty(),
                |a: i64, b: Option<i64>, c: Option<i64>, x: Result<String, String>|
                    call_ensures(f, (a, b, c), x),
                |a: i64, b: Option<i64>, c: Option<i64>| spec_field_slice(pv, a, b, c, *opts),
                answer_view(res),
            );
        }
        return match res {
            Ok(t) => {
                let mut out: Vec<u8> = Vec::new();
                push_text(&mut out, t.as_str());
                out.push(10);
                assert(out@ =~= encode_utf8(t@) + seq![10u8]);
                Some(Ok(out))
            },
            Err(e) => Some(Err(e)),
        };
    }
    let sel = if opts.complement {
        complement_fields(&parts, opts)
    } else {
        match select_fields(&parts, opts) {
            Ok(v) => v,
            Err(e) => return Some(Err(e)),
        }
    };
    Some(Ok(joined_line(&sel, opts)))
}

/// The view of a record's outcome.
pub open spec fn bytes_outcome(r: Option<Result<Vec<u8>, String>>) -> Option<Result<Seq<u8>, Seq<char>>> {
    match r {
        None => None,
        Some(Ok(b)) => Some(Ok(b@)),
        Some(Err(e)) => Some(Err(e@)),
    }
}

/// The bytes written for one record in byte mode.
pub open spec fn spec_bytes_record(rec: Seq<u8>, o: Options) -> Option<Result<Seq<u8>, Seq<char>>> {
    if o.only_delimited && delimiter_test_fails(o) {
        None
    } else if o.only_delimited && !spec_has_delimiter(rec, o) {
        Some(Ok(Seq::empty()))
    } else {
        match spec_select_bytes(rec, o) {
            None => None,
            Some(Err(e)) => Some(Err(e)),
            Some(Ok(sel)) => Some(Ok(spec_joined_line(sel, o))),
        }
    }
}

/// The bytes written for one record in character mode; `None` also for a
/// record longer than an `i64` counts.
pub open spec fn spec_chars_record(rec: Seq<u8>, o: Options) -> Option<Result<Seq<u8>, Seq<char>>> {
    if o.only_delimited && delimiter_test_fails(o) {
        None
    } else if o.only_delimited && !spec_has_delimiter(rec, o) {
        Some(Ok(Seq::empty()))
    } else if utf8_lossy(rec).len() > i64::MAX {
        None
    } else {
        match spec_select_characters(utf8_lossy(rec), o) {
            None => None,
            Some(Err(e)) => Some(Err(e)),
            Some(Ok(sel)) => Some(Ok(spec_joined_line(sel, o))),
        }
    }
}

fn bytes_or_chars_record(rec: &[u8], opts: &Options, is_chars: bool) -> (r: Option<Result<Vec<u8>, String>>)
    requires
        rec@.len() <= i64::MAX,
    ensures
        bytes_outcome(r) == if is_chars {
            spec_chars_record(rec@, *opts)
        } else {
            spec_bytes_record(rec@, *opts)
        },
{
    if opts.only_delimited && opts.regex.is_none() && opts.delimiter.as_str().is_empty() {
        return None;
    }
    if opts.only_delimited && !has_delimiter(rec, opts) {
        return Some(Ok(Vec::new()));
    }
    let sel = if is_chars {
        let text = decode_lossy(rec);
        let chars = crate::text::chars_of(text.as_str());
        if chars.len() as u64 > 0x7fff_ffff_ffff_ffffu64 {
            return None;
        }
        select_any(rec, chars.as_slice(), true, opts)
    } else {
        let none: Vec<char> = Vec::new();
        select_any(rec, none.as_slice(), false, opts)
    };
    match sel {
        None => None,
        Some(Err(e)) => Some(Err(e)),
        Some(Ok(v)) => Some(Ok(joined_line(&v, opts))),
    }
}

/// The bytes written for one record in the non-line modes.
pub open spec fn spec_record(rec: Seq<u8>, o: Options) -> Option<Result<Seq<u8>, Seq<char>>> {
    match o.mode {
        CutMode::Bytes => spec_bytes_record(rec, o),
        CutMode::Characters => spec_chars_record(rec, o),
        _ => spec_field_record(rec, o),
    }
}

/// What writing the records does: the bytes written, and the error that
/// stopped the writing, if any; `None` where no result is defined.
pub open spec fn run_records(records: Seq<Seq<u8>>, o: Options) -> Option<(Seq<u8>, Option<Seq<char>>)>
    decreases records.len(),
{
    if records.len() == 0 {
        Some((Seq::empty(), None))
    } else {
        match run_records(records.drop_last(), o) {
            Some((out, None)) => match spec_record(records.last(), o) {
                None => None,
                Some(Ok(b)) => Some((out + b, None)),
                Some(Err(e)) => Some((out, Some(e))),
            },
            other => other,
        }
    }
}

proof fn lemma_run_records_stop(records: Seq<Seq<u8>>, o: Options, n: int)
    requires
        0 <= n <= records.len(),
        !(run_records(records.take(n), o) matches Some((_, None))),
    ensures
        run_records(records, o) == run_records(records.take(n), o),
    decreases records.len() - n,
{
    if n < records.len() {
        assert(records.take(n + 1).drop_last() == records.take(n));
        lemma_run_records_stop(records, o, n + 1);
    } else {
        assert(records.take(n) == records);
    }
}

/// What cutting `data` writes, and the error that stopped it, if any;
/// `None` where no result is defined.
pub open spec fn spec_run(data: Seq<u8>, o: Options) -> Option<(Seq<u8>, Option<Seq<char>>)> {
    match o.mode {
        CutMode::Lines => match spec_cut_lines(data, o) {
            Ok(b) => Some((b, None)),
            Err(e) => Some((Seq::empty(), Some(e))),
        },
        _ => run_records(spec_line_split(data, o.zero_terminated), o),
    }
}

/// The view of a run's result.
pub open spec fn run_view(r: (Vec<u8>, Option<String>)) -> (Seq<u8>, Option<Seq<char>>) {
    (r.0@, opt_view(r.1))
}

proof fn lemma_records_short(data: Seq<u8>, zero: bool)
    ensures
        forall|k: int|
            0 <= k < spec_line_split(data, zero).len() ==> (#[trigger] spec_line_split(data, zero)[k]).len()
                <= data.len(),
{
    let sep: u8 = if zero { 0u8 } else { 10u8 };
    lemma_split_bytes_short(data, sep);
    let ls = split_bytes(data, sep);
    if data.len() > 0 && !zero && data.last() == 10u8 && ls.last().len() == 0 {
        assert forall|k: int| 0 <= k < ls.drop_last().len() implies (#[trigger] ls.drop_last()[k]).len()
            <= data.len() by {
            assert(ls.drop_last()[k] == ls[k]);
        }
    }
}

proof fn lemma_split_bytes_short(s: Seq<u8>, sep: u8)
    ensures
        forall|k: int| 0 <= k < split_bytes(s, sep).len() ==> (#[trigger] split_bytes(s, sep)[k]).len() <= s.len(),
    decreases s.len(),
{
    if s.len() > 0 {
        lemma_split_bytes_short(s.drop_last(), sep);
        lemma_split_bytes_nonempty(s.drop_last(), sep);
        let rest = split_bytes(s.drop_last(), sep);
        let cur = split_bytes(s, sep);
        assert forall|k: int| 0 <= k < cur.len() implies (#[trigger] cur[k]).len() <= s.len() by {
            if k < rest.len() {
                assert(rest[k].len() <= s.len() - 1);
            }
        }
    }
}

/// Cuts `data` as the options say; the bytes written, and the error that
/// stopped the writing, if any. `None` where no result is defined.
fn run_outcome(data: &[u8], opts: &Options) -> (r: Option<(Vec<u8>, Option<String>)>)
    requires
        data@.len() < i64::MAX,
    ensures
        match r {
            None => spec_run(data@, *opts) is None,
            Some(x) => spec_run(data@, *opts) == Some(run_view(x)),
        },
{
    if opts.mode == CutMode::Lines {
        return match cut_lines(data, opts) {
            Ok(b) => Some((b, None)),
            Err(e) => Some((Vec::new(), Some(e))),
        };
    }
    let records = line_split(data, opts.zero_terminated);
    let ghost rv = byte_views(records@);
    proof {
        lemma_records_short(data@, opts.zero_terminated);
    }
    let mut out: Vec<u8> = Vec::new();
    let mut i: usize = 0;
    assert(rv.take(0) =~= Seq::<Seq<u8>>::empty());
    while i < records.len()
        invariant
            i <= records@.len(),
            rv == byte_views(records@),
            rv == spec_line_split(data@, opts.zero_terminated),
            data@.len() < i64::MAX,
            opts.mode != CutMode::Lines,
            forall|k: int| 0 <= k < rv.len() ==> (#[trigger] rv[k]).len() <= data@.len(),
            run_records(rv.take(i as int), *opts) == Some((out@, None::<Seq<char>>)),
        decreases records.len() - i,
    {
        assert(rv.take(i + 1).drop_last() == rv.take(i as int));
        assert(rv.take(i + 1).last() == rv[i as int]);
        assert(rv[i as int] == records@[i as int]@);
        let rec = records[i].as_slice();
        let res = if opts.mode == CutMode::Bytes {
            bytes_or_chars_record(rec, opts, false)
        } else if opts.mode == CutMode::Characters {
            bytes_or_chars_record(rec, opts, true)
        } else {
            field_record(rec, opts)
        };
        match res {
            None => {
                proof {
                    lemma_run_records_stop(rv, *opts, i + 1);
                }
                return None;
            },
            Some(Err(e)) => {
                proof {
                    lemma_run_records_stop(rv, *opts, i + 1);
                }
                return Some((out, Some(e)));
            },
            Some(Ok(b)) => {
                push_slice(&mut out, b.as_slice());
            },
        }
        i = i + 1;
    }
    assert(rv.take(records@.len() as int) == rv);
    Some((out, None))
}

/// Cuts `data` as the options say: the bytes written, and the error that
/// stopped the writing, if any.
pub fn run(data: &[u8], opts: &Options) -> (r: (Vec<u8>, Option<String>))
    requires
        data@.len() < i64::MAX,
        spec_run(data@, *opts) is Some,
    ensures
        spec_run(data@, *opts) == Some(run_view(r)),
{
    run_outcome(data, opts).unwrap()
}

/// [`run`] where it is defined; `None` where no result is defined.
pub fn run_checked(data: &[u8], opts: &Options) -> (r: Option<(Vec<u8>, Option<String>)>)
    requires
        data@.len() < i64::MAX,
    ensures
        match r {
            None => spec_run(data@, *opts) is None,
            Some(x) => spec_run(data@, *opts) == Some(run_view(x)),
        },
{
    if run_outcome(data, opts).is_some() {
        Some(run(data, opts))
    } else {
        None
    }
}

} // verus!
