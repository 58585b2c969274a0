//! Splitting a record into fields for whole-input selection.
use vstd::prelude::*;
use vstd::utf8::encode_utf8;
use crate::cut::{Options, TrimMode};
use crate::cutter::{char_fields, regex_pieces, regex_split, split_str, split_normal, spec_split_normal};
use crate::text::{push_char, push_str, views};

verus! {

/// Whether bytes `d` occur in `b` at `i`.
pub open spec fn bytes_at(b: Seq<u8>, i: int, d: Seq<u8>) -> bool {
    0 <= i && i + d.len() <= b.len() && b.subrange(i, i + d.len()) == d
}

/// Where a run of consecutive `d` starting at or after `j` ends.
pub open spec fn skip_runs(b: Seq<u8>, d: Seq<u8>, j: int) -> int
    decreases b.len() - j,
{
    if d.len() > 0 && 0 <= j < b.len() && bytes_at(b, j, d) {
        skip_runs(b, d, j + d.len())
    } else {
        j
    }
}

pub proof fn lemma_skip_runs(b: Seq<u8>, d: Seq<u8>, j: int)
    requires
        0 <= j,
    ensures
        j <= skip_runs(b, d, j),
        j <= b.len() ==> skip_runs(b, d, j) <= b.len(),
    decreases b.len() - j,
{
    if d.len() > 0 && 0 <= j < b.len() && bytes_at(b, j, d) {
        lemma_skip_runs(b, d, j + d.len());
    }
}

/// The text that squeezing the bytes `b` from `i` on gives: each run of the
/// delimiter bytes `db` becomes the delimiter `d` once, every other byte
/// becomes the character with that code.
pub open spec fn compress_bytes_from(b: Seq<u8>, db: Seq<u8>, d: Seq<char>, i: int) -> Seq<char>
    decreases b.len() - i,
{
    if db.len() == 0 || i < 0 || i >= b.len() {
        Seq::empty()
    } else if bytes_at(b, i, db) {
        let j = skip_runs(b, db, i + db.len());
        proof {
            lemma_skip_runs(b, db, i + db.len());
        }
        d + compress_bytes_from(b, db, d, j)
    } else {
        seq![b[i] as char] + compress_bytes_from(b, db, d, i + 1)
    }
}

/// `text` with every run of `delimiter` squeezed into one, read byte by byte.
pub open spec fn spec_compress_text(text: Seq<char>, delimiter: Seq<char>) -> Seq<char> {
    if delimiter.len() == 0 {
        text
    } else {
        compress_bytes_from(encode_utf8(text), encode_utf8(delimiter), delimiter, 0)
    }
}

/// Whether bytes `d` occur in `b` at `i`.
pub(crate) fn bytes_match(b: &[u8], i: usize, d: &[u8]) -> (r: bool)
    ensures
        r == bytes_at(b@, i as int, d@),
{
    let n = b.len();
    if i > n || d.len() > n - i {
        return false;
    }
    let mut k: usize = 0;
    while k < d.len()
        invariant
            n == b@.len(),
            i + d@.len() <= b@.len(),
            k <= d@.len(),
            forall|j: int| 0 <= j < k ==> b@[i + j] == d@[j],
        decreases d.len() - k,
    {
        if b[i + k] != d[k] {
            assert(b@.subrange(i as int, i + d@.len())[k as int] != d@[k as int]);
            return false;
        }
        k = k + 1;
    }
    assert(b@.subrange(i as int, i + d@.len()) =~= d@);
    true
}

/// Squeezes every run of `delimiter` in `text` into one delimiter.
fn compress_text(text: &str, delimiter: &str) -> (r: String)
    ensures
        r@ == spec_compress_text(text@, delimiter@),
{
    if delimiter.is_empty() {
        return crate::text::to_string(text);
    }
    let b = text.as_bytes();
    let db = delimiter.as_bytes();
    let ghost d = delimiter@;
    proof {
        lemma_encode_nonempty(d);
    }
    let mut out = String::new();
    let mut i: usize = 0;
    while i < b.len()
        invariant
            i <= b@.len(),
            db@.len() > 0,
            b@ == encode_utf8(text@),
            db@ == encode_utf8(delimiter@),
            d == delimiter@,
            compress_bytes_from(b@, db@, d, 0) == out@ + compress_bytes_from(b@, db@, d, i as int),
        decreases b.len() - i,
    {
        let ghost before = out@;
        if bytes_match(b, i, db) {
            push_str(&mut out, delimiter);
            proof {
                lemma_skip_runs(b@, db@, i + db@.len());
            }
            i = i + db.len();
            let ghost j0 = i as int;
            while i < b.len() && bytes_match(b, i, db)
                invariant
                    j0 <= i <= b@.len(),
                    db@.len() > 0,
                    skip_runs(b@, db@, j0) == skip_runs(b@, db@, i as int),
                decreases b.len() - i,
            {
                i = i + db.len();
            }
            assert(out@ =~= before + d);
        } else {
            push_char(&mut out, b[i] as char);
            assert(out@ =~= before + seq![b@[i as int] as char]);
            i = i + 1;
        }
    }
    assert(compress_bytes_from(b@, db@, d, i as int) =~= Seq::<char>::empty());
    out
}

pub proof fn lemma_encode_nonempty(s: Seq<char>)
    requires
        s.len() > 0,
    ensures
        encode_utf8(s).len() > 0,
{
    let c = s[0] as u32;
    assert(vstd::utf8::encode_scalar(c).len() > 0);
}

/// The pieces of `s` around each occurrence of `d` (`str::split` with a
/// string pattern): an empty `d` matches at every character boundary.
pub open spec fn str_split_pieces(s: Seq<char>, d: Seq<char>) -> Seq<Seq<char>> {
    if d.len() == 0 {
        seq![Seq::<char>::empty()] + char_fields(s) + seq![Seq::<char>::empty()]
    } else {
        split_str(s, d)
    }
}

/// The pieces of `parts` that are not empty, in order.
pub open spec fn non_empty(parts: Seq<Seq<char>>) -> Seq<Seq<char>>
    decreases parts.len(),
{
    if parts.len() == 0 {
        Seq::empty()
    } else {
        non_empty(parts.drop_last()) + if parts.last().len() > 0 {
            seq![parts.last()]
        } else {
            Seq::<Seq<char>>::empty()
        }
    }
}

/// `parts` without its leading empty pieces.
pub open spec fn drop_leading_empty(parts: Seq<Seq<char>>) -> Seq<Seq<char>>
    decreases parts.len(),
{
    if parts.len() > 0 && parts[0].len() == 0 {
        drop_leading_empty(parts.drop_first())
    } else {
        parts
    }
}

/// `parts` without its trailing empty pieces.
pub open spec fn drop_trailing_empty(parts: Seq<Seq<char>>) -> Seq<Seq<char>>
    decreases parts.len(),
{
    if parts.len() > 0 && parts.last().len() == 0 {
        drop_trailing_empty(parts.drop_last())
    } else {
        parts
    }
}

/// `parts` without the empty pieces at the ends that `mode` names.
pub open spec fn spec_trim_parts(parts: Seq<Seq<char>>, mode: TrimMode) -> Seq<Seq<char>> {
    let p1 = match mode {
        TrimMode::Right => parts,
        _ => drop_leading_empty(parts),
    };
    match mode {
        TrimMode::Left => p1,
        _ => drop_trailing_empty(p1),
    }
}

/// Removes the empty pieces at the ends of `parts` that `mode` names.
fn apply_trim_in_place(parts: &mut Vec<String>, mode: TrimMode)
    ensures
        views(final(parts)@) == spec_trim_parts(views(old(parts)@), mode),
{
    let ghost orig = views(parts@);
    if mode != TrimMode::Right {
        while parts.len() > 0 && parts[0].as_str().is_empty()
            invariant
                drop_leading_empty(orig) == drop_leading_empty(views(parts@)),
            decreases parts.len(),
        {
            let ghost before = views(parts@);
            parts.remove(0);
            assert(views(parts@) =~= before.drop_first());
        }
    }
    let ghost mid = views(parts@);
    assert(mid == (match mode {
        TrimMode::Right => orig,
        _ => drop_leading_empty(orig),
    }));
    if mode != TrimMode::Left {
        while parts.len() > 0 && parts[parts.len() - 1].as_str().is_empty()
            invariant
                drop_trailing_empty(mid) == drop_trailing_empty(views(parts@)),
            decreases parts.len(),
        {
            let ghost before = views(parts@);
            parts.pop();
            assert(views(parts@) =~= before.drop_last());
        }
    }
}

/// The fields of `text`: squeezed (without a pattern) when asked, split by
/// the pattern or at each delimiter, empty fields dropped for a greedy
/// literal split, and empty fields trimmed at the ends as configured.
pub open spec fn spec_split(text: Seq<char>, o: Options) -> Seq<Seq<char>> {
    let working = if o.compress && o.regex is None {
        spec_compress_text(text, o.delimiter@)
    } else {
        text
    };
    let parts = match o.regex {
        Some(re) => regex_pieces(re.source(), working),
        None => str_split_pieces(working, o.delimiter@),
    };
    let kept = if o.greedy && o.regex is None && !o.compress {
        non_empty(parts)
    } else {
        parts
    };
    match o.trim {
        Some(m) => spec_trim_parts(kept, m),
        None => kept,
    }
}

/// The pieces of `s` around each occurrence of `d`.
fn split_pieces(s: &str, d: &str) -> (r: Vec<String>)
    ensures
        views(r@) == str_split_pieces(s@, d@),
{
    if d.is_empty() {
        let cs = crate::text::chars_of(s);
        let mut r: Vec<String> = Vec::new();
        r.push(String::new());
        let mut i: usize = 0;
        while i < cs.len()
            invariant
                i <= cs@.len(),
                cs@ == s@,
                views(r@) == seq![Seq::<char>::empty()] + char_fields(cs@.take(i as int)),
            decreases cs.len() - i,
        {
            let mut one = String::new();
            push_char(&mut one, cs[i]);
            let ghost before = views(r@);
            r.push(one);
            assert(char_fields(cs@.take(i + 1)) =~= char_fields(cs@.take(i as int)).push(seq![cs@[i as int]]));
            assert(views(r@) =~= before.push(seq![cs@[i as int]]));
            i = i + 1;
        }
        assert(cs@.take(cs@.len() as int) == cs@);
        let ghost before = views(r@);
        r.push(String::new());
        assert(views(r@) =~= before.push(Seq::<char>::empty()));
        return r;
    }
    let r = split_normal(s, d);
    r
}

/// The non-empty pieces of `parts`.
fn keep_non_empty(parts: Vec<String>) -> (r: Vec<String>)
    ensures
        views(r@) == non_empty(views(parts@)),
{
    let ghost pv = views(parts@);
    let mut out: Vec<String> = Vec::new();
    let mut i: usize = 0;
    assert(pv.take(0) =~= Seq::<Seq<char>>::empty());
    while i < parts.len()
        invariant
            i <= parts@.len(),
            pv == views(parts@),
            views(out@) == non_empty(pv.take(i as int)),
        decreases parts.len() - i,
    {
        assert(pv.take(i + 1).drop_last() =~= pv.take(i as int));
        let ghost before = views(out@);
        if !parts[i].as_str().is_empty() {
            out.push(parts[i].clone());
            assert(views(out@) =~= before.push(pv[i as int]));
        } else {
            assert(views(out@) =~= before + Seq::<Seq<char>>::empty());
        }
        i = i + 1;
    }
    assert(pv.take(parts@.len() as int) =~= pv);
    out
}

/// The fields of `text` under `opts`.
pub fn split(text: &str, opts: &Options) -> (r: Vec<String>)
    ensures
        views(r@) == spec_split(text@, *opts),
{
    let working = if opts.compress && opts.regex.is_none() {
        compress_text(text, opts.delimiter.as_str())
    } else {
        crate::text::to_string(text)
    };
    let mut parts = match &opts.regex {
        Some(re) => regex_split(re, working.as_str()),
        None => split_pieces(working.as_str(), opts.delimiter.as_str()),
    };
    if opts.greedy && opts.regex.is_none() && !opts.compress {
        parts = keep_non_empty(parts);
    }
    if let Some(mode) = opts.trim {
        apply_trim_in_place(&mut parts, mode);
    }
    parts
}

} // verus!
