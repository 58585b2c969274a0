//! Byte counts such as `0xff`, `4KiB`, `2block` or `1.5MB`.
use vstd::prelude::*;
use crate::num::{
    digits_value, all_digits, decimal, parse_i64, parse_in_range, parse_unsigned, spec_parse_i64,
};
use crate::text::{
    chars_of, ends_with_lit, is_lit, lower_char, lower_seq, matches_at, push_chars, push_str,
    slice_range, string_of, to_lower, to_string, trim, trim_chars,
};

verus! {

/// Below this bound every integer is a `f64` and products stay exact.
pub const EXACT_LIMIT: u64 = 0x20_0000_0000_0000u64;

/// A byte count: exact, or a decimal number to be scaled by a factor in
/// floating point (the number is then not a small whole number), with the
/// error to report when the number does not read as one.
#[derive(Debug, Clone, PartialEq, Eq)]
pub enum ByteCount {
    Exact(i64),
    Scaled { number: String, factor: u64, error: String },
}

/// The mathematical form of a [`ByteCount`].
pub enum ByteCountView {
    Exact(int),
    Scaled(Seq<char>, int, Seq<char>),
}

impl View for ByteCount {
    type V = ByteCountView;

    open spec fn view(&self) -> ByteCountView {
        match self {
            ByteCount::Exact(v) => ByteCountView::Exact(*v as int),
            ByteCount::Scaled { number, factor, error } => ByteCountView::Scaled(
                number@,
                *factor as int,
                error@,
            ),
        }
    }
}

/// The text of the error that `i64::from_str_radix(s, 16)` gives.
pub uninterp spec fn hex_error_text(s: Seq<char>) -> Seq<char>;

/// `i64::from_str_radix(s, 16)`, its error as text. Believed, as std
/// documents: an optional sign and hexadecimal digits that fit an `i64`
/// give their value; anything else is an error, whose text is
/// [`hex_error_text`] of `s`.
#[verifier::external_body]
fn i64_from_hex(s: &str) -> (r: Result<i64, String>)
    ensures
        match r {
            Ok(v) => parse_in_range(s@, 16, true, i64::MIN as int, i64::MAX as int) == Some(v as int),
            Err(m) => parse_in_range(s@, 16, true, i64::MIN as int, i64::MAX as int) is None && m@
                == hex_error_text(s@),
        },
{
    i64::from_str_radix(s, 16).map_err(|e| e.to_string())
}

/// The number of bytes that `c` takes in UTF-8.
pub open spec fn utf8_width(c: char) -> int {
    if (c as u32) < 0x80 {
        1
    } else if (c as u32) < 0x800 {
        2
    } else if (c as u32) < 0x10000 {
        3
    } else {
        4
    }
}

/// The number of bytes that `s` takes in UTF-8.
pub open spec fn byte_len(s: Seq<char>) -> int
    decreases s.len(),
{
    if s.len() == 0 {
        0
    } else {
        byte_len(s.drop_last()) + utf8_width(s.last())
    }
}

/// Whether some suffix of `s` takes exactly `u` bytes (so that cutting `u`
/// bytes off the end falls between characters).
pub open spec fn suffix_fits(s: Seq<char>, u: int) -> bool
    decreases s.len(),
{
    if u == 0 {
        true
    } else if u < 0 || s.len() == 0 {
        false
    } else {
        suffix_fits(s.drop_last(), u - utf8_width(s.last()))
    }
}

/// The units that a count may end with, in the order they are tried.
pub open spec fn unit_name(k: int) -> Seq<char> {
    if k == 0 {
        "kib"@
    } else if k == 1 {
        "mib"@
    } else if k == 2 {
        "gib"@
    } else if k == 3 {
        "tib"@
    } else if k == 4 {
        "kb"@
    } else if k == 5 {
        "mb"@
    } else if k == 6 {
        "gb"@
    } else {
        "tb"@
    }
}

/// The factor of unit `k`.
pub open spec fn unit_factor(k: int) -> int {
    if k == 0 {
        0x400
    } else if k == 1 {
        0x10_0000
    } else if k == 2 {
        0x4000_0000
    } else if k == 3 {
        0x100_0000_0000
    } else if k == 4 {
        1000
    } else if k == 5 {
        1_000_000
    } else if k == 6 {
        1_000_000_000
    } else {
        1_000_000_000_000
    }
}

/// `num` scaled by `factor`: exact when `num` is a whole number (or empty,
/// meaning one, where `empty_is_one`) whose product stays below
/// [`EXACT_LIMIT`]; else left to floating point.
pub open spec fn scale_plan(num: Seq<char>, factor: int, error: Seq<char>, empty_is_one: bool) -> ByteCountView {
    if empty_is_one && num.len() == 0 {
        if factor < EXACT_LIMIT {
            ByteCountView::Exact(factor)
        } else {
            ByteCountView::Scaled(seq!['1'], factor, error)
        }
    } else if num.len() > 0 && all_digits(num, 10) && digits_value(num, 10) * factor < EXACT_LIMIT {
        ByteCountView::Exact(digits_value(num, 10) * factor)
    } else {
        ByteCountView::Scaled(num, factor, error)
    }
}

/// Tries the units from the `k`-th on against the end of `s`, then a plain
/// integer. `None` where a slice would end inside a character.
pub open spec fn unit_plan(s: Seq<char>, k: int) -> Option<Result<ByteCountView, Seq<char>>>
    decreases 8 - k,
{
    if k < 0 || k >= 8 {
        match spec_parse_i64(s) {
            Some(v) => Some(Ok(ByteCountView::Exact(v))),
            None => Some(Err("invalid byte count: "@ + s)),
        }
    } else {
        let u = unit_name(k);
        if byte_len(s) > u.len() {
            if !suffix_fits(s, u.len() as int) {
                None
            } else if s.len() >= u.len() && lower_seq(s.skip(s.len() - u.len())) == u {
                Some(
                    Ok(
                        scale_plan(
                            s.take(s.len() - u.len()),
                            unit_factor(k),
                            "invalid byte count: "@ + s,
                            false,
                        ),
                    ),
                )
            } else {
                unit_plan(s, k + 1)
            }
        } else {
            unit_plan(s, k + 1)
        }
    }
}

/// How `input` reads as a byte count with blocks of `block_size` bytes:
/// `0x` hexadecimal, a number of blocks, a number with a unit, or a plain
/// integer. `None` where a slice would end inside a character.
pub open spec fn spec_byte_count_plan(input: Seq<char>, block_size: u64) -> Option<
    Result<ByteCountView, Seq<char>>,
> {
    let s = trim(input);
    if s.len() == 0 {
        Some(Err("empty byte count"@))
    } else if s.len() >= 2 && s[0] == '0' && (s[1] == 'x' || s[1] == 'X') {
        let h = s.skip(2);
        match parse_in_range(h, 16, true, i64::MIN as int, i64::MAX as int) {
            Some(v) => Some(Ok(ByteCountView::Exact(v))),
            None => Some(Err(hex_error_text(h))),
        }
    } else if lower_seq(s).len() >= 5 && lower_seq(s).skip(s.len() - 5) == "block"@ {
        Some(
            Ok(
                scale_plan(
                    lower_seq(s).take(s.len() - 5),
                    block_size as int,
                    "invalid block count: "@ + input,
                    true,
                ),
            ),
        )
    } else {
        unit_plan(s, 0)
    }
}

/// Whether the byte count is defined and needs no floating point: it is
/// exact or an error.
pub open spec fn byte_count_is_exact(input: Seq<char>, block_size: u64) -> bool {
    match spec_byte_count_plan(input, block_size) {
        Some(Ok(ByteCountView::Scaled(_, _, _))) => false,
        Some(_) => true,
        None => false,
    }
}

/// The number of UTF-8 bytes of `s`.
fn utf8_len(s: &[char]) -> (r: u128)
    ensures
        r == byte_len(s@),
{
    let mut acc: u128 = 0;
    let mut i: usize = 0;
    while i < s.len()
        invariant
            i <= s@.len(),
            acc == byte_len(s@.take(i as int)),
            acc <= 4 * i,
        decreases s.len() - i,
    {
        assert(s@.take(i + 1).drop_last() == s@.take(i as int));
        acc = acc + width_of(s[i]);
        i = i + 1;
    }
    assert(s@.take(s@.len() as int) == s@);
    acc
}

/// The UTF-8 width of `c`.
fn width_of(c: char) -> (w: u128)
    ensures
        w == utf8_width(c),
        1 <= w <= 4,
{
    let v = c as u32;
    if v < 0x80 {
        1
    } else if v < 0x800 {
        2
    } else if v < 0x10000 {
        3
    } else {
        4
    }
}

/// Whether cutting `u` bytes off the end of `s` falls between characters.
fn fits_suffix(s: &[char], u: u128) -> (r: bool)
    requires
        u <= 3,
    ensures
        r == suffix_fits(s@, u as int),
{
    let mut acc: u128 = 0;
    let mut j: usize = s.len();
    assert(s@.take(j as int) == s@);
    while j > 0 && acc < u
        invariant
            j <= s@.len(),
            u <= 3,
            acc <= u + 4,
            suffix_fits(s@, u as int) == suffix_fits(s@.take(j as int), u - acc),
        decreases j,
    {
        j = j - 1;
        assert(s@.take(j + 1).drop_last() == s@.take(j as int));
        assert(s@.take(j + 1).last() == s@[j as int]);
        let w = width_of(s[j]);
        acc = acc + w;
    }
    acc == u
}

/// The characters of `s` with ASCII letters in lower case.
fn lower_chars(s: &[char]) -> (r: Vec<char>)
    ensures
        r@ == lower_seq(s@),
{
    let mut r: Vec<char> = Vec::new();
    let mut i: usize = 0;
    while i < s.len()
        invariant
            i <= s@.len(),
            r@ == lower_seq(s@.take(i as int)),
        decreases s.len() - i,
    {
        r.push(to_lower(s[i]));
        assert(lower_seq(s@.take(i + 1)) =~= lower_seq(s@.take(i as int)).push(lower_char(s@[i as int])));
        i = i + 1;
    }
    assert(s@.take(s@.len() as int) == s@);
    r
}

/// The name of unit `k`.
fn unit_name_of(k: usize) -> (r: &'static str)
    requires
        k < 8,
    ensures
        r@ == unit_name(k as int),
        2 <= r@.len() <= 3,
{
    proof {
        reveal_strlit("kib");
        reveal_strlit("mib");
        reveal_strlit("gib");
        reveal_strlit("tib");
        reveal_strlit("kb");
        reveal_strlit("mb");
        reveal_strlit("gb");
        reveal_strlit("tb");
    }
    if k == 0 {
        "kib"
    } else if k == 1 {
        "mib"
    } else if k == 2 {
        "gib"
    } else if k == 3 {
        "tib"
    } else if k == 4 {
        "kb"
    } else if k == 5 {
        "mb"
    } else if k == 6 {
        "gb"
    } else {
        "tb"
    }
}

/// The factor of unit `k`.
fn unit_factor_of(k: usize) -> (r: u64)
    requires
        k < 8,
    ensures
        r == unit_factor(k as int),
{
    if k == 0 {
        1024
    } else if k == 1 {
        1024 * 1024
    } else if k == 2 {
        1024 * 1024 * 1024
    } else if k == 3 {
        1024 * 1024 * 1024 * 1024
    } else if k == 4 {
        1000
    } else if k == 5 {
        1000 * 1000
    } else if k == 6 {
        1000 * 1000 * 1000
    } else {
        1000 * 1000 * 1000 * 1000
    }
}

/// Whether every character of `s` is a decimal digit.
fn all_decimal(s: &[char]) -> (r: bool)
    ensures
        r == all_digits(s@, 10),
{
    let mut i: usize = 0;
    while i < s.len()
        invariant
            i <= s@.len(),
            forall|j: int| 0 <= j < i ==> crate::num::digit_val(#[trigger] s@[j], 10) >= 0,
        decreases s.len() - i,
    {
        if !crate::text::digit(s[i]) {
            assert(crate::num::digit_val(s@[i as int], 10) < 0);
            return false;
        }
        i = i + 1;
    }
    true
}

/// `num` scaled by `factor`, exactly where that is possible.
fn scale(num: &[char], factor: u64, error: String, empty_is_one: bool) -> (r: ByteCount)
    ensures
        r@ == scale_plan(num@, factor as int, error@, empty_is_one),
{
    if empty_is_one && num.len() == 0 {
        if factor < EXACT_LIMIT {
            return ByteCount::Exact(factor as i64);
        }
        let mut one = String::new();
        crate::text::push_char(&mut one, '1');
        assert(one@ =~= seq!['1']);
        return ByteCount::Scaled { number: one, factor, error };
    }
    if num.len() > 0 && all_decimal(num) {
        proof {
            crate::num::lemma_digits_value_nonneg(num@, 10);
        }
        if factor == 0 {
            assert(digits_value(num@, 10) * factor == 0) by (nonlinear_arith)
                requires
                    factor == 0,
            ;
            return ByteCount::Exact(0);
        }
        assert(num@[0] != '+' && num@[0] != '-') by {
            assert(crate::num::digit_val(num@[0], 10) >= 0);
        }
        match parse_unsigned(num, 10, EXACT_LIMIT as u128) {
            Some(v) => {
                assert(v == digits_value(num@, 10));
                assert(v * (factor as u128) <= 0x20_0000_0000_0000u128 * 0xffff_ffff_ffff_ffffu128) by (nonlinear_arith)
                    requires
                        v <= 0x20_0000_0000_0000u128,
                        factor <= 0xffff_ffff_ffff_ffffu64,
                ;
                let p: u128 = v * (factor as u128);
                if p < EXACT_LIMIT as u128 {
                    return ByteCount::Exact(p as i64);
                }
            },
            None => {
                assert(digits_value(num@, 10) > EXACT_LIMIT);
                assert(digits_value(num@, 10) * factor >= digits_value(num@, 10)) by (nonlinear_arith)
                    requires
                        factor >= 1,
                        digits_value(num@, 10) >= 0,
                ;
            },
        }
    }
    ByteCount::Scaled { number: string_of(num), factor, error }
}


/// The view of a plan's outcome.
pub open spec fn plan_view(r: Option<Result<ByteCount, String>>) -> Option<Result<ByteCountView, Seq<char>>> {
    match r {
        None => None,
        Some(Ok(b)) => Some(Ok(b@)),
        Some(Err(e)) => Some(Err(e@)),
    }
}

/// `prefix` followed by the characters of `s`.
fn message_with(prefix: &str, s: &[char]) -> (m: String)
    ensures
        m@ == prefix@ + s@,
{
    let mut m = to_string(prefix);
    push_chars(&mut m, s);
    m
}

/// Tries the units against the end of the trimmed count `s`, then reads a
/// plain integer.
fn unit_plan_of(s: &[char]) -> (r: Option<Result<ByteCount, String>>)
    ensures
        plan_view(r) == unit_plan(s@, 0),
{
    let total = utf8_len(s);
    let mut k: usize = 0;
    while k < 8
        invariant
            k <= 8,
            total == byte_len(s@),
            unit_plan(s@, 0) == unit_plan(s@, k as int),
        decreases 8 - k,
    {
        let uname = unit_name_of(k);
        let u = chars_of(uname);
        let ul = u.len();
        if total > ul as u128 {
            if !fits_suffix(s, ul as u128) {
                return None;
            }
            if s.len() >= ul {
                let tail = slice_range(s, s.len() - ul, s.len());
                let lower_tail = lower_chars(tail.as_slice());
                assert(tail@ == s@.skip(s@.len() - ul));
                if is_lit(lower_tail.as_slice(), uname) {
                    let num = slice_range(s, 0, s.len() - ul);
                    assert(num@ == s@.take(s@.len() - ul));
                    let error = message_with("invalid byte count: ", s);
                    return Some(Ok(scale(num.as_slice(), unit_factor_of(k), error, false)));
                }
            }
        }
        k = k + 1;
    }
    match parse_i64(s) {
        Some(v) => Some(Ok(ByteCount::Exact(v))),
        None => Some(Err(message_with("invalid byte count: ", s))),
    }
}

/// How `input` reads as a byte count with blocks of `block_size` bytes;
/// `None` where the byte-wise reading would cut inside a character.
pub fn byte_count_plan(input: &str, block_size: u64) -> (r: Option<Result<ByteCount, String>>)
    ensures
        plan_view(r) == spec_byte_count_plan(input@, block_size),
{
    let cs = chars_of(input);
    let s = trim_chars(cs.as_slice());
    if s.len() == 0 {
        return Some(Err(to_string("empty byte count")));
    }
    if s.len() >= 2 && s[0] == '0' && (s[1] == 'x' || s[1] == 'X') {
        let h = slice_range(s.as_slice(), 2, s.len());
        assert(h@ == s@.skip(2));
        let hs = string_of(h.as_slice());
        return match i64_from_hex(hs.as_str()) {
            Ok(v) => Some(Ok(ByteCount::Exact(v))),
            Err(m) => Some(Err(m)),
        };
    }
    let lower = lower_chars(s.as_slice());
    if lower.len() >= 5 && ends_with_lit(lower.as_slice(), "block") {
        proof {
            reveal_strlit("block");
        }
        let num = slice_range(lower.as_slice(), 0, lower.len() - 5);
        assert(lower@.skip(lower@.len() - 5) == lower@.subrange(lower@.len() - 5, lower@.len() as int));
        assert(num@ == lower@.take(lower@.len() - 5));
        let error = message_with("invalid block count: ", cs.as_slice());
        return Some(Ok(scale(num.as_slice(), block_size, error, true)));
    }
    proof {
        reveal_strlit("block");
        if lower@.len() >= 5 {
            assert(lower@.skip(lower@.len() - 5) == lower@.subrange(lower@.len() - 5, lower@.len() as int));
        }
    }
    unit_plan_of(s.as_slice())
}

/// Reads `input` as a byte count with blocks of `block_size` bytes: `0x`
/// hexadecimal, a (whole) number of blocks, a whole number with a unit
/// (`kib` to `tib`, `kb` to `tb`, in any case), or a plain integer.
pub fn parse_byte_count(input: &str, block_size: u64) -> (r: Result<i64, String>)
    requires
        byte_count_is_exact(input@, block_size),
    ensures
        match r {
            Ok(v) => spec_byte_count_plan(input@, block_size) == Some(
                Ok::<ByteCountView, Seq<char>>(ByteCountView::Exact(v as int)),
            ),
            Err(e) => spec_byte_count_plan(input@, block_size) == Some(
                Err::<ByteCountView, Seq<char>>(e@),
            ),
        },
{
    match byte_count_plan(input, block_size) {
        Some(Ok(ByteCount::Exact(v))) => Ok(v),
        Some(Err(e)) => Err(e),
        _ => Err(to_string("invalid byte count")),
    }
}

/// [`parse_byte_count`] where the count is exact or an error; `None` where it
/// needs floating point or a slice would end inside a character.
pub fn parse_byte_count_checked(input: &str, block_size: u64) -> (r: Option<Result<i64, String>>)
    ensures
        match r {
            None => !byte_count_is_exact(input@, block_size),
            Some(Ok(v)) => spec_byte_count_plan(input@, block_size) == Some(
                Ok::<ByteCountView, Seq<char>>(ByteCountView::Exact(v as int)),
            ),
            Some(Err(e)) => spec_byte_count_plan(input@, block_size) == Some(
                Err::<ByteCountView, Seq<char>>(e@),
            ),
        },
{
    match byte_count_plan(input, block_size) {
        Some(Ok(ByteCount::Exact(_))) | Some(Err(_)) => Some(parse_byte_count(input, block_size)),
        _ => None,
    }
}


proof fn lemma_unit_names()
    ensures
        forall|k: int|
            0 <= k < 8 ==> {
                let w = #[trigger] unit_name(k);
                &&& 2 <= w.len() <= 3
                &&& w.last() == 'b'
                &&& forall|i: int| 0 <= i < w.len() ==> 'a' <= #[trigger] w[i] <= 'z'
                &&& (w.len() == 3 <==> k < 4)
                &&& w.len() == 3 ==> w[1] == 'i'
                &&& w[0] != 'i'
                &&& w[0] != 'x'
            },
        forall|j: int, k: int|
            0 <= j < 8 && 0 <= k < 8 && j != k && (#[trigger] unit_name(j)).len() == (#[trigger] unit_name(
                k,
            )).len() ==> unit_name(j)[0] != unit_name(k)[0],
{
    reveal_strlit("kib");
    reveal_strlit("mib");
    reveal_strlit("gib");
    reveal_strlit("tib");
    reveal_strlit("kb");
    reveal_strlit("mb");
    reveal_strlit("gb");
    reveal_strlit("tb");
    assert("kib"@.len() == 3 && "kib"@[0] == 'k' && "kib"@[1] == 'i' && "kib"@[2] == 'b');
    assert("mib"@.len() == 3 && "mib"@[0] == 'm' && "mib"@[1] == 'i' && "mib"@[2] == 'b');
    assert("gib"@.len() == 3 && "gib"@[0] == 'g' && "gib"@[1] == 'i' && "gib"@[2] == 'b');
    assert("tib"@.len() == 3 && "tib"@[0] == 't' && "tib"@[1] == 'i' && "tib"@[2] == 'b');
    assert("kb"@.len() == 2 && "kb"@[0] == 'k' && "kb"@[1] == 'b');
    assert("mb"@.len() == 2 && "mb"@[0] == 'm' && "mb"@[1] == 'b');
    assert("gb"@.len() == 2 && "gb"@[0] == 'g' && "gb"@[1] == 'b');
    assert("tb"@.len() == 2 && "tb"@[0] == 't' && "tb"@[1] == 'b');
}

proof fn lemma_ascii_byte_len(s: Seq<char>)
    requires
        forall|i: int| 0 <= i < s.len() ==> (#[trigger] s[i] as u32) < 0x80,
    ensures
        byte_len(s) == s.len(),
        forall|u: int| 0 <= u <= s.len() ==> #[trigger] suffix_fits(s, u),
    decreases s.len(),
{
    if s.len() > 0 {
        let d = s.drop_last();
        assert forall|i: int| 0 <= i < d.len() implies (#[trigger] d[i] as u32) < 0x80 by {
            assert(d[i] == s[i]);
        }
        lemma_ascii_byte_len(d);
        assert((s[s.len() - 1] as u32) < 0x80);
        assert forall|u: int| 0 <= u <= s.len() implies #[trigger] suffix_fits(s, u) by {
            if u > 0 {
                assert(suffix_fits(d, u - 1));
            }
        }
    }
}

proof fn lemma_plan_step(d: Seq<char>, u: Seq<char>, k: int)
    requires
        d.len() > 0,
        forall|i: int| 0 <= i < d.len() ==> '0' <= #[trigger] d[i] <= '9',
        2 <= u.len() <= 3,
        forall|i: int| 0 <= i < u.len() ==> 'a' <= #[trigger] u[i] <= 'z',
        u.len() == 3 ==> u[1] == 'i',
        0 <= k < 8,
    ensures
        unit_plan(d + u, k) == if unit_name(k) == u {
            Some(
                Ok::<ByteCountView, Seq<char>>(
                    scale_plan(d, unit_factor(k), "invalid byte count: "@ + (d + u), false),
                ),
            )
        } else {
            unit_plan(d + u, k + 1)
        },
{
    lemma_unit_names();
    let s = d + u;
    let w = unit_name(k);
    assert(w == unit_name(k));
    assert forall|i: int| 0 <= i < s.len() implies (#[trigger] s[i] as u32) < 0x80 by {
        if i < d.len() {
            assert(s[i] == d[i]);
        } else {
            assert(s[i] == u[i - d.len()]);
        }
    }
    lemma_ascii_byte_len(s);
    if s.len() > w.len() {
        assert(suffix_fits(s, w.len() as int));
        let tail = s.skip(s.len() - w.len());
        assert(lower_seq(tail) =~= tail) by {
            assert forall|i: int| 0 <= i < tail.len() implies lower_char(tail[i]) == tail[i] by {
                assert(tail[i] == s[s.len() - w.len() + i]);
                if s.len() - w.len() + i >= d.len() {
                    assert(s[s.len() - w.len() + i] == u[s.len() - w.len() + i - d.len()]);
                } else {
                    assert(s[s.len() - w.len() + i] == d[s.len() - w.len() + i]);
                }
            }
        }
        if w.len() == u.len() {
            assert(tail =~= u);
            if w != u {
                assert(w[0] != u[0] || w != u);
            }
        } else if w.len() == 3 {
            assert(tail[0] == d[d.len() - 1]);
            assert(tail != w);
        } else {
            assert(tail[0] == u[1]);
            assert(tail[0] == 'i');
            assert(w[0] != 'i');
            assert(tail != w);
        }
        if w == u {
            assert(s.take(s.len() - w.len()) =~= d);
        }
    } else {
        assert(w.len() == 3 && u.len() == 2);
        assert(w != u);
    }
}

proof fn lemma_plan_skip(d: Seq<char>, u: Seq<char>, k: int, m: int)
    requires
        0 <= k <= m < 8,
        unit_name(m) == u,
        forall|j: int| 0 <= j < 8 && j != m ==> unit_name(j) != u,
        d.len() > 0,
        forall|i: int| 0 <= i < d.len() ==> '0' <= #[trigger] d[i] <= '9',
        2 <= u.len() <= 3,
        forall|i: int| 0 <= i < u.len() ==> 'a' <= #[trigger] u[i] <= 'z',
        u.len() == 3 ==> u[1] == 'i',
    ensures
        unit_plan(d + u, k) == unit_plan(d + u, m),
    decreases m - k,
{
    if k < m {
        lemma_plan_step(d, u, k);
        lemma_plan_skip(d, u, k + 1, m);
    }
}

proof fn lemma_count_with_unit(n: nat, u: Seq<char>, m: int, block_size: u64)
    requires
        0 <= m < 8,
        unit_name(m) == u,
    ensures
        n * unit_factor(m) < EXACT_LIMIT ==> spec_byte_count_plan(decimal(n) + u, block_size) == Some(
            Ok::<ByteCountView, Seq<char>>(ByteCountView::Exact(n * unit_factor(m))),
        ),
{
    reveal_strlit("block");
    lemma_unit_names();
    let d = decimal(n);
    crate::num::lemma_radix_digits(n, 10);
    assert forall|i: int| 0 <= i < d.len() implies '0' <= #[trigger] d[i] <= '9' by {
        assert(crate::num::digit_val(d[i], 10) >= 0);
    }
    let s = d + u;
    assert(s[0] == d[0]);
    assert(s[s.len() - 1] == 'b');
    assert(crate::text::trim_start(s) == s);
    assert(crate::text::trim_end(s) == s);
    assert(trim(s) == s);
    assert(s[1] == u[0] || s[1] == d[1]);
    assert(lower_seq(s).len() == s.len());
    if s.len() >= 5 {
        assert(lower_seq(s).skip(s.len() - 5)[4] == lower_char(s[s.len() - 1]));
        assert(lower_seq(s).skip(s.len() - 5) != "block"@);
    }
    assert(2 <= u.len() <= 3 && u.last() == 'b');
    assert forall|j: int| 0 <= j < 8 && j != m implies unit_name(j) != u by {
        if unit_name(j).len() == u.len() {
            assert(unit_name(j)[0] != unit_name(m)[0]);
        }
    }
    lemma_plan_skip(d, u, 0, m);
    lemma_plan_step(d, u, m);
    assert(unit_name(m) == u);
    assert(s.take(s.len() - u.len()) =~= d);
    assert(all_digits(d, 10) && digits_value(d, 10) == n);
    assert(!(s.len() >= 2 && s[0] == '0' && (s[1] == 'x' || s[1] == 'X')));
    assert(!(lower_seq(s).len() >= 5 && lower_seq(s).skip(s.len() - 5) == "block"@));
    assert(spec_byte_count_plan(s, block_size) == unit_plan(s, 0));
    assert(unit_plan(s, 0) == Some(
        Ok::<ByteCountView, Seq<char>>(scale_plan(d, unit_factor(m), "invalid byte count: "@ + s, false)),
    ));
}

/// A whole number followed by a unit counts that many times the unit's
/// factor, exactly while the product stays below [`EXACT_LIMIT`]: `kb`,
/// `mb`, `gb` and `tb` powers of a thousand, `kib`, `mib`, `gib` and `tib`
/// powers of 1024.
pub proof fn unit_counts(n: nat, block_size: u64)
    ensures
        n * (1024) < EXACT_LIMIT ==> spec_byte_count_plan(decimal(n) + "kib"@, block_size) == Some(
            Ok::<ByteCountView, Seq<char>>(ByteCountView::Exact((n * (1024)) as int)),
        ),
        n * (1024 * 1024) < EXACT_LIMIT ==> spec_byte_count_plan(decimal(n) + "mib"@, block_size) == Some(
            Ok::<ByteCountView, Seq<char>>(ByteCountView::Exact((n * (1024 * 1024)) as int)),
        ),
        n * (1024 * 1024 * 1024) < EXACT_LIMIT ==> spec_byte_count_plan(decimal(n) + "gib"@, block_size) == Some(
            Ok::<ByteCountView, Seq<char>>(ByteCountView::Exact((n * (1024 * 1024 * 1024)) as int)),
        ),
        n * (1024 * 1024 * 1024 * 1024) < EXACT_LIMIT ==> spec_byte_count_plan(decimal(n) + "tib"@, block_size) == Some(
            Ok::<ByteCountView, Seq<char>>(ByteCountView::Exact((n * (1024 * 1024 * 1024 * 1024)) as int)),
        ),
        n * (1000) < EXACT_LIMIT ==> spec_byte_count_plan(decimal(n) + "kb"@, block_size) == Some(
            Ok::<ByteCountView, Seq<char>>(ByteCountView::Exact((n * (1000)) as int)),
        ),
        n * (1000 * 1000) < EXACT_LIMIT ==> spec_byte_count_plan(decimal(n) + "mb"@, block_size) == Some(
            Ok::<ByteCountView, Seq<char>>(ByteCountView::Exact((n * (1000 * 1000)) as int)),
        ),
        n * (1000 * 1000 * 1000) < EXACT_LIMIT ==> spec_byte_count_plan(decimal(n) + "gb"@, block_size) == Some(
            Ok::<ByteCountView, Seq<char>>(ByteCountView::Exact((n * (1000 * 1000 * 1000)) as int)),
        ),
        n * (1000 * 1000 * 1000 * 1000) < EXACT_LIMIT ==> spec_byte_count_plan(decimal(n) + "tb"@, block_size) == Some(
            Ok::<ByteCountView, Seq<char>>(ByteCountView::Exact((n * (1000 * 1000 * 1000 * 1000)) as int)),
        ),
{
    assert(n * (1024) < EXACT_LIMIT ==> spec_byte_count_plan(decimal(n) + "kib"@, block_size) == Some(
        Ok::<ByteCountView, Seq<char>>(ByteCountView::Exact((n * (1024)) as int)),
    )) by {
        lemma_unit_names();
        reveal_strlit("kib");
        assert(unit_name(0) == "kib"@);
        assert(unit_factor(0) == 1024);
        lemma_count_with_unit(n, "kib"@, 0, block_size);
    }
    assert(n * (1024 * 1024) < EXACT_LIMIT ==> spec_byte_count_plan(decimal(n) + "mib"@, block_size) == Some(
        Ok::<ByteCountView, Seq<char>>(ByteCountView::Exact((n * (1024 * 1024)) as int)),
    )) by {
        lemma_unit_names();
        reveal_strlit("mib");
        assert(unit_name(1) == "mib"@);
        assert(unit_factor(1) == 1024 * 1024);
        lemma_count_with_unit(n, "mib"@, 1, block_size);
    }
    assert(n * (1024 * 1024 * 1024) < EXACT_LIMIT ==> spec_byte_count_plan(decimal(n) + "gib"@, block_size) == Some(
        Ok::<ByteCountView, Seq<char>>(ByteCountView::Exact((n * (1024 * 1024 * 1024)) as int)),
    )) by {
        lemma_unit_names();
        reveal_strlit("gib");
        assert(unit_name(2) == "gib"@);
        assert(unit_factor(2) == 1024 * 1024 * 1024);
        lemma_count_with_unit(n, "gib"@, 2, block_size);
    }
    assert(n * (1024 * 1024 * 1024 * 1024) < EXACT_LIMIT ==> spec_byte_count_plan(decimal(n) + "tib"@, block_size) == Some(
        Ok::<ByteCountView, Seq<char>>(ByteCountView::Exact((n * (1024 * 1024 * 1024 * 1024)) as int)),
    )) by {
        lemma_unit_names();
        reveal_strlit("tib");
        assert(unit_name(3) == "tib"@);
        assert(unit_factor(3) == 1024 * 1024 * 1024 * 1024);
        lemma_count_with_unit(n, "tib"@, 3, block_size);
    }
    assert(n * (1000) < EXACT_LIMIT ==> spec_byte_count_plan(decimal(n) + "kb"@, block_size) == Some(
        Ok::<ByteCountView, Seq<char>>(ByteCountView::Exact((n * (1000)) as int)),
    )) by {
        lemma_unit_names();
        reveal_strlit("kb");
        assert(unit_name(4) == "kb"@);
        assert(unit_factor(4) == 1000);
        lemma_count_with_unit(n, "kb"@, 4, block_size);
    }
    assert(n * (1000 * 1000) < EXACT_LIMIT ==> spec_byte_count_plan(decimal(n) + "mb"@, block_size) == Some(
        Ok::<ByteCountView, Seq<char>>(ByteCountView::Exact((n * (1000 * 1000)) as int)),
    )) by {
        lemma_unit_names();
        reveal_strlit("mb");
        assert(unit_name(5) == "mb"@);
        assert(unit_factor(5) == 1000 * 1000);
        lemma_count_with_unit(n, "mb"@, 5, block_size);
    }
    assert(n * (1000 * 1000 * 1000) < EXACT_LIMIT ==> spec_byte_count_plan(decimal(n) + "gb"@, block_size) == Some(
        Ok::<ByteCountView, Seq<char>>(ByteCountView::Exact((n * (1000 * 1000 * 1000)) as int)),
    )) by {
        lemma_unit_names();
        reveal_strlit("gb");
        assert(unit_name(6) == "gb"@);
        assert(unit_factor(6) == 1000 * 1000 * 1000);
        lemma_count_with_unit(n, "gb"@, 6, block_size);
    }
    assert(n * (1000 * 1000 * 1000 * 1000) < EXACT_LIMIT ==> spec_byte_count_plan(decimal(n) + "tb"@, block_size) == Some(
        Ok::<ByteCountView, Seq<char>>(ByteCountView::Exact((n * (1000 * 1000 * 1000 * 1000)) as int)),
    )) by {
        lemma_unit_names();
        reveal_strlit("tb");
        assert(unit_name(7) == "tb"@);
        assert(unit_factor(7) == 1000 * 1000 * 1000 * 1000);
        lemma_count_with_unit(n, "tb"@, 7, block_size);
    }
}
} // verus!
