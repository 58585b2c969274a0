//! Sizes such as `4KiB`, `10MB`, `0x200` or `3block`, in bytes.
use vstd::prelude::*;
use crate::num::{
    all_digits, decimal, digit_char, digit_val, digits_value, parse_in_range, parse_unsigned,
    radix_digits,
};
use crate::text::{
    strip_suffixes,
    chars_of, contains_char, digit, ends_with_lit, is_digit, is_lit, matches_at, slice_range,
    starts_with_lit, trim, trim_chars, to_string, is_space, trim_end, trim_start,
};

verus! {

/// Why a size could not be read.
#[derive(Debug, Clone, Copy, PartialEq, Eq)]
pub enum ParseSizeError {
    Empty,
    InvalidUnit,
    InvalidNumber,
    Overflow,
}

impl ParseSizeError {
    /// The text that this error displays.
    pub fn message(&self) -> (m: String)
        ensures
            m@ == match self {
                ParseSizeError::Empty => "empty size"@,
                ParseSizeError::InvalidUnit => "invalid unit"@,
                ParseSizeError::InvalidNumber => "invalid number"@,
                ParseSizeError::Overflow => "size overflow"@,
            },
    {
        match self {
            ParseSizeError::Empty => to_string("empty size"),
            ParseSizeError::InvalidUnit => to_string("invalid unit"),
            ParseSizeError::InvalidNumber => to_string("invalid number"),
            ParseSizeError::Overflow => to_string("size overflow"),
        }
    }
}

/// `s` starts with `0x` or `0X`.
pub open spec fn has_hex_prefix(s: Seq<char>) -> bool {
    matches_at(s, 0, "0x"@) || matches_at(s, 0, "0X"@)
}

/// The number part of a size: hexadecimal after `0x`, otherwise decimal
/// without a fraction; white space around it is ignored.
pub open spec fn spec_number_part(s: Seq<char>) -> Result<int, ParseSizeError> {
    let t = trim(s);
    if t.len() == 0 {
        Err(ParseSizeError::Empty)
    } else if has_hex_prefix(t) {
        match parse_in_range(t.skip(2), 16, false, 0, u128::MAX as int) {
            Some(v) => Ok(v),
            None => Err(ParseSizeError::InvalidNumber),
        }
    } else if t.contains('.') {
        Err(ParseSizeError::InvalidNumber)
    } else {
        match parse_in_range(t, 10, false, 0, u128::MAX as int) {
            Some(v) => Ok(v),
            None => Err(ParseSizeError::InvalidNumber),
        }
    }
}

/// The factor of a decimal (SI) unit.
pub open spec fn spec_decimal_multiplier(u: Seq<char>) -> Result<int, ParseSizeError> {
    if u == ""@ || u == "B"@ || u == "b"@ {
        Ok(1)
    } else if u == "kB"@ {
        Ok(1_000)
    } else if u == "MB"@ {
        Ok(1_000_000)
    } else if u == "GB"@ {
        Ok(1_000_000_000)
    } else if u == "TB"@ {
        Ok(1_000_000_000_000)
    } else {
        Err(ParseSizeError::InvalidUnit)
    }
}

/// The factor of a binary (IEC) unit.
pub open spec fn spec_binary_multiplier(u: Seq<char>) -> Result<int, ParseSizeError> {
    if u == ""@ || u == "B"@ || u == "b"@ {
        Ok(1)
    } else if u == "KiB"@ || u == "kiB"@ || u == "K"@ || u == "k"@ {
        Ok(1024)
    } else if u == "MiB"@ || u == "miB"@ || u == "M"@ {
        Ok(1048576)
    } else if u == "GiB"@ || u == "giB"@ || u == "G"@ {
        Ok(1073741824)
    } else if u == "TiB"@ || u == "tiB"@ || u == "T"@ {
        Ok(1099511627776)
    } else {
        Err(ParseSizeError::InvalidUnit)
    }
}

/// Index of the first character of `s` that is neither a digit nor `.`,
/// or `s.len()`.
pub open spec fn unit_start(s: Seq<char>) -> int
    decreases s.len(),
{
    if s.len() == 0 {
        0
    } else {
        let f = unit_start(s.drop_last());
        if f < s.len() - 1 {
            f
        } else if !is_digit(s.last()) && s.last() != '.' {
            s.len() - 1
        } else {
            s.len() as int
        }
    }
}

/// `s` cut into its leading number and its unit, both trimmed.
pub open spec fn spec_split_number_unit(s: Seq<char>) -> (Seq<char>, Seq<char>) {
    let t = trim(s);
    let i = unit_start(t);
    if i < t.len() {
        (trim(t.take(i)), trim(t.skip(i)))
    } else {
        (t, ""@)
    }
}

/// The value `v` as a 64-bit size.
pub open spec fn fit_u64(v: int) -> Result<int, ParseSizeError> {
    if v <= u64::MAX {
        Ok(v)
    } else {
        Err(ParseSizeError::Overflow)
    }
}

/// A size in bytes read from `input`: `N block` counts blocks of
/// `block_size`, `0x` gives hexadecimal, otherwise a number and a unit.
pub open spec fn spec_parse_size(input: Seq<char>, block_size: int) -> Result<int, ParseSizeError> {
    let t = trim(input);
    if t.len() == 0 {
        Err(ParseSizeError::Empty)
    } else if 5 <= t.len() && t.skip(t.len() - 5) == "block"@ {
        match spec_number_part(strip_suffixes(t, "block"@)) {
            Err(e) => Err(e),
            Ok(n) => if n * block_size > u128::MAX {
                Err(ParseSizeError::Overflow)
            } else {
                fit_u64(n * block_size)
            },
        }
    } else if has_hex_prefix(t) {
        match spec_number_part(t) {
            Err(e) => Err(e),
            Ok(v) => fit_u64(v),
        }
    } else {
        let (num, unit) = spec_split_number_unit(t);
        match spec_number_part(num) {
            Err(e) => Err(e),
            Ok(v) => {
                let m = if unit.len() > 0 && unit.last() == 'B' && unit.contains('i') {
                    spec_binary_multiplier(unit)
                } else if unit.len() > 0 && unit.last() == 'B' {
                    spec_decimal_multiplier(unit)
                } else if unit.len() == 0 {
                    Ok(1)
                } else {
                    Err(ParseSizeError::InvalidUnit)
                };
                match m {
                    Err(e) => Err(e),
                    Ok(m) => if v * m > u128::MAX {
                        Err(ParseSizeError::Overflow)
                    } else {
                        fit_u64(v * m)
                    },
                }
            },
        }
    }
}

fn parse_number_part(s: &[char]) -> (r: Result<u128, ParseSizeError>)
    ensures
        match r {
            Ok(v) => spec_number_part(s@) == Ok::<int, ParseSizeError>(v as int),
            Err(e) => spec_number_part(s@) == Err::<int, ParseSizeError>(e),
        },
{
    proof {
        reveal_strlit("0x");
        reveal_strlit("0X");
    }
    let t = trim_chars(s);
    if t.len() == 0 {
        return Err(ParseSizeError::Empty);
    }
    if starts_with_lit(&t, "0x") || starts_with_lit(&t, "0X") {
        let hex = slice_range(&t, 2, t.len());
        assert(hex@ == t@.skip(2));
        match parse_unsigned(&hex, 16, u128::MAX) {
            Some(v) => Ok(v),
            None => Err(ParseSizeError::InvalidNumber),
        }
    } else if contains_char(&t, '.') {
        Err(ParseSizeError::InvalidNumber)
    } else {
        match parse_unsigned(&t, 10, u128::MAX) {
            Some(v) => Ok(v),
            None => Err(ParseSizeError::InvalidNumber),
        }
    }
}

fn decimal_multiplier(unit: &[char]) -> (r: Result<u128, ParseSizeError>)
    ensures
        match r {
            Ok(v) => spec_decimal_multiplier(unit@) == Ok::<int, ParseSizeError>(v as int),
            Err(e) => spec_decimal_multiplier(unit@) == Err::<int, ParseSizeError>(e),
        },
{
    if is_lit(unit, "") || is_lit(unit, "B") || is_lit(unit, "b") {
        Ok(1)
    } else if is_lit(unit, "kB") {
        Ok(1_000)
    } else if is_lit(unit, "MB") {
        Ok(1_000_000)
    } else if is_lit(unit, "GB") {
        Ok(1_000_000_000)
    } else if is_lit(unit, "TB") {
        Ok(1_000_000_000_000)
    } else {
        Err(ParseSizeError::InvalidUnit)
    }
}

fn binary_multiplier(unit: &[char]) -> (r: Result<u128, ParseSizeError>)
    ensures
        match r {
            Ok(v) => spec_binary_multiplier(unit@) == Ok::<int, ParseSizeError>(v as int),
            Err(e) => spec_binary_multiplier(unit@) == Err::<int, ParseSizeError>(e),
        },
{
    if is_lit(unit, "") || is_lit(unit, "B") || is_lit(unit, "b") {
        Ok(1)
    } else if is_lit(unit, "KiB") || is_lit(unit, "kiB") || is_lit(unit, "K") || is_lit(unit, "k") {
        Ok(1024)
    } else if is_lit(unit, "MiB") || is_lit(unit, "miB") || is_lit(unit, "M") {
        Ok(1048576)
    } else if is_lit(unit, "GiB") || is_lit(unit, "giB") || is_lit(unit, "G") {
        Ok(1073741824)
    } else if is_lit(unit, "TiB") || is_lit(unit, "tiB") || is_lit(unit, "T") {
        Ok(1099511627776)
    } else {
        Err(ParseSizeError::InvalidUnit)
    }
}

/// Reads a size in bytes: `N block` counts blocks of `block_size`, `0x`
/// gives hexadecimal, otherwise a number with an optional decimal or
/// binary unit (`kB`, `MiB`, ...).
pub fn parse_size(input: &str, block_size: u64) -> (r: Result<u64, ParseSizeError>)
    ensures
        match r {
            Ok(v) => spec_parse_size(input@, block_size as int) == Ok::<int, ParseSizeError>(
                v as int,
            ),
            Err(e) => spec_parse_size(input@, block_size as int) == Err::<int, ParseSizeError>(e),
        },
{
    proof {
        reveal_strlit("block");
        reveal_strlit("0x");
        reveal_strlit("0X");
    }
    let all = chars_of(input);
    let t = trim_chars(&all);
    if t.len() == 0 {
        return Err(ParseSizeError::Empty);
    }
    if ends_with_lit(&t, "block") {
        assert(t@.skip(t@.len() - 5) == t@.subrange(t@.len() - 5, t@.len() as int));
        let num = strip_block_suffixes(&t);
        let blocks = match parse_number_part(&num) {
            Ok(v) => v,
            Err(e) => return Err(e),
        };
        let result = match blocks.checked_mul(block_size as u128) {
            Some(v) => v,
            None => return Err(ParseSizeError::Overflow),
        };
        return to_u64(result);
    }
    if starts_with_lit(&t, "0x") || starts_with_lit(&t, "0X") {
        let value = match parse_number_part(&t) {
            Ok(v) => v,
            Err(e) => return Err(e),
        };
        return to_u64(value);
    }
    let (num, unit) = split_number_unit(&t);
    let value = match parse_number_part(&num) {
        Ok(v) => v,
        Err(e) => return Err(e),
    };
    let ends_b = unit.len() > 0 && unit[unit.len() - 1] == 'B';
    let multiplier = if ends_b && contains_char(&unit, 'i') {
        match binary_multiplier(&unit) {
            Ok(m) => m,
            Err(e) => return Err(e),
        }
    } else if ends_b {
        match decimal_multiplier(&unit) {
            Ok(m) => m,
            Err(e) => return Err(e),
        }
    } else if unit.len() == 0 {
        1
    } else {
        return Err(ParseSizeError::InvalidUnit);
    };
    let result = match value.checked_mul(multiplier) {
        Some(v) => v,
        None => return Err(ParseSizeError::Overflow),
    };
    to_u64(result)
}

fn to_u64(v: u128) -> (r: Result<u64, ParseSizeError>)
    ensures
        match r {
            Ok(x) => fit_u64(v as int) == Ok::<int, ParseSizeError>(x as int),
            Err(e) => fit_u64(v as int) == Err::<int, ParseSizeError>(e),
        },
{
    if v <= u64::MAX as u128 {
        Ok(v as u64)
    } else {
        Err(ParseSizeError::Overflow)
    }
}

/// `s` with every trailing `block` removed.
fn strip_block_suffixes(s: &[char]) -> (r: Vec<char>)
    ensures
        r@ == strip_suffixes(s@, "block"@),
{
    proof {
        reveal_strlit("block");
    }
    let ghost p = "block"@;
    let mut end = s.len();
    assert(s@.take(end as int) == s@);
    loop
        invariant
            end <= s@.len(),
            p == "block"@,
            p.len() == 5,
            strip_suffixes(s@, p) == strip_suffixes(s@.take(end as int), p),
        decreases end,
    {
        let cur = slice_range(s, 0, end);
        let ghost u = s@.take(end as int);
        assert(cur@ == u);
        let more = ends_with_lit(&cur, "block");
        if !more {
            proof {
                if end >= 5 {
                    assert(u.skip(u.len() - 5) == u.subrange(u.len() - 5, u.len() as int));
                }
            }
            assert(strip_suffixes(u, p) == u);
            return cur;
        }
        assert(u.skip(u.len() - 5) == u.subrange(u.len() - 5, u.len() as int));
        assert(u.skip(u.len() - p.len()) == p);
        assert(u.take(u.len() - 5) == s@.take(end - 5));
        assert(strip_suffixes(u, p) == strip_suffixes(u.take(u.len() - 5), p));
        end = end - 5;
    }
}

/// Cuts `s` into its leading number and its unit, both trimmed.
fn split_number_unit(s: &[char]) -> (r: (Vec<char>, Vec<char>))
    ensures
        (r.0@, r.1@) == spec_split_number_unit(s@),
{
    let t = trim_chars(s);
    let mut i: usize = 0;
    while i < t.len() && (digit(t[i]) || t[i] == '.')
        invariant
            i <= t@.len(),
            unit_start(t@.take(i as int)) == i,
        decreases t.len() - i,
    {
        assert(t@.take(i + 1).drop_last() == t@.take(i as int));
        i = i + 1;
    }
    proof {
        lemma_unit_start_prefix(t@, i as int);
    }
    if i < t.len() {
        let num = slice_range(&t, 0, i);
        let unit = slice_range(&t, i, t.len());
        assert(num@ == t@.take(i as int));
        assert(unit@ == t@.skip(i as int));
        (trim_chars(&num), trim_chars(&unit))
    } else {
        let empty: Vec<char> = Vec::new();
        proof {
            reveal_strlit("");
        }
        assert(empty@ =~= ""@);
        (t, empty)
    }
}

proof fn lemma_unit_start_prefix(s: Seq<char>, n: int)
    requires
        0 <= n <= s.len(),
        unit_start(s.take(n)) == n,
        n < s.len() ==> !is_digit(s[n]) && s[n] != '.',
    ensures
        unit_start(s) == n,
    decreases s.len() - n,
{
    if n < s.len() {
        assert(s.take(n + 1).drop_last() == s.take(n));
        assert(unit_start(s.take(n + 1)) == n);
        lemma_unit_start_stable(s, n + 1, n);
    } else {
        assert(s.take(n) == s);
    }
}

proof fn lemma_unit_start_stable(s: Seq<char>, m: int, n: int)
    requires
        0 <= n < m <= s.len(),
        unit_start(s.take(m)) == n,
    ensures
        unit_start(s) == n,
    decreases s.len() - m,
{
    if m < s.len() {
        assert(s.take(m + 1).drop_last() == s.take(m));
        lemma_unit_start_stable(s, m + 1, n);
    } else {
        assert(s.take(m) == s);
    }
}


proof fn lemma_digit_char(d: nat)
    requires
        d < 10,
    ensures
        is_digit(digit_char(d)),
        digit_val(digit_char(d), 10) == d,
{
    let c = digit_char(d);
    assert(c as u32 == 48 + d);
}

proof fn lemma_decimal_digits(n: nat)
    ensures
        decimal(n).len() >= 1,
        forall|i: int| 0 <= i < decimal(n).len() ==> is_digit(#[trigger] decimal(n)[i]),
        all_digits(decimal(n), 10),
        digits_value(decimal(n), 10) == n,
    decreases n,
{
    let d = decimal(n);
    if n < 10 {
        lemma_digit_char(n);
        assert(d =~= seq![digit_char(n)]);
        assert(d.drop_last() =~= Seq::<char>::empty());
        assert(digits_value(d.drop_last(), 10) == 0);
        assert(digits_value(d, 10) == digits_value(d.drop_last(), 10) * 10 + digit_val(d.last(), 10));
    } else {
        crate::num::lemma_div_smaller(n, 10);
        lemma_decimal_digits(n / 10);
        let x = decimal(n / 10);
        let c = digit_char(n % 10);
        lemma_digit_char(n % 10);
        assert(d == x.push(c));
        assert(d.drop_last() =~= x);
        assert(d.last() == c);
        assert(digits_value(d, 10) == digits_value(x, 10) * 10 + digit_val(c, 10));
        assert(n == (n / 10) * 10 + n % 10);
        assert forall|i: int| 0 <= i < d.len() implies is_digit(#[trigger] d[i]) by {
            if i < x.len() {
                assert(d[i] == x[i]);
            }
        }
    }
}

proof fn lemma_trim_plain(s: Seq<char>)
    requires
        s.len() > 0,
        !is_space(s[0]),
        !is_space(s.last()),
    ensures
        trim(s) == s,
{
    assert(trim_start(s) == s);
    assert(trim_end(s) == s);
}

proof fn lemma_unit_start_digits(s: Seq<char>)
    requires
        forall|i: int| 0 <= i < s.len() ==> is_digit(#[trigger] s[i]),
    ensures
        unit_start(s) == s.len(),
    decreases s.len(),
{
    if s.len() > 0 {
        let d = s.drop_last();
        assert forall|i: int| 0 <= i < d.len() implies is_digit(#[trigger] d[i]) by {
            assert(d[i] == s[i]);
        }
        lemma_unit_start_digits(d);
        assert(is_digit(s[s.len() - 1]));
    }
}

proof fn lemma_number_part_decimal(n: u64)
    ensures
        spec_number_part(decimal(n as nat)) == Ok::<int, ParseSizeError>(n as int),
{
    reveal_strlit("0x");
    reveal_strlit("0X");
    let t = decimal(n as nat);
    lemma_decimal_digits(n as nat);
    assert(is_digit(t[0]) && is_digit(t[t.len() - 1]));
    lemma_trim_plain(t);
    if t.len() >= 2 {
        assert(is_digit(t[1]));
        assert(t.subrange(0, 2)[1] == t[1]);
    }
    assert(!has_hex_prefix(t));
    assert(!t.contains('.')) by {
        if t.contains('.') {
            let k = choose|k: int| 0 <= k < t.len() && t[k] == '.';
            assert(is_digit(t[k]));
        }
    }
}

/// The decimal text of a 64-bit number reads back as that number; with the
/// unit `KiB` after it, as 1024 times the number, or an overflow where that
/// does not fit in 64 bits.
pub proof fn decimal_sizes_read_back(n: u64, block_size: int)
    ensures
        spec_parse_size(decimal(n as nat), block_size) == Ok::<int, ParseSizeError>(n as int),
        spec_parse_size(decimal(n as nat) + "KiB"@, block_size) == fit_u64(n * 1024),
{
    reveal_strlit("0x");
    reveal_strlit("0X");
    reveal_strlit("block");
    reveal_strlit("KiB");
    reveal_strlit("kiB");
    reveal_strlit("");
    reveal_strlit("B");
    reveal_strlit("b");
    let d = decimal(n as nat);
    lemma_decimal_digits(n as nat);
    lemma_number_part_decimal(n);
    assert(is_digit(d[0]) && is_digit(d[d.len() - 1]));
    // the number alone
    lemma_trim_plain(d);
    if d.len() >= 5 {
        assert(d.skip(d.len() - 5)[4] == d[d.len() - 1]);
        assert(d.skip(d.len() - 5) != "block"@);
    }
    if d.len() >= 2 {
        assert(is_digit(d[1]));
        assert(d.subrange(0, 2)[1] == d[1]);
    }
    assert(!has_hex_prefix(d));
    lemma_unit_start_digits(d);
    assert(spec_split_number_unit(d) == (d, ""@));
    assert(trim(d).len() != 0);
    assert(!(5 <= trim(d).len() && trim(d).skip(trim(d).len() - 5) == "block"@));
    assert(!has_hex_prefix(trim(d)));
    assert(""@.len() == 0);
    assert(n * 1 == n);
    assert(fit_u64(n as int) == Ok::<int, ParseSizeError>(n as int));
    // the number with its unit
    lemma_unit_size(n, "KiB"@, block_size);
    lemma_binary_units();
    assert("KiB"@[0] == 'K' && "KiB"@[2] == 'B');
    assert("KiB"@.contains('i')) by {
        assert("KiB"@[1] == 'i');
    }
}

proof fn lemma_unit_size(n: u64, u: Seq<char>, block_size: int)
    requires
        u.len() > 0,
        u.last() == 'B',
        !is_digit(u[0]),
        u[0] != '.',
        !is_space(u[0]),
        u[0] != 'x',
        u[0] != 'X',
    ensures
        spec_parse_size(decimal(n as nat) + u, block_size) == match (if u.contains('i') {
            spec_binary_multiplier(u)
        } else {
            spec_decimal_multiplier(u)
        }) {
            Ok(m) => if n * m > u128::MAX {
                Err(ParseSizeError::Overflow)
            } else {
                fit_u64(n * m)
            },
            Err(e) => Err(e),
        },
{
    reveal_strlit("0x");
    reveal_strlit("0X");
    reveal_strlit("block");
    let d = decimal(n as nat);
    lemma_decimal_digits(n as nat);
    lemma_number_part_decimal(n);
    assert(is_digit(d[0]));
    let s = d + u;
    assert(s[0] == d[0]);
    assert(s[s.len() - 1] == 'B');
    lemma_trim_plain(s);
    if s.len() >= 5 {
        assert(s.skip(s.len() - 5)[4] == 'B');
        assert(s.skip(s.len() - 5) != "block"@);
    }
    assert(s[1] == u[0] || is_digit(s[1]));
    assert(s.subrange(0, 2)[1] == s[1]);
    assert(!has_hex_prefix(s));
    let k = d.len() as int;
    assert(s.take(k) =~= d);
    assert(s.skip(k) =~= u);
    assert(s[k] == u[0]);
    lemma_unit_start_digits(d);
    lemma_unit_start_prefix(s, k);
    lemma_trim_plain(u);
    assert(spec_split_number_unit(s) == (d, u));
}

proof fn lemma_decimal_units()
    ensures
        spec_decimal_multiplier("B"@) == Ok::<int, ParseSizeError>(1),
        spec_decimal_multiplier("kB"@) == Ok::<int, ParseSizeError>(1_000),
        spec_decimal_multiplier("MB"@) == Ok::<int, ParseSizeError>(1_000_000),
        spec_decimal_multiplier("GB"@) == Ok::<int, ParseSizeError>(1_000_000_000),
        spec_decimal_multiplier("TB"@) == Ok::<int, ParseSizeError>(1_000_000_000_000),
{
    reveal_strlit("");
    reveal_strlit("B");
    reveal_strlit("b");
    reveal_strlit("kB");
    reveal_strlit("MB");
    reveal_strlit("GB");
    reveal_strlit("TB");
    assert(""@.len() == 0 && "B"@.len() == 1 && "b"@.len() == 1);
    assert("kB"@ != ""@ && "kB"@ != "B"@ && "kB"@ != "b"@);
    assert("MB"@ != ""@ && "MB"@ != "B"@ && "MB"@ != "b"@ && "MB"@[0] != "kB"@[0]);
    assert("GB"@ != ""@ && "GB"@ != "B"@ && "GB"@ != "b"@ && "GB"@[0] != "kB"@[0] && "GB"@[0] != "MB"@[0]);
    assert("TB"@ != ""@ && "TB"@ != "B"@ && "TB"@ != "b"@ && "TB"@[0] != "kB"@[0] && "TB"@[0] != "MB"@[0]
        && "TB"@[0] != "GB"@[0]);
}

proof fn lemma_binary_units()
    ensures
        spec_binary_multiplier("KiB"@) == Ok::<int, ParseSizeError>(1024),
        spec_binary_multiplier("kiB"@) == Ok::<int, ParseSizeError>(1024),
        spec_binary_multiplier("MiB"@) == Ok::<int, ParseSizeError>(1_048_576),
        spec_binary_multiplier("miB"@) == Ok::<int, ParseSizeError>(1_048_576),
        spec_binary_multiplier("GiB"@) == Ok::<int, ParseSizeError>(1_073_741_824),
        spec_binary_multiplier("giB"@) == Ok::<int, ParseSizeError>(1_073_741_824),
        spec_binary_multiplier("TiB"@) == Ok::<int, ParseSizeError>(1_099_511_627_776),
        spec_binary_multiplier("tiB"@) == Ok::<int, ParseSizeError>(1_099_511_627_776),
{
    reveal_strlit("");
    reveal_strlit("B");
    reveal_strlit("b");
    reveal_strlit("KiB");
    reveal_strlit("kiB");
    reveal_strlit("K");
    reveal_strlit("k");
    reveal_strlit("MiB");
    reveal_strlit("miB");
    reveal_strlit("M");
    reveal_strlit("GiB");
    reveal_strlit("giB");
    reveal_strlit("G");
    reveal_strlit("TiB");
    reveal_strlit("tiB");
    reveal_strlit("T");
    assert(""@.len() == 0 && "B"@.len() == 1 && "b"@.len() == 1 && "K"@.len() == 1 && "k"@.len() == 1);
    assert("M"@.len() == 1 && "G"@.len() == 1 && "T"@.len() == 1);
    let three = seq!["KiB"@, "kiB"@, "MiB"@, "miB"@, "GiB"@, "giB"@, "TiB"@, "tiB"@];
    assert forall|i: int, j: int| 0 <= i < j < 8 implies three[i] != three[j] by {
        assert(three[i][0] != three[j][0]);
    }
    assert forall|i: int| 0 <= i < 8 implies three[i].len() == 3 by {}
    assert(three[0] == "KiB"@ && three[1] == "kiB"@ && three[2] == "MiB"@ && three[3] == "miB"@);
    assert(three[4] == "GiB"@ && three[5] == "giB"@ && three[6] == "TiB"@ && three[7] == "tiB"@);
}

proof fn lemma_si_unit(n: u64, u: Seq<char>, m: int, block_size: int)
    requires
        u.len() > 0,
        u.last() == 'B',
        !is_digit(u[0]),
        u[0] != '.',
        !is_space(u[0]),
        u[0] != 'x',
        u[0] != 'X',
        !u.contains('i'),
        spec_decimal_multiplier(u) == Ok::<int, ParseSizeError>(m),
        1 <= m <= 1_000_000_000_000,
    ensures
        spec_parse_size(decimal(n as nat) + u, block_size) == fit_u64(n * m),
{
    lemma_unit_size(n, u, block_size);
    assert(n * m <= u128::MAX) by (nonlinear_arith)
        requires
            n <= u64::MAX,
            1 <= m <= 1_000_000_000_000,
    ;
}

proof fn lemma_iec_unit(n: u64, u: Seq<char>, m: int, block_size: int)
    requires
        u.len() > 0,
        u.last() == 'B',
        !is_digit(u[0]),
        u[0] != '.',
        !is_space(u[0]),
        u[0] != 'x',
        u[0] != 'X',
        u.contains('i'),
        spec_binary_multiplier(u) == Ok::<int, ParseSizeError>(m),
        1 <= m <= 1_099_511_627_776,
    ensures
        spec_parse_size(decimal(n as nat) + u, block_size) == fit_u64(n * m),
{
    lemma_unit_size(n, u, block_size);
    assert(n * m <= u128::MAX) by (nonlinear_arith)
        requires
            n <= u64::MAX,
            1 <= m <= 1_099_511_627_776,
    ;
}

/// A number followed by a decimal (SI) unit is that number times the
/// unit's power of ten: `B` one, `kB` a thousand, `MB` a million, `GB` 10^9,
/// `TB` 10^12; a product beyond 64 bits is an overflow.
#[verifier::rlimit(50)]
pub proof fn si_unit_sizes(n: u64, block_size: int)
    ensures
        spec_parse_size(decimal(n as nat) + "B"@, block_size) == fit_u64(n * 1),
        spec_parse_size(decimal(n as nat) + "kB"@, block_size) == fit_u64(n * 1_000),
        spec_parse_size(decimal(n as nat) + "MB"@, block_size) == fit_u64(n * 1_000_000),
        spec_parse_size(decimal(n as nat) + "GB"@, block_size) == fit_u64(n * 1_000_000_000),
        spec_parse_size(decimal(n as nat) + "TB"@, block_size) == fit_u64(n * 1_000_000_000_000),
{
    lemma_decimal_units();
    assert(spec_parse_size(decimal(n as nat) + "B"@, block_size) == fit_u64(n * 1)) by {
        reveal_strlit("B");
        assert(!"B"@.contains('i'));
        lemma_si_unit(n, "B"@, 1int, block_size);
    }
    assert(spec_parse_size(decimal(n as nat) + "kB"@, block_size) == fit_u64(n * 1_000)) by {
        reveal_strlit("kB");
        assert(!"kB"@.contains('i'));
        lemma_si_unit(n, "kB"@, 1_000int, block_size);
    }
    assert(spec_parse_size(decimal(n as nat) + "MB"@, block_size) == fit_u64(n * 1_000_000)) by {
        reveal_strlit("MB");
        assert(!"MB"@.contains('i'));
        lemma_si_unit(n, "MB"@, 1_000_000int, block_size);
    }
    assert(spec_parse_size(decimal(n as nat) + "GB"@, block_size) == fit_u64(n * 1_000_000_000)) by {
        reveal_strlit("GB");
        assert(!"GB"@.contains('i'));
        lemma_si_unit(n, "GB"@, 1_000_000_000int, block_size);
    }
    assert(spec_parse_size(decimal(n as nat) + "TB"@, block_size) == fit_u64(n * 1_000_000_000_000)) by {
        reveal_strlit("TB");
        assert(!"TB"@.contains('i'));
        lemma_si_unit(n, "TB"@, 1_000_000_000_000int, block_size);
    }
}

/// A number followed by a binary (IEC) unit is that number times the unit's
/// power of 1024: `KiB` 1024, `MiB` 1024^2, `GiB` 1024^3, `TiB` 1024^4 (also
/// with a lower-case first letter); a product beyond 64 bits is an overflow.
#[verifier::rlimit(50)]
pub proof fn iec_unit_sizes(n: u64, block_size: int)
    ensures
        spec_parse_size(decimal(n as nat) + "KiB"@, block_size) == fit_u64(n * 1024),
        spec_parse_size(decimal(n as nat) + "kiB"@, block_size) == fit_u64(n * 1024),
        spec_parse_size(decimal(n as nat) + "MiB"@, block_size) == fit_u64(n * 1024 * 1024),
        spec_parse_size(decimal(n as nat) + "miB"@, block_size) == fit_u64(n * 1024 * 1024),
        spec_parse_size(decimal(n as nat) + "GiB"@, block_size) == fit_u64(n * 1024 * 1024 * 1024),
        spec_parse_size(decimal(n as nat) + "giB"@, block_size) == fit_u64(n * 1024 * 1024 * 1024),
        spec_parse_size(decimal(n as nat) + "TiB"@, block_size) == fit_u64(n * 1024 * 1024 * 1024 * 1024),
        spec_parse_size(decimal(n as nat) + "tiB"@, block_size) == fit_u64(n * 1024 * 1024 * 1024 * 1024),
{
    lemma_binary_units();
    assert(spec_parse_size(decimal(n as nat) + "KiB"@, block_size) == fit_u64(n * 1024)) by {
        reveal_strlit("KiB");
        assert("KiB"@[1] == 'i');
        lemma_iec_unit(n, "KiB"@, (1024) as int, block_size);
    }
    assert(spec_parse_size(decimal(n as nat) + "kiB"@, block_size) == fit_u64(n * 1024)) by {
        reveal_strlit("kiB");
        assert("kiB"@[1] == 'i');
        lemma_iec_unit(n, "kiB"@, (1024) as int, block_size);
    }
    assert(spec_parse_size(decimal(n as nat) + "MiB"@, block_size) == fit_u64(n * 1024 * 1024)) by {
        reveal_strlit("MiB");
        assert("MiB"@[1] == 'i');
        lemma_iec_unit(n, "MiB"@, (1024 * 1024) as int, block_size);
    }
    assert(spec_parse_size(decimal(n as nat) + "miB"@, block_size) == fit_u64(n * 1024 * 1024)) by {
        reveal_strlit("miB");
        assert("miB"@[1] == 'i');
        lemma_iec_unit(n, "miB"@, (1024 * 1024) as int, block_size);
    }
    assert(spec_parse_size(decimal(n as nat) + "GiB"@, block_size) == fit_u64(n * 1024 * 1024 * 1024)) by {
        reveal_strlit("GiB");
        assert("GiB"@[1] == 'i');
        lemma_iec_unit(n, "GiB"@, (1024 * 1024 * 1024) as int, block_size);
    }
    assert(spec_parse_size(decimal(n as nat) + "giB"@, block_size) == fit_u64(n * 1024 * 1024 * 1024)) by {
        reveal_strlit("giB");
        assert("giB"@[1] == 'i');
        lemma_iec_unit(n, "giB"@, (1024 * 1024 * 1024) as int, block_size);
    }
    assert(spec_parse_size(decimal(n as nat) + "TiB"@, block_size) == fit_u64(n * 1024 * 1024 * 1024 * 1024)) by {
        reveal_strlit("TiB");
        assert("TiB"@[1] == 'i');
        lemma_iec_unit(n, "TiB"@, (1024 * 1024 * 1024 * 1024) as int, block_size);
    }
    assert(spec_parse_size(decimal(n as nat) + "tiB"@, block_size) == fit_u64(n * 1024 * 1024 * 1024 * 1024)) by {
        reveal_strlit("tiB");
        assert("tiB"@[1] == 'i');
        lemma_iec_unit(n, "tiB"@, (1024 * 1024 * 1024 * 1024) as int, block_size);
    }
}

} // verus!
