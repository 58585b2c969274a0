//! Integer literals as std's `from_str_radix` and `str::parse` read them.
use vstd::prelude::*;

verus! {

/// The value of digit `c` in base `radix` (letters count from ten), or -1.
pub open spec fn digit_val(c: char, radix: int) -> int {
    let v: int = if '0' <= c && c <= '9' {
        (c as u32) - ('0' as u32)
    } else if 'a' <= c && c <= 'z' {
        (c as u32) - ('a' as u32) + 10
    } else if 'A' <= c && c <= 'Z' {
        (c as u32) - ('A' as u32) + 10
    } else {
        -1
    };
    if v < radix {
        v
    } else {
        -1
    }
}

/// Every character of `s` is a digit in base `radix`.
pub open spec fn all_digits(s: Seq<char>, radix: int) -> bool {
    forall|i: int| 0 <= i < s.len() ==> digit_val(#[trigger] s[i], radix) >= 0
}

/// The number that the digits `s` spell in base `radix`.
pub open spec fn digits_value(s: Seq<char>, radix: int) -> int
    decreases s.len(),
{
    if s.len() == 0 {
        0
    } else {
        digits_value(s.drop_last(), radix) * radix + digit_val(s.last(), radix)
    }
}

/// The unbounded value that `from_str_radix` reads from `s`: an optional
/// `+` (or `-` when `signed`) and at least one digit.
pub open spec fn literal_value(s: Seq<char>, radix: int, signed: bool) -> Option<int> {
    if s.len() == 0 {
        None
    } else if (s[0] == '+' || s[0] == '-') && s.len() == 1 {
        None
    } else if s[0] == '+' {
        if all_digits(s.drop_first(), radix) {
            Some(digits_value(s.drop_first(), radix))
        } else {
            None
        }
    } else if s[0] == '-' && signed {
        if all_digits(s.drop_first(), radix) {
            Some(-digits_value(s.drop_first(), radix))
        } else {
            None
        }
    } else if all_digits(s, radix) {
        Some(digits_value(s, radix))
    } else {
        None
    }
}

/// `s` read as an integer of the range `[lo, hi]`, as std's parsers do.
pub open spec fn parse_in_range(s: Seq<char>, radix: int, signed: bool, lo: int, hi: int) -> Option<
    int,
> {
    match literal_value(s, radix, signed) {
        Some(v) => if lo <= v <= hi {
            Some(v)
        } else {
            None
        },
        None => None,
    }
}

/// `s.parse::<i64>()` succeeds with this value.
pub open spec fn spec_parse_i64(s: Seq<char>) -> Option<int> {
    parse_in_range(s, 10, true, i64::MIN as int, i64::MAX as int)
}

pub proof fn lemma_digits_value_nonneg(s: Seq<char>, radix: int)
    requires
        all_digits(s, radix),
        radix >= 1,
    ensures
        digits_value(s, radix) >= 0,
    decreases s.len(),
{
    if s.len() > 0 {
        assert(all_digits(s.drop_last(), radix)) by {
            assert forall|i: int| 0 <= i < s.drop_last().len() implies digit_val(
                #[trigger] s.drop_last()[i],
                radix,
            ) >= 0 by {
                assert(s.drop_last()[i] == s[i]);
            }
        }
        lemma_digits_value_nonneg(s.drop_last(), radix);
        assert(digit_val(s[s.len() - 1], radix) >= 0);
        assert(digits_value(s.drop_last(), radix) * radix >= 0) by (nonlinear_arith)
            requires
                digits_value(s.drop_last(), radix) >= 0,
                radix >= 1,
        ;
    }
}

proof fn lemma_digits_prefix_le(s: Seq<char>, n: int, radix: int)
    requires
        0 <= n <= s.len(),
        all_digits(s, radix),
        radix >= 1,
    ensures
        digits_value(s.take(n), radix) <= digits_value(s, radix),
    decreases s.len() - n,
{
    if n < s.len() {
        lemma_digits_prefix_le(s, n + 1, radix);
        let t = s.take(n + 1);
        assert(t.drop_last() == s.take(n));
        assert(all_digits(s.take(n), radix)) by {
            assert forall|i: int| 0 <= i < s.take(n).len() implies digit_val(
                #[trigger] s.take(n)[i],
                radix,
            ) >= 0 by {
                assert(s.take(n)[i] == s[i]);
            }
        }
        lemma_digits_value_nonneg(s.take(n), radix);
        assert(digit_val(t.last(), radix) >= 0) by {
            assert(t.last() == s[n]);
        }
        let a = digits_value(s.take(n), radix);
        assert(a <= a * radix) by (nonlinear_arith)
            requires
                a >= 0,
                radix >= 1,
        ;
    } else {
        assert(s.take(n) == s);
    }
}

/// The value of digit `c` in base `radix`, if it is one.
pub fn digit_of(c: char, radix: u32) -> (r: Option<u32>)
    requires
        2 <= radix <= 36,
    ensures
        r is Some <==> digit_val(c, radix as int) >= 0,
        r matches Some(d) ==> d == digit_val(c, radix as int) && d < radix,
{
    let v: u32 = if '0' <= c && c <= '9' {
        (c as u32) - ('0' as u32)
    } else if 'a' <= c && c <= 'z' {
        (c as u32) - ('a' as u32) + 10
    } else if 'A' <= c && c <= 'Z' {
        (c as u32) - ('A' as u32) + 10
    } else {
        return None;
    };
    if v < radix {
        Some(v)
    } else {
        None
    }
}

/// The digits `s[from..]` read in base `radix`, when all are digits and the
/// value is at most `limit`.
pub fn parse_digits(s: &[char], from: usize, radix: u32, limit: u128) -> (r: Option<u128>)
    requires
        from <= s@.len(),
        2 <= radix <= 36,
    ensures
        r matches Some(v) ==> all_digits(s@.skip(from as int), radix as int) && v
            == digits_value(s@.skip(from as int), radix as int) && v <= limit,
        r is None ==> !all_digits(s@.skip(from as int), radix as int) || digits_value(
            s@.skip(from as int),
            radix as int,
        ) > limit,
{
    let ghost t = s@.skip(from as int);
    let mut acc: u128 = 0;
    let mut i = from;
    while i < s.len()
        invariant
            from <= i <= s@.len(),
            2 <= radix <= 36,
            t == s@.skip(from as int),
            all_digits(t.take(i - from), radix as int),
            acc == digits_value(t.take(i - from), radix as int),
            acc <= limit,
        decreases s.len() - i,
    {
        let ghost k: int = i - from;
        assert(t.take(k + 1).drop_last() == t.take(k));
        assert(t.take(k + 1).last() == s@[i as int]);
        match digit_of(s[i], radix) {
            None => {
                assert(!all_digits(t, radix as int)) by {
                    assert(t[k] == s@[i as int]);
                }
                return None;
            },
            Some(d) => {
                let next = match acc.checked_mul(radix as u128) {
                    Some(m) => m.checked_add(d as u128),
                    None => None,
                };
                match next {
                    Some(n) if n <= limit => {
                        assert(all_digits(t.take(k + 1), radix as int)) by {
                            assert forall|j: int| 0 <= j < t.take(k + 1).len() implies digit_val(
                                #[trigger] t.take(k + 1)[j],
                                radix as int,
                            ) >= 0 by {
                                if j < k {
                                    assert(t.take(k + 1)[j] == t.take(k)[j]);
                                }
                            }
                        }
                        acc = n;
                    },
                    _ => {
                        proof {
                            if all_digits(t, radix as int) {
                                assert(all_digits(t.take(k + 1), radix as int)) by {
                                    assert forall|j: int|
                                        0 <= j < t.take(k + 1).len() implies digit_val(
                                        #[trigger] t.take(k + 1)[j],
                                        radix as int,
                                    ) >= 0 by {
                                        assert(t.take(k + 1)[j] == t[j]);
                                    }
                                }
                                lemma_digits_prefix_le(t, k + 1, radix as int);
                                assert(acc * radix + d > limit);
                            }
                        }
                        return None;
                    },
                }
            },
        }
        i = i + 1;
    }
    assert(t.take(i - from) == t);
    Some(acc)
}

/// `s` read as std's `i64` parser reads it.
pub fn parse_i64(s: &[char]) -> (r: Option<i64>)
    ensures
        r matches Some(v) ==> spec_parse_i64(s@) == Some(v as int),
        r is None ==> spec_parse_i64(s@) is None,
{
    parse_signed(s, 10, i64::MAX as u128)
}

/// `s` read as a signed integer in base `radix` with magnitude bound `max`
/// (`max + 1` for negative values), as std's `from_str_radix` reads it.
fn parse_signed(s: &[char], radix: u32, max: u128) -> (r: Option<i64>)
    requires
        2 <= radix <= 36,
        max == i64::MAX,
    ensures
        r matches Some(v) ==> parse_in_range(s@, radix as int, true, i64::MIN as int, i64::MAX as int)
            == Some(v as int),
        r is None ==> parse_in_range(s@, radix as int, true, i64::MIN as int, i64::MAX as int) is None,
{
    if s.len() == 0 {
        return None;
    }
    if (s[0] == '+' || s[0] == '-') && s.len() == 1 {
        return None;
    }
    if s[0] == '-' {
        assert(s@.skip(1) == s@.drop_first());
        match parse_digits(s, 1, radix, max + 1) {
            Some(v) => {
                if v == max + 1 {
                    Some(i64::MIN)
                } else {
                    Some(-(v as i64))
                }
            },
            None => None,
        }
    } else {
        let from: usize = if s[0] == '+' {
            1
        } else {
            0
        };
        assert(s@.skip(1) == s@.drop_first());
        assert(s@.skip(0) == s@);
        match parse_digits(s, from, radix, max) {
            Some(v) => Some(v as i64),
            None => {
                proof {
                    if all_digits(s@.skip(from as int), radix as int) {
                        lemma_digits_value_nonneg(s@.skip(from as int), radix as int);
                    }
                }
                None
            },
        }
    }
}

/// `s` read as std's unsigned parsers read it in base `radix`, bounded by `max`.
pub fn parse_unsigned(s: &[char], radix: u32, max: u128) -> (r: Option<u128>)
    requires
        2 <= radix <= 36,
    ensures
        r matches Some(v) ==> parse_in_range(s@, radix as int, false, 0, max as int) == Some(
            v as int,
        ),
        r is None ==> parse_in_range(s@, radix as int, false, 0, max as int) is None,
{
    if s.len() == 0 {
        return None;
    }
    if (s[0] == '+' || s[0] == '-') && s.len() == 1 {
        return None;
    }
    let from: usize = if s[0] == '+' {
        1
    } else {
        0
    };
    assert(s@.skip(1) == s@.drop_first());
    assert(s@.skip(0) == s@);
    match parse_digits(s, from, radix, max) {
        Some(v) => {
            proof {
                lemma_digits_value_nonneg(s@.skip(from as int), radix as int);
            }
            Some(v)
        },
        None => {
            proof {
                if all_digits(s@.skip(from as int), radix as int) {
                    lemma_digits_value_nonneg(s@.skip(from as int), radix as int);
                }
            }
            None
        },
    }
}

/// The lower-case digit character for `d < 36`.
pub open spec fn digit_char(d: nat) -> char {
    if d < 10 {
        (('0' as u32) + d) as char
    } else {
        (('a' as u32) + d - 10) as char
    }
}

/// The digits of `n` in base `radix`, most significant first, without leading zeros.
pub open spec fn radix_digits(n: nat, radix: nat) -> Seq<char>
    decreases n,
{
    if radix < 2 || n < radix {
        seq![digit_char(n)]
    } else {
        proof {
            lemma_div_smaller(n, radix);
        }
        radix_digits(n / radix, radix).push(digit_char(n % radix))
    }
}

/// Dividing by a base of at least two makes a number of at least that base smaller.
pub proof fn lemma_div_smaller(n: nat, radix: nat)
    requires
        radix >= 2,
        n >= radix,
    ensures
        n / radix < n,
{
    assert(n / radix < n) by (nonlinear_arith)
        requires
            radix >= 2,
            n >= radix,
    ;
}

/// The decimal digits of `n`.
pub open spec fn decimal(n: nat) -> Seq<char> {
    radix_digits(n, 10)
}

/// The decimal form of a signed integer, with a leading `-` when negative.
pub open spec fn signed_decimal(n: int) -> Seq<char> {
    if n < 0 {
        seq!['-'] + decimal((-n) as nat)
    } else {
        decimal(n as nat)
    }
}

/// `s` padded on the left with `pad` up to `width` characters.
pub open spec fn pad_left(s: Seq<char>, width: nat, pad: char) -> Seq<char> {
    if s.len() >= width {
        s
    } else {
        Seq::new((width - s.len()) as nat, |i: int| pad) + s
    }
}

/// The character of digit `d` (lower-case letters above nine).
pub fn digit_to_char(d: u64) -> (c: char)
    requires
        d < 36,
    ensures
        c == digit_char(d as nat),
{
    if d < 10 {
        let b = (48 + d) as u8;
        crate::text::char_from_ascii(b)
    } else {
        let b = (97 + d - 10) as u8;
        crate::text::char_from_ascii(b)
    }
}

/// Appends the digits of `n` in base `radix` to `s`.
pub fn push_radix(s: &mut String, n: u64, radix: u64)
    requires
        2 <= radix <= 36,
    ensures
        final(s)@ == old(s)@ + radix_digits(n as nat, radix as nat),
    decreases n,
{
    if n < radix {
        crate::text::push_char(s, digit_to_char(n));
    } else {
        proof {
            lemma_div_smaller(n as nat, radix as nat);
        }
        push_radix(s, n / radix, radix);
        crate::text::push_char(s, digit_to_char(n % radix));
        assert(old(s)@ + radix_digits(n as nat, radix as nat) == old(s)@ + radix_digits(
            (n / radix) as nat,
            radix as nat,
        ) + seq![digit_char((n % radix) as nat)]);
    }
}

/// The digits of `n` in base `radix`, left-padded with zeros to `width`.
pub fn radix_padded(n: u64, radix: u64, width: usize) -> (s: String)
    requires
        2 <= radix <= 36,
    ensures
        s@ == pad_left(radix_digits(n as nat, radix as nat), width as nat, '0'),
{
    let mut digits = String::new();
    push_radix(&mut digits, n, radix);
    let len = digits.as_str().unicode_len();
    if len >= width {
        assert(digits@ == radix_digits(n as nat, radix as nat));
        return digits;
    }
    let mut s = String::new();
    let mut i: usize = 0;
    while i < width - len
        invariant
            len < width,
            i <= width - len,
            s@ == Seq::new(i as nat, |j: int| '0'),
        decreases width - len - i,
    {
        crate::text::push_char(&mut s, '0');
        assert(s@ =~= Seq::new((i + 1) as nat, |j: int| '0'));
        i = i + 1;
    }
    crate::text::push_str(&mut s, digits.as_str());
    s
}

/// The decimal form of a signed 64-bit integer.
pub fn i64_to_string(n: i64) -> (s: String)
    ensures
        s@ == signed_decimal(n as int),
{
    let mut s = String::new();
    if n < 0 {
        crate::text::push_char(&mut s, '-');
        let m: u64 = if n == i64::MIN {
            9223372036854775808
        } else {
            (-n) as u64
        };
        push_radix(&mut s, m, 10);
    } else {
        push_radix(&mut s, n as u64, 10);
    }
    s
}


/// `r` to the power `k`.
pub open spec fn rpow(r: nat, k: nat) -> nat
    decreases k,
{
    if k == 0 {
        1
    } else {
        r * rpow(r, (k - 1) as nat)
    }
}

/// `c` is an upper-case ASCII letter.
pub open spec fn is_upper(c: char) -> bool {
    'A' <= c && c <= 'Z'
}

/// The character of a digit below the base is read back as that digit,
/// and is never an upper-case letter.
pub proof fn lemma_digit_char_val(d: nat, r: nat)
    requires
        d < r <= 36,
    ensures
        digit_val(digit_char(d), r as int) == d,
        !is_upper(digit_char(d)),
{
    let c = digit_char(d);
    if d < 10 {
        assert(c as u32 == 48 + d);
    } else {
        assert(c as u32 == 97 + d - 10);
    }
}

/// The digits of `n` in base `r` are digits of that base, none upper-case,
/// and their value is `n`.
pub proof fn lemma_radix_digits(n: nat, r: nat)
    requires
        2 <= r <= 36,
    ensures
        radix_digits(n, r).len() >= 1,
        all_digits(radix_digits(n, r), r as int),
        digits_value(radix_digits(n, r), r as int) == n,
        forall|i: int| 0 <= i < radix_digits(n, r).len() ==> !is_upper(#[trigger] radix_digits(n, r)[i]),
    decreases n,
{
    let d = radix_digits(n, r);
    if n < r {
        lemma_digit_char_val(n, r);
        assert(d =~= seq![digit_char(n)]);
        assert(d.drop_last() =~= Seq::<char>::empty());
        assert(digits_value(d.drop_last(), r as int) == 0);
    } else {
        lemma_div_smaller(n, r);
        lemma_radix_digits(n / r, r);
        let x = radix_digits(n / r, r);
        let c = digit_char(n % r);
        lemma_digit_char_val(n % r, r);
        assert(d == x.push(c));
        assert(d.drop_last() =~= x);
        assert(digits_value(d, r as int) == digits_value(x, r as int) * r + digit_val(c, r as int));
        assert(n == (n / r) * r + n % r) by (nonlinear_arith)
            requires
                r >= 2,
        ;
        assert forall|i: int| 0 <= i < d.len() implies digit_val(#[trigger] d[i], r as int) >= 0 && !is_upper(d[i]) by {
            if i < x.len() {
                assert(d[i] == x[i]);
            }
        }
    }
}

/// A number below `r` to the power `k` has at most `k` digits in base `r`.
pub proof fn lemma_radix_len(n: nat, r: nat, k: nat)
    requires
        2 <= r,
        k >= 1,
        n < rpow(r, k),
    ensures
        radix_digits(n, r).len() <= k,
    decreases n,
{
    if n >= r {
        let b = rpow(r, (k - 1) as nat);
        if k == 1 {
            assert(rpow(r, 0) == 1);
            assert(rpow(r, 1) == r * 1);
        }
        assert(k >= 2);
        assert(n / r < b) by (nonlinear_arith)
            requires
                n < r * b,
                r >= 2,
        ;
        lemma_div_smaller(n, r);
        lemma_radix_len(n / r, r, (k - 1) as nat);
    }
}

proof fn lemma_zeros_value(k: nat, r: int)
    requires
        r >= 2,
    ensures
        all_digits(Seq::new(k, |i: int| '0'), r),
        digits_value(Seq::new(k, |i: int| '0'), r) == 0,
    decreases k,
{
    let z = Seq::new(k, |i: int| '0');
    assert(digit_val('0', r) == 0);
    if k > 0 {
        lemma_zeros_value((k - 1) as nat, r);
        assert(z.drop_last() =~= Seq::new((k - 1) as nat, |i: int| '0'));
    }
}

proof fn lemma_prefix_zeros_value(z: Seq<char>, x: Seq<char>, r: int)
    requires
        r >= 2,
        all_digits(z, r),
        digits_value(z, r) == 0,
    ensures
        digits_value(z + x, r) == digits_value(x, r),
    decreases x.len(),
{
    if x.len() == 0 {
        assert(z + x =~= z);
    } else {
        lemma_prefix_zeros_value(z, x.drop_last(), r);
        assert((z + x).drop_last() =~= z + x.drop_last());
        assert((z + x).last() == x.last());
    }
}

/// Padding digits on the left with zeros keeps them digits of the base,
/// keeps their value, and makes them at least `w` long.
pub proof fn lemma_pad_zeros(s: Seq<char>, w: nat, r: int)
    requires
        r >= 2,
        all_digits(s, r),
        forall|i: int| 0 <= i < s.len() ==> !is_upper(#[trigger] s[i]),
    ensures
        all_digits(pad_left(s, w, '0'), r),
        digits_value(pad_left(s, w, '0'), r) == digits_value(s, r),
        pad_left(s, w, '0').len() == if s.len() >= w {
            s.len() as int
        } else {
            w as int
        },
        forall|i: int| 0 <= i < pad_left(s, w, '0').len() ==> !is_upper(#[trigger] pad_left(s, w, '0')[i]),
{
    if s.len() < w {
        let z = Seq::new((w - s.len()) as nat, |i: int| '0');
        lemma_zeros_value((w - s.len()) as nat, r);
        lemma_prefix_zeros_value(z, s, r);
        let p = z + s;
        assert(pad_left(s, w, '0') == p);
        assert forall|i: int| 0 <= i < p.len() implies digit_val(#[trigger] p[i], r) >= 0 && !is_upper(p[i]) by {
            if i < z.len() {
                assert(p[i] == '0');
                assert(digit_val('0', r) == 0);
            } else {
                assert(p[i] == s[i - z.len()]);
            }
        }
    }
}

/// `n`, below `r` to the power `w`, written in base `r` with zeros in
/// front to exactly `w` digits: digits of that base, none upper-case,
/// whose value is `n`.
pub proof fn lemma_padded_number(n: nat, r: nat, w: nat)
    requires
        2 <= r <= 36,
        w >= 1,
        n < rpow(r, w),
    ensures
        ({
            let t = pad_left(radix_digits(n, r), w, '0');
            &&& t.len() == w
            &&& all_digits(t, r as int)
            &&& digits_value(t, r as int) == n
            &&& forall|i: int| 0 <= i < t.len() ==> !is_upper(#[trigger] t[i])
        }),
{
    lemma_radix_digits(n, r);
    lemma_radix_len(n, r, w);
    lemma_pad_zeros(radix_digits(n, r), w, r as int);
}

/// The decimal text of `n` reads back as `n` wherever `n` is in range.
pub proof fn lemma_parse_decimal(n: nat, hi: int)
    ensures
        parse_in_range(decimal(n), 10, false, 0, hi) == if n <= hi {
            Some(n as int)
        } else {
            None::<int>
        },
{
    lemma_radix_digits(n, 10);
    let d = decimal(n);
    assert(digit_val(d[0], 10) >= 0);
    assert(d[0] != '+' && d[0] != '-');
}
} // verus!
