//! Output templates such as `{1}-{2:}`: literal text with placeholders that a
//! resolver fills in.
use vstd::prelude::*;
use crate::cutter::{spec_split_normal, split_normal};
use crate::num::{parse_i64, spec_parse_i64};
use crate::text::{
    chars_of, join, join_strings, push_char, push_str, split_once, string_of_range, to_string,
};

verus! {

/// `s` with every occurrence of the non-empty `from` replaced by `to`, left
/// to right (`str::replace`).
pub open spec fn replace_all(s: Seq<char>, from: Seq<char>, to: Seq<char>) -> Seq<char> {
    join(spec_split_normal(s, from), to)
}

/// A placeholder's value with the escapes `\n`, `\t` and `\r` turned into
/// the characters they name, in that order.
pub open spec fn spec_unescape_format(s: Seq<char>) -> Seq<char> {
    replace_all(
        replace_all(replace_all(s, "\\n"@, "\n"@), "\\t"@, "\t"@),
        "\\r"@,
        "\r"@,
    )
}

/// `s` with `from` replaced by `to`.
fn replace_str(s: &str, from: &str, to: &str) -> (r: String)
    ensures
        r@ == replace_all(s@, from@, to@),
{
    let pieces = split_normal(s, from);
    join_strings(pieces.as_slice(), to)
}

/// Turns the escapes `\n`, `\t` and `\r` in `s` into the characters they name.
fn unescape_format(s: &str) -> (r: String)
    ensures
        r@ == spec_unescape_format(s@),
{
    let a = replace_str(s, "\\n", "\n");
    let b = replace_str(a.as_str(), "\\t", "\t");
    replace_str(b.as_str(), "\\r", "\r")
}

/// The error for an index text that is not a number.
pub open spec fn invalid_index(s: Seq<char>) -> Seq<char> {
    "Invalid index `"@ + s + "`"@
}

/// What the resolver is asked for a placeholder's inner text: `{n}` asks for
/// index `n`; `{n:}` for the range from `n` to the end; `{n:m}` for the
/// range from `n` to `m`.
pub open spec fn spec_placeholder_args(inner: Seq<char>) -> Result<(i64, Option<i64>, Option<i64>), Seq<char>> {
    match split_once(inner, ':') {
        Some((a, rest)) => match spec_parse_i64(a) {
            None => Err(invalid_index(a)),
            Some(s) => if rest.len() == 0 {
                Ok((s as i64, Some(s as i64), Some(0i64)))
            } else {
                match spec_parse_i64(rest) {
                    None => Err(invalid_index(rest)),
                    Some(e) => Ok((s as i64, Some(s as i64), Some(e as i64))),
                }
            },
        },
        None => match spec_parse_i64(inner) {
            None => Err(invalid_index(inner)),
            Some(i) => Ok((i as i64, None, None)),
        },
    }
}

/// The error text for `s`.
fn invalid_index_message(s: &[char]) -> (m: String)
    ensures
        m@ == invalid_index(s@),
{
    let mut m = to_string("Invalid index `");
    crate::text::push_chars(&mut m, s);
    push_str(&mut m, "`");
    m
}

/// Reads a placeholder's inner text into the resolver's arguments.
fn placeholder_args(inner: &[char]) -> (r: Result<(i64, Option<i64>, Option<i64>), String>)
    ensures
        match r {
            Ok(v) => spec_placeholder_args(inner@) == Ok::<(i64, Option<i64>, Option<i64>), Seq<char>>(v),
            Err(e) => spec_placeholder_args(inner@) == Err::<(i64, Option<i64>, Option<i64>), Seq<char>>(
                e@,
            ),
        },
{
    let k = crate::text::find_char(inner, ':');
    if k < inner.len() {
        let a = crate::text::slice_range(inner, 0, k);
        let rest = crate::text::slice_range(inner, k + 1, inner.len());
        assert(a@ == inner@.take(k as int));
        assert(rest@ == inner@.skip(k + 1));
        let s = match parse_i64(a.as_slice()) {
            Some(v) => v,
            None => return Err(invalid_index_message(a.as_slice())),
        };
        if rest.len() == 0 {
            return Ok((s, Some(s), Some(0)));
        }
        match parse_i64(rest.as_slice()) {
            Some(e) => Ok((s, Some(s), Some(e))),
            None => Err(invalid_index_message(rest.as_slice())),
        }
    } else {
        match parse_i64(inner) {
            Some(i) => Ok((i, None, None)),
            None => Err(invalid_index_message(inner)),
        }
    }
}

/// Index of the first `}` in `t` at or after `i`, or `t.len()`.
pub open spec fn close_index(t: Seq<char>, i: int) -> int
    decreases t.len() - i,
{
    if i < 0 || i >= t.len() {
        t.len() as int
    } else if t[i] == '}' {
        i
    } else {
        close_index(t, i + 1)
    }
}

proof fn lemma_close_index(t: Seq<char>, i: int)
    requires
        0 <= i <= t.len(),
    ensures
        i <= close_index(t, i) <= t.len(),
    decreases t.len() - i,
{
    if i < t.len() && t[i] != '}' {
        lemma_close_index(t, i + 1);
    }
}

/// The view of a resolver's answer.
pub open spec fn answer_view(r: Result<String, String>) -> Result<Seq<char>, Seq<char>> {
    match r {
        Ok(v) => Ok(v@),
        Err(e) => Err(e@),
    }
}

/// Whether filling template `t`, from position `i` with `out` written so
/// far, can end in `result`, when the resolver may answer `(a, b, c)` with
/// `r` exactly when `ans(a, b, c, r)`. `{{` and `}}` stand for braces, `\n`
/// for a newline and `\x` for `x`; a `{` without a closing `}` is literal.
pub open spec fn template_yields(
    t: Seq<char>,
    i: int,
    out: Seq<char>,
    ans: spec_fn(i64, Option<i64>, Option<i64>, Result<String, String>) -> bool,
    result: Result<Seq<char>, Seq<char>>,
) -> bool
    decreases t.len() - i,
{
    if i < 0 || i >= t.len() {
        result == Ok::<Seq<char>, Seq<char>>(out)
    } else if t[i] == '{' && i + 1 < t.len() && t[i + 1] == '{' {
        template_yields(t, i + 2, out.push('{'), ans, result)
    } else if t[i] == '}' && i + 1 < t.len() && t[i + 1] == '}' {
        template_yields(t, i + 2, out.push('}'), ans, result)
    } else if t[i] == '{' {
        let j = close_index(t, i + 1);
        if j >= t.len() || j <= i {
            template_yields(t, i + 1, out.push('{'), ans, result)
        } else {
            match spec_placeholder_args(t.subrange(i + 1, j)) {
                Err(e) => result == Err::<Seq<char>, Seq<char>>(e),
                Ok((a, b, c)) => exists|r: Result<String, String>|
                    #![trigger ans(a, b, c, r)]
                    ans(a, b, c, r) && match r {
                        Err(e) => result == Err::<Seq<char>, Seq<char>>(e@),
                        Ok(v) => template_yields(
                            t,
                            j + 1,
                            out + spec_unescape_format(v@),
                            ans,
                            result,
                        ),
                    },
            }
        }
    } else if t[i] == '\\' && i + 1 < t.len() {
        if t[i + 1] == 'n' {
            template_yields(t, i + 2, out.push('\n'), ans, result)
        } else {
            template_yields(t, i + 2, out.push(t[i + 1]), ans, result)
        }
    } else {
        template_yields(t, i + 1, out.push(t[i]), ans, result)
    }
}

/// Fills `template`, asking `resolver` for each placeholder in order; the
/// first error of a placeholder or of the resolver ends the filling.
pub fn format_template<F: Fn(i64, Option<i64>, Option<i64>) -> Result<String, String>>(
    template: &str,
    resolver: F,
) -> (r: Result<String, String>)
    requires
        forall|a: i64, b: Option<i64>, c: Option<i64>| call_requires(resolver, (a, b, c)),
    ensures
        template_yields(
            template@,
            0,
            Seq::empty(),
            |a: i64, b: Option<i64>, c: Option<i64>, x: Result<String, String>|
                call_ensures(resolver, (a, b, c), x),
            answer_view(r),
        ),
{
    let ghost ans = |a: i64, b: Option<i64>, c: Option<i64>, x: Result<String, String>|
        call_ensures(resolver, (a, b, c), x);
    let chars = chars_of(template);
    let ghost t = chars@;
    let mut out = String::new();
    let mut i: usize = 0;
    while i < chars.len()
        invariant
            i <= chars@.len(),
            t == chars@,
            t == template@,
            forall|a: i64, b: Option<i64>, c: Option<i64>| call_requires(resolver, (a, b, c)),
            ans == (|a: i64, b: Option<i64>, c: Option<i64>, x: Result<String, String>|
                call_ensures(resolver, (a, b, c), x)),
            forall|res: Result<Seq<char>, Seq<char>>|
                #![trigger template_yields(t, i as int, out@, ans, res)]
                template_yields(t, i as int, out@, ans, res) ==> template_yields(
                    t,
                    0,
                    Seq::empty(),
                    ans,
                    res,
                ),
        decreases chars.len() - i,
    {
        let ghost i0 = i as int;
        let ghost out0 = out@;
        if chars[i] == '{' && i + 1 < chars.len() && chars[i + 1] == '{' {
            push_char(&mut out, '{');
            i = i + 2;
            assert forall|res: Result<Seq<char>, Seq<char>>|
                template_yields(t, i as int, out@, ans, res) implies template_yields(t, 0, Seq::empty(), ans, res) by {
                assert(template_yields(t, i0, out0, ans, res));
            }
        } else if chars[i] == '}' && i + 1 < chars.len() && chars[i + 1] == '}' {
            push_char(&mut out, '}');
            i = i + 2;
            assert forall|res: Result<Seq<char>, Seq<char>>|
                template_yields(t, i as int, out@, ans, res) implies template_yields(t, 0, Seq::empty(), ans, res) by {
                assert(template_yields(t, i0, out0, ans, res));
            }
        } else if chars[i] == '{' {
            let start = i + 1;
            let mut j = start;
            proof {
                lemma_close_index(t, start as int);
            }
            while j < chars.len() && chars[j] != '}'
                invariant
                    start <= j <= chars@.len(),
                    t == chars@,
                    close_index(t, start as int) == close_index(t, j as int),
                decreases chars.len() - j,
            {
                j = j + 1;
            }
            assert(close_index(t, start as int) == j);
            if j >= chars.len() {
                push_char(&mut out, '{');
                i = i + 1;
                assert forall|res: Result<Seq<char>, Seq<char>>|
                    template_yields(t, i as int, out@, ans, res) implies template_yields(t, 0, Seq::empty(), ans, res) by {
                    assert(template_yields(t, i0, out0, ans, res));
                }
            } else {
                let inner = crate::text::slice_range(chars.as_slice(), start, j);
                let (a, b, c) = match placeholder_args(inner.as_slice()) {
                    Ok(v) => v,
                    Err(e) => {
                        assert(template_yields(t, i0, out0, ans, Err::<Seq<char>, Seq<char>>(e@)));
                        return Err(e);
                    },
                };
                let answer = resolver(a, b, c);
                assert(ans(a, b, c, answer));
                match answer {
                    Err(e) => {
                        assert(template_yields(t, i0, out0, ans, Err::<Seq<char>, Seq<char>>(e@)));
                        return Err(e);
                    },
                    Ok(v) => {
                        let u = unescape_format(v.as_str());
                        push_str(&mut out, u.as_str());
                        i = j + 1;
                        assert forall|res: Result<Seq<char>, Seq<char>>|
                            template_yields(t, i as int, out@, ans, res) implies template_yields(
                                t,
                                0,
                                Seq::empty(),
                                ans,
                                res,
                            ) by {
                            assert(ans(a, b, c, Ok::<String, String>(v)));
                            assert(template_yields(t, i0, out0, ans, res));
                        }
                    },
                }
            }
        } else if chars[i] == '\\' && i + 1 < chars.len() {
            if chars[i + 1] == 'n' {
                push_char(&mut out, '\n');
            } else {
                push_char(&mut out, chars[i + 1]);
            }
            i = i + 2;
            assert forall|res: Result<Seq<char>, Seq<char>>|
                template_yields(t, i as int, out@, ans, res) implies template_yields(t, 0, Seq::empty(), ans, res) by {
                assert(template_yields(t, i0, out0, ans, res));
            }
        } else {
            push_char(&mut out, chars[i]);
            i = i + 1;
            assert forall|res: Result<Seq<char>, Seq<char>>|
                template_yields(t, i as int, out@, ans, res) implies template_yields(t, 0, Seq::empty(), ans, res) by {
                assert(template_yields(t, i0, out0, ans, res));
            }
        }
    }
    assert(template_yields(t, i as int, out@, ans, Ok::<Seq<char>, Seq<char>>(out@)));
    Ok(out)
}


/// What filling template `t` from position `i`, with `out` written so far,
/// gives when the resolver answers `(a, b, c)` with `f(a, b, c)`.
pub open spec fn fill_template(
    t: Seq<char>,
    i: int,
    out: Seq<char>,
    f: spec_fn(i64, Option<i64>, Option<i64>) -> Result<Seq<char>, Seq<char>>,
) -> Result<Seq<char>, Seq<char>>
    decreases t.len() - i,
{
    if i < 0 || i >= t.len() {
        Ok(out)
    } else if t[i] == '{' && i + 1 < t.len() && t[i + 1] == '{' {
        fill_template(t, i + 2, out.push('{'), f)
    } else if t[i] == '}' && i + 1 < t.len() && t[i + 1] == '}' {
        fill_template(t, i + 2, out.push('}'), f)
    } else if t[i] == '{' {
        let j = close_index(t, i + 1);
        if j >= t.len() || j <= i {
            fill_template(t, i + 1, out.push('{'), f)
        } else {
            match spec_placeholder_args(t.subrange(i + 1, j)) {
                Err(e) => Err(e),
                Ok((a, b, c)) => match f(a, b, c) {
                    Err(e) => Err(e),
                    Ok(v) => fill_template(t, j + 1, out + spec_unescape_format(v), f),
                },
            }
        }
    } else if t[i] == '\\' && i + 1 < t.len() {
        if t[i + 1] == 'n' {
            fill_template(t, i + 2, out.push('\n'), f)
        } else {
            fill_template(t, i + 2, out.push(t[i + 1]), f)
        }
    } else {
        fill_template(t, i + 1, out.push(t[i]), f)
    }
}

/// With a resolver whose every answer to `(a, b, c)` is `f(a, b, c)`, the
/// filling that a run can end in is [`fill_template`].
pub proof fn lemma_template_deterministic(
    t: Seq<char>,
    i: int,
    out: Seq<char>,
    ans: spec_fn(i64, Option<i64>, Option<i64>, Result<String, String>) -> bool,
    f: spec_fn(i64, Option<i64>, Option<i64>) -> Result<Seq<char>, Seq<char>>,
    result: Result<Seq<char>, Seq<char>>,
)
    requires
        forall|a: i64, b: Option<i64>, c: Option<i64>, r: Result<String, String>|
            #[trigger] ans(a, b, c, r) ==> answer_view(r) == f(a, b, c),
        template_yields(t, i, out, ans, result),
    ensures
        result == fill_template(t, i, out, f),
    decreases t.len() - i,
{
    if i < 0 || i >= t.len() {
    } else if t[i] == '{' && i + 1 < t.len() && t[i + 1] == '{' {
        lemma_template_deterministic(t, i + 2, out.push('{'), ans, f, result);
    } else if t[i] == '}' && i + 1 < t.len() && t[i + 1] == '}' {
        lemma_template_deterministic(t, i + 2, out.push('}'), ans, f, result);
    } else if t[i] == '{' {
        let j = close_index(t, i + 1);
        if j >= t.len() || j <= i {
            lemma_template_deterministic(t, i + 1, out.push('{'), ans, f, result);
        } else {
            match spec_placeholder_args(t.subrange(i + 1, j)) {
                Err(e) => {},
                Ok((a, b, c)) => {
                    let r = choose|r: Result<String, String>|
                        #![trigger ans(a, b, c, r)]
                        ans(a, b, c, r) && match r {
                            Err(e) => result == Err::<Seq<char>, Seq<char>>(e@),
                            Ok(v) => template_yields(
                                t,
                                j + 1,
                                out + spec_unescape_format(v@),
                                ans,
                                result,
                            ),
                        };
                    match r {
                        Err(e) => {},
                        Ok(v) => {
                            lemma_template_deterministic(
                                t,
                                j + 1,
                                out + spec_unescape_format(v@),
                                ans,
                                f,
                                result,
                            );
                        },
                    }
                },
            }
        }
    } else if t[i] == '\\' && i + 1 < t.len() {
        if t[i + 1] == 'n' {
            lemma_template_deterministic(t, i + 2, out.push('\n'), ans, f, result);
        } else {
            lemma_template_deterministic(t, i + 2, out.push(t[i + 1]), ans, f, result);
        }
    } else {
        lemma_template_deterministic(t, i + 1, out.push(t[i]), ans, f, result);
    }
}


proof fn lemma_plain_template(
    t: Seq<char>,
    i: int,
    out: Seq<char>,
    ans: spec_fn(i64, Option<i64>, Option<i64>, Result<String, String>) -> bool,
    result: Result<Seq<char>, Seq<char>>,
)
    requires
        0 <= i <= t.len(),
        !t.contains('{'),
        !t.contains('}'),
        !t.contains('\\'),
    ensures
        template_yields(t, i, out, ans, result) <==> result == Ok::<Seq<char>, Seq<char>>(out + t.skip(i)),
    decreases t.len() - i,
{
    if i == t.len() {
        assert(out + t.skip(i) =~= out);
    } else {
        assert(t[i] != '{' && t[i] != '}' && t[i] != '\\');
        lemma_plain_template(t, i + 1, out.push(t[i]), ans, result);
        assert(out.push(t[i]) + t.skip(i + 1) =~= out + t.skip(i));
    }
}

/// A template without braces or backslashes comes back unchanged, whatever
/// the resolver would answer: no placeholder asks it anything.
pub proof fn plain_template_unchanged(
    t: Seq<char>,
    ans: spec_fn(i64, Option<i64>, Option<i64>, Result<String, String>) -> bool,
    result: Result<Seq<char>, Seq<char>>,
)
    requires
        !t.contains('{'),
        !t.contains('}'),
        !t.contains('\\'),
    ensures
        template_yields(t, 0, Seq::empty(), ans, result) <==> result == Ok::<Seq<char>, Seq<char>>(t),
{
    lemma_plain_template(t, 0, Seq::empty(), ans, result);
    assert(Seq::<char>::empty() + t.skip(0) =~= t);
}

/// At a placeholder that the resolver can only answer with an error, the
/// filling ends with that error: nothing after it is asked for or written.
pub proof fn resolver_error_ends_filling(
    t: Seq<char>,
    i: int,
    out: Seq<char>,
    ans: spec_fn(i64, Option<i64>, Option<i64>, Result<String, String>) -> bool,
    a: i64,
    b: Option<i64>,
    c: Option<i64>,
    e: String,
    result: Result<Seq<char>, Seq<char>>,
)
    requires
        0 <= i < t.len(),
        t[i] == '{',
        !(i + 1 < t.len() && t[i + 1] == '{'),
        close_index(t, i + 1) < t.len(),
        spec_placeholder_args(t.subrange(i + 1, close_index(t, i + 1))) == Ok::<
            (i64, Option<i64>, Option<i64>),
            Seq<char>,
        >((a, b, c)),
        forall|r: Result<String, String>| #[trigger] ans(a, b, c, r) <==> r == Err::<String, String>(e),
    ensures
        template_yields(t, i, out, ans, result) <==> result == Err::<Seq<char>, Seq<char>>(e@),
{
    lemma_close_index(t, i + 1);
    let j = close_index(t, i + 1);
    assert(!(j >= t.len() || j <= i));
    let er = Err::<String, String>(e);
    assert(ans(a, b, c, er));
    if result == Err::<Seq<char>, Seq<char>>(e@) {
        let q = spec_placeholder_args(t.subrange(i + 1, j))->Ok_0;
        assert(q == (a, b, c));
        assert(ans(q.0, q.1, q.2, er));
        assert(template_yields(t, i, out, ans, result));
    }
    if template_yields(t, i, out, ans, result) {
        assert(result == Err::<Seq<char>, Seq<char>>(e@));
    }
}

} // verus!
