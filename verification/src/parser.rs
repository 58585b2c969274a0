//! Preparing calculator input: balancing parentheses and making implicit
//! multiplication (`2x`, `3(4)`, `(1)(2)`) explicit.
use vstd::prelude::*;
use crate::error::EvaError;
use crate::text::{
    chars_of, concat, digit, is_digit, is_space, push_char, push_str, space, str_eq,
    string_of_range, to_string, views,
};

verus! {

/// The names of the functions of one argument.
pub open spec fn is_function_1(t: Seq<char>) -> bool {
    t == "sin"@ || t == "cos"@ || t == "tan"@ || t == "csc"@ || t == "sec"@ || t == "cot"@
        || t == "sinh"@ || t == "cosh"@ || t == "tanh"@ || t == "asin"@ || t == "acos"@
        || t == "atan"@ || t == "acsc"@ || t == "asec"@ || t == "acot"@ || t == "ln"@
        || t == "log2"@ || t == "log10"@ || t == "sqrt"@ || t == "ceil"@ || t == "floor"@
        || t == "abs"@ || t == "deg"@ || t == "rad"@
}

/// The names of the functions of two arguments.
pub open spec fn is_function_2(t: Seq<char>) -> bool {
    t == "log"@ || t == "nroot"@
}

/// Whether `t` names a function.
pub open spec fn spec_is_function_name(t: Seq<char>) -> bool {
    is_function_1(t) || is_function_2(t)
}

/// Whether `text` names a function.
pub fn is_function_name(text: &str) -> (r: bool)
    ensures
        r == spec_is_function_name(text@),
{
    str_eq(text, "sin") || str_eq(text, "cos") || str_eq(text, "tan") || str_eq(text, "csc")
        || str_eq(text, "sec") || str_eq(text, "cot") || str_eq(text, "sinh") || str_eq(
        text,
        "cosh",
    ) || str_eq(text, "tanh") || str_eq(text, "asin") || str_eq(text, "acos") || str_eq(
        text,
        "atan",
    ) || str_eq(text, "acsc") || str_eq(text, "asec") || str_eq(text, "acot") || str_eq(
        text,
        "ln",
    ) || str_eq(text, "log2") || str_eq(text, "log10") || str_eq(text, "sqrt") || str_eq(
        text,
        "ceil",
    ) || str_eq(text, "floor") || str_eq(text, "abs") || str_eq(text, "deg") || str_eq(
        text,
        "rad",
    ) || str_eq(text, "log") || str_eq(text, "nroot")
}

/// A character of a name: an ASCII letter or `_`.
pub open spec fn spec_is_ident_char(c: char) -> bool {
    ('a' <= c && c <= 'z') || ('A' <= c && c <= 'Z') || c == '_'
}

/// Whether `c` may stand in a name.
pub fn is_ident_char(c: char) -> (r: bool)
    ensures
        r == spec_is_ident_char(c),
{
    ('a' <= c && c <= 'z') || ('A' <= c && c <= 'Z') || c == '_'
}

/// The end of the run of characters from `i` on that satisfy `p`.
pub open spec fn run_while(s: Seq<char>, i: int, p: spec_fn(char) -> bool) -> int
    decreases s.len() - i,
{
    if i < 0 || i >= s.len() || !p(s[i]) {
        i
    } else {
        run_while(s, i + 1, p)
    }
}

pub proof fn lemma_run_while(s: Seq<char>, i: int, p: spec_fn(char) -> bool)
    requires
        0 <= i <= s.len(),
    ensures
        i <= run_while(s, i, p) <= s.len(),
        run_while(s, i, p) < s.len() ==> !p(s[run_while(s, i, p)]),
        forall|k: int| i <= k < run_while(s, i, p) ==> p(#[trigger] s[k]),
    decreases s.len() - i,
{
    if i < s.len() && p(s[i]) {
        lemma_run_while(s, i + 1, p);
    }
}

/// Whether `c` is a decimal digit (`digits`) or a name character.
fn in_class(c: char, digits: bool) -> (r: bool)
    ensures
        r == (if digits {
            is_digit(c)
        } else {
            spec_is_ident_char(c)
        }),
{
    if digits {
        digit(c)
    } else {
        is_ident_char(c)
    }
}

/// Where the run of characters satisfying `p` that starts at `i` ends.
fn scan_while(s: &[char], i: usize, p_digits: bool) -> (r: usize)
    requires
        i <= s@.len(),
    ensures
        p_digits ==> r == run_while(s@, i as int, |c: char| is_digit(c)),
        !p_digits ==> r == run_while(s@, i as int, |c: char| spec_is_ident_char(c)),
        i <= r <= s@.len(),
{
    let ghost p = if p_digits {
        |c: char| is_digit(c)
    } else {
        |c: char| spec_is_ident_char(c)
    };
    let mut j = i;
    while j < s.len() && in_class(s[j], p_digits)
        invariant
            i <= j <= s@.len(),
            p == (if p_digits {
                |c: char| is_digit(c)
            } else {
                |c: char| spec_is_ident_char(c)
            }),
            run_while(s@, i as int, p) == run_while(s@, j as int, p),
        decreases s.len() - j,
    {
        j = j + 1;
    }
    j
}

/// The name that starts at `i` and where it ends: the letters, extended by
/// the digits after them when that spells a function name (`log2`).
pub open spec fn spec_read_name_token(s: Seq<char>, i: int) -> (Seq<char>, int) {
    let j = run_while(s, i, |c: char| spec_is_ident_char(c));
    if j < s.len() && is_digit(s[j]) {
        let k = run_while(s, j, |c: char| is_digit(c));
        if spec_is_function_name(s.subrange(i, k)) {
            (s.subrange(i, k), k)
        } else {
            (s.subrange(i, j), j)
        }
    } else {
        (s.subrange(i, j), j)
    }
}

/// Reads the name that starts at `i`.
pub fn read_name_token(chars: &[char], i: usize) -> (r: (String, usize))
    requires
        i <= chars@.len(),
    ensures
        (r.0@, r.1 as int) == spec_read_name_token(chars@, i as int),
{
    let start = i;
    let j = scan_while(chars, i, false);
    if j < chars.len() && digit(chars[j]) {
        let k = scan_while(chars, j, true);
        let candidate = string_of_range(chars, start, k);
        if is_function_name(candidate.as_str()) {
            return (candidate, k);
        }
    }
    (string_of_range(chars, start, j), j)
}

/// `input` with as many `)` appended as it lacks; `None` when it has more
/// `)` than `(`.
pub open spec fn spec_balance_parentheses(input: Seq<char>) -> Option<Seq<char>> {
    let open = count_char(input, '(');
    let close = count_char(input, ')');
    if close > open {
        None
    } else {
        Some(input + Seq::new((open - close) as nat, |k: int| ')'))
    }
}

/// The error for unbalanced parentheses.
pub open spec fn is_mismatch_error(e: EvaError) -> bool {
    e matches EvaError::Syntax(m) && m@ == "Mismatched parentheses!"@
}

/// How often `c` occurs in `s`.
pub open spec fn count_char(s: Seq<char>, c: char) -> nat
    decreases s.len(),
{
    if s.len() == 0 {
        0
    } else {
        count_char(s.drop_last(), c) + if s.last() == c {
            1nat
        } else {
            0nat
        }
    }
}

fn count_of(s: &[char], c: char) -> (n: usize)
    ensures
        n == count_char(s@, c),
{
    let mut n: usize = 0;
    let mut i: usize = 0;
    while i < s.len()
        invariant
            i <= s@.len(),
            n == count_char(s@.take(i as int), c),
            n <= i,
        decreases s.len() - i,
    {
        assert(s@.take(i + 1).drop_last() == s@.take(i as int));
        if s[i] == c {
            n = n + 1;
        }
        i = i + 1;
    }
    assert(s@.take(s@.len() as int) == s@);
    n
}


/// Appends the `)` that `input` lacks; an error when it has more `)` than `(`.
pub fn balance_parentheses(input: &str) -> (r: Result<String, EvaError>)
    ensures
        match r {
            Ok(out) => spec_balance_parentheses(input@) == Some(out@),
            Err(e) => spec_balance_parentheses(input@) is None && is_mismatch_error(e),
        },
{
    let cs = chars_of(input);
    let open = count_of(cs.as_slice(), '(');
    let close = count_of(cs.as_slice(), ')');
    if close > open {
        return Err(EvaError::Syntax(to_string("Mismatched parentheses!")));
    }
    let mut out = to_string(input);
    let missing = open - close;
    let mut k: usize = 0;
    while k < missing
        invariant
            k <= missing,
            out@ == input@ + Seq::new(k as nat, |x: int| ')'),
        decreases missing - k,
    {
        push_char(&mut out, ')');
        assert(input@ + Seq::new((k + 1) as nat, |x: int| ')') =~= (input@ + Seq::new(
            k as nat,
            |x: int| ')',
        )).push(')'));
        k = k + 1;
    }
    Ok(out)
}


/// A digit or a dot.
pub open spec fn is_number_char(c: char) -> bool {
    is_digit(c) || c == '.'
}

/// Whether a number starts at `i`: a digit, or a dot before a digit.
pub open spec fn starts_number(s: Seq<char>, i: int) -> bool {
    0 <= i < s.len() && (is_digit(s[i]) || (s[i] == '.' && i + 1 < s.len() && is_digit(s[i + 1])))
}

/// Where the number that starts at `i` ends: after an optional leading dot,
/// the run of digits and dots.
pub open spec fn number_end(s: Seq<char>, i: int) -> int {
    run_while(s, if s[i] == '.' { i + 1 } else { i }, |c: char| is_number_char(c))
}

pub proof fn lemma_number_end(s: Seq<char>, i: int)
    requires
        starts_number(s, i),
    ensures
        i < number_end(s, i) <= s.len(),
        forall|k: int| i <= k < number_end(s, i) ==> is_number_char(#[trigger] s[k]),
{
    let k = if s[i] == '.' { i + 1 } else { i };
    lemma_run_while(s, k, |c: char| is_number_char(c));
    assert(is_number_char(s[k]));
}

pub proof fn lemma_name_token(s: Seq<char>, i: int)
    requires
        0 <= i < s.len(),
        spec_is_ident_char(s[i]),
    ensures
        i < spec_read_name_token(s, i).1 <= s.len(),
        spec_read_name_token(s, i).0 == s.subrange(i, spec_read_name_token(s, i).1),
        forall|k: int|
            i <= k < spec_read_name_token(s, i).1 ==> spec_is_ident_char(#[trigger] s[k]) || is_digit(
                s[k],
            ),
{
    lemma_run_while(s, i, |c: char| spec_is_ident_char(c));
    let j = run_while(s, i, |c: char| spec_is_ident_char(c));
    if j < s.len() && is_digit(s[j]) {
        lemma_run_while(s, j, |c: char| is_digit(c));
    }
}

/// The tokens of `s` from position `i` on: numbers, names, `**`, and single
/// characters; white space separates tokens and is dropped.
pub open spec fn tokens_from(s: Seq<char>, i: int) -> Seq<Seq<char>>
    decreases s.len() - i,
{
    if i < 0 || i >= s.len() {
        Seq::empty()
    } else if is_space(s[i]) {
        tokens_from(s, i + 1)
    } else if starts_number(s, i) {
        let j = number_end(s, i);
        proof {
            lemma_number_end(s, i);
        }
        seq![s.subrange(i, j)] + tokens_from(s, j)
    } else if spec_is_ident_char(s[i]) {
        let j = spec_read_name_token(s, i).1;
        proof {
            lemma_name_token(s, i);
        }
        seq![spec_read_name_token(s, i).0] + tokens_from(s, j)
    } else if s[i] == '*' && i + 1 < s.len() && s[i + 1] == '*' {
        seq![seq!['*', '*']] + tokens_from(s, i + 2)
    } else {
        seq![seq![s[i]]] + tokens_from(s, i + 1)
    }
}

/// The tokens of `input`.
pub open spec fn spec_tokens(input: Seq<char>) -> Seq<Seq<char>> {
    tokens_from(input, 0)
}

/// Cuts `input` into tokens.
fn tokenize_for_implicit_mul(input: &str) -> (r: Vec<String>)
    ensures
        views(r@) == spec_tokens(input@),
        concat(views(r@)) == drop_spaces(input@),
        forall|k: int| 0 <= k < r@.len() ==> #[trigger] r@[k]@.len() > 0,
{
    let chars = chars_of(input);
    let ghost s = chars@;
    let mut tokens: Vec<String> = Vec::new();
    let mut i: usize = 0;
    assert(views(tokens@) =~= Seq::<Seq<char>>::empty());
    while i < chars.len()
        invariant
            i <= chars@.len(),
            s == chars@,
            s == input@,
            spec_tokens(s) == views(tokens@) + tokens_from(s, i as int),
        decreases chars.len() - i,
    {
        let ghost before = views(tokens@);
        let c = chars[i];
        if space(c) {
            i = i + 1;
        } else if digit(c) || (c == '.' && i + 1 < chars.len() && digit(chars[i + 1])) {
            proof {
                lemma_number_end(s, i as int);
            }
            let start = i;
            let mut j = if c == '.' {
                i + 1
            } else {
                i
            };
            let ghost k0 = j as int;
            while j < chars.len() && (digit(chars[j]) || chars[j] == '.')
                invariant
                    k0 <= j <= chars@.len(),
                    s == chars@,
                    run_while(s, k0, |c: char| is_number_char(c)) == run_while(
                        s,
                        j as int,
                        |c: char| is_number_char(c),
                    ),
                decreases chars.len() - j,
            {
                j = j + 1;
            }
            assert(j == number_end(s, start as int));
            tokens.push(string_of_range(chars.as_slice(), start, j));
            assert(views(tokens@) =~= before.push(s.subrange(start as int, j as int)));
            assert(before + tokens_from(s, start as int) =~= views(tokens@) + tokens_from(
                s,
                j as int,
            ));
            i = j;
        } else if is_ident_char(c) {
            proof {
                lemma_name_token(s, i as int);
            }
            let (name, next) = read_name_token(chars.as_slice(), i);
            tokens.push(name);
            assert(views(tokens@) =~= before.push(spec_read_name_token(s, i as int).0));
            assert(before + tokens_from(s, i as int) =~= views(tokens@) + tokens_from(
                s,
                next as int,
            ));
            i = next;
        } else if c == '*' && i + 1 < chars.len() && chars[i + 1] == '*' {
            let mut t = String::new();
            push_char(&mut t, '*');
            push_char(&mut t, '*');
            assert(t@ =~= seq!['*', '*']);
            tokens.push(t);
            assert(views(tokens@) =~= before.push(seq!['*', '*']));
            assert(before + tokens_from(s, i as int) =~= views(tokens@) + tokens_from(s, i + 2));
            i = i + 2;
        } else {
            let mut t = String::new();
            push_char(&mut t, c);
            assert(t@ =~= seq![c]);
            tokens.push(t);
            assert(views(tokens@) =~= before.push(seq![c]));
            assert(before + tokens_from(s, i as int) =~= views(tokens@) + tokens_from(s, i + 1));
            i = i + 1;
        }
    }
    assert(views(tokens@) + tokens_from(s, i as int) =~= views(tokens@));
    proof {
        tokens_keep_text(input@);
        assert forall|k: int| 0 <= k < tokens@.len() implies #[trigger] tokens@[k]@.len() > 0 by {
            assert(views(tokens@)[k] == tokens@[k]@);
        }
    }
    tokens
}


/// The kinds of tokens that decide where a multiplication is implied.
#[derive(Clone, Copy, Debug, PartialEq, Eq, Structural)]
pub enum ImplicitToken {
    Number,
    Ident,
    Function,
    LParen,
    RParen,
    Other,
}

/// The kind of a token.
pub open spec fn spec_token_kind(t: Seq<char>) -> ImplicitToken {
    if t == "("@ {
        ImplicitToken::LParen
    } else if t == ")"@ {
        ImplicitToken::RParen
    } else if t.len() > 0 && (is_digit(t[0]) || t[0] == '.') {
        ImplicitToken::Number
    } else if spec_is_function_name(t) {
        ImplicitToken::Function
    } else if forall|k: int| 0 <= k < t.len() ==> spec_is_ident_char(#[trigger] t[k]) {
        ImplicitToken::Ident
    } else {
        ImplicitToken::Other
    }
}

/// The kind of `token`.
fn token_kind(token: &str) -> (r: ImplicitToken)
    ensures
        r == spec_token_kind(token@),
{
    if str_eq(token, "(") {
        return ImplicitToken::LParen;
    }
    if str_eq(token, ")") {
        return ImplicitToken::RParen;
    }
    let cs = chars_of(token);
    if cs.len() > 0 && (digit(cs[0]) || cs[0] == '.') {
        return ImplicitToken::Number;
    }
    if is_function_name(token) {
        return ImplicitToken::Function;
    }
    let mut k: usize = 0;
    while k < cs.len()
        invariant
            k <= cs@.len(),
            cs@ == token@,
            token@ != "("@,
            token@ != ")"@,
            !(cs@.len() > 0 && (is_digit(cs@[0]) || cs@[0] == '.')),
            !spec_is_function_name(token@),
            forall|j: int| 0 <= j < k ==> spec_is_ident_char(#[trigger] cs@[j]),
        decreases cs.len() - k,
    {
        if !is_ident_char(cs[k]) {
            assert(!spec_is_ident_char(token@[k as int]));
            return ImplicitToken::Other;
        }
        k = k + 1;
    }
    ImplicitToken::Ident
}

/// Whether a multiplication is implied between tokens `prev` and `curr`:
/// after a number, name or `)`, before a number, name, function or `(`,
/// but not between a name and `(`.
pub open spec fn spec_needs_implicit_mul(prev: Seq<char>, curr: Seq<char>) -> bool {
    let p = spec_token_kind(prev);
    let c = spec_token_kind(curr);
    (p == ImplicitToken::Number || p == ImplicitToken::Ident || p == ImplicitToken::RParen) && (c
        == ImplicitToken::Number || c == ImplicitToken::Ident || c == ImplicitToken::Function || c
        == ImplicitToken::LParen) && !((p == ImplicitToken::Ident || p == ImplicitToken::Function)
        && c == ImplicitToken::LParen)
}

/// Whether a multiplication is implied between `prev` and `curr`.
fn needs_implicit_mul_between(prev: &str, curr: &str) -> (r: bool)
    ensures
        r == spec_needs_implicit_mul(prev@, curr@),
{
    let p = token_kind(prev);
    let c = token_kind(curr);
    (p == ImplicitToken::Number || p == ImplicitToken::Ident || p == ImplicitToken::RParen) && (c
        == ImplicitToken::Number || c == ImplicitToken::Ident || c == ImplicitToken::Function || c
        == ImplicitToken::LParen) && !((p == ImplicitToken::Ident || p == ImplicitToken::Function)
        && c == ImplicitToken::LParen)
}

/// The tokens written one after another, with `*` between neighbours where a
/// multiplication is implied.
pub open spec fn with_stars(tokens: Seq<Seq<char>>) -> Seq<char>
    decreases tokens.len(),
{
    if tokens.len() == 0 {
        Seq::empty()
    } else if tokens.len() == 1 {
        tokens[0]
    } else {
        with_stars(tokens.drop_last()) + (if spec_needs_implicit_mul(
            tokens[tokens.len() - 2],
            tokens.last(),
        ) {
            seq!['*']
        } else {
            Seq::empty()
        }) + tokens.last()
    }
}

/// `input` with white space dropped and implied multiplications written out.
pub open spec fn spec_insert_implicit_multiplication(input: Seq<char>) -> Seq<char> {
    with_stars(spec_tokens(input))
}

/// Writes out the multiplications that `input` implies.
pub fn insert_implicit_multiplication(input: &str) -> (r: String)
    ensures
        r@ == spec_insert_implicit_multiplication(input@),
{
    let tokens = tokenize_for_implicit_mul(input);
    let ghost tv = views(tokens@);
    let mut out = String::new();
    let mut i: usize = 0;
    assert(tv.take(0) =~= Seq::<Seq<char>>::empty());
    while i < tokens.len()
        invariant
            i <= tokens@.len(),
            tv == views(tokens@),
            out@ == with_stars(tv.take(i as int)),
        decreases tokens.len() - i,
    {
        assert(tv.take(i + 1).drop_last() =~= tv.take(i as int));
        if i > 0 && needs_implicit_mul_between(tokens[i - 1].as_str(), tokens[i].as_str()) {
            push_char(&mut out, '*');
        }
        push_str(&mut out, tokens[i].as_str());
        proof {
            if i == 0 {
                assert(out@ =~= tv.take(1)[0]);
            } else {
                assert(tv.take(i + 1)[i - 1] == tv[i - 1]);
            }
        }
        i = i + 1;
    }
    assert(tv.take(tokens@.len() as int) =~= tv);
    out
}

/// What the calculator evaluates for `input`: balanced, then with implied
/// multiplications written out; `None` when it has too many `)`.
pub open spec fn spec_preprocess(input: Seq<char>) -> Option<Seq<char>> {
    match spec_balance_parentheses(input) {
        None => None,
        Some(b) => Some(spec_insert_implicit_multiplication(b)),
    }
}

/// Balances the parentheses of `input` and writes out implied multiplications.
pub fn preprocess(input: &str) -> (r: Result<String, EvaError>)
    ensures
        match r {
            Ok(out) => spec_preprocess(input@) == Some(out@),
            Err(e) => spec_preprocess(input@) is None && is_mismatch_error(e),
        },
{
    let balanced = match balance_parentheses(input) {
        Ok(b) => b,
        Err(e) => return Err(e),
    };
    Ok(insert_implicit_multiplication(balanced.as_str()))
}

/// `s` without its white space.
pub open spec fn drop_spaces(s: Seq<char>) -> Seq<char>
    decreases s.len(),
{
    if s.len() == 0 {
        Seq::empty()
    } else {
        drop_spaces(s.drop_last()) + if is_space(s.last()) {
            Seq::<char>::empty()
        } else {
            seq![s.last()]
        }
    }
}

proof fn lemma_drop_spaces_add(a: Seq<char>, b: Seq<char>)
    ensures
        drop_spaces(a + b) == drop_spaces(a) + drop_spaces(b),
    decreases b.len(),
{
    if b.len() == 0 {
        assert(a + b =~= a);
        assert(drop_spaces(a) + drop_spaces(b) =~= drop_spaces(a));
    } else {
        assert((a + b).drop_last() =~= a + b.drop_last());
        lemma_drop_spaces_add(a, b.drop_last());
    }
}

proof fn lemma_drop_spaces_none(a: Seq<char>)
    requires
        forall|k: int| 0 <= k < a.len() ==> !is_space(#[trigger] a[k]),
    ensures
        drop_spaces(a) == a,
    decreases a.len(),
{
    if a.len() > 0 {
        lemma_drop_spaces_none(a.drop_last());
        assert(a.drop_last().push(a.last()) =~= a);
    }
}

/// Concatenating a part in front of others puts its text in front.
pub proof fn lemma_concat_front(t: Seq<char>, rest: Seq<Seq<char>>)
    ensures
        concat(seq![t] + rest) == t + concat(rest),
    decreases rest.len(),
{
    if rest.len() == 0 {
        assert(seq![t] + rest =~= seq![t]);
        assert(seq![t].drop_last() =~= Seq::<Seq<char>>::empty());
        assert(concat(Seq::<Seq<char>>::empty()) =~= Seq::<char>::empty());
        assert(concat(seq![t]) =~= t);
        assert(t + concat(rest) =~= t);
    } else {
        assert((seq![t] + rest).drop_last() =~= seq![t] + rest.drop_last());
        assert((seq![t] + rest).last() == rest.last());
        lemma_concat_front(t, rest.drop_last());
        assert(t + concat(rest) =~= t + concat(rest.drop_last()) + rest.last());
    }
}

proof fn lemma_tokens_from_text(s: Seq<char>, i: int)
    requires
        0 <= i <= s.len(),
    ensures
        concat(tokens_from(s, i)) == drop_spaces(s.skip(i)),
    decreases s.len() - i,
{
    if i == s.len() {
        assert(s.skip(i) =~= Seq::<char>::empty());
    } else {
        let step: int = if is_space(s[i]) {
            i + 1
        } else if starts_number(s, i) {
            number_end(s, i)
        } else if spec_is_ident_char(s[i]) {
            spec_read_name_token(s, i).1
        } else if s[i] == '*' && i + 1 < s.len() && s[i + 1] == '*' {
            i + 2
        } else {
            i + 1
        };
        if starts_number(s, i) {
            lemma_number_end(s, i);
        }
        if !starts_number(s, i) && spec_is_ident_char(s[i]) {
            lemma_name_token(s, i);
        }
        assert(i < step <= s.len());
        lemma_tokens_from_text(s, step);
        assert(s.skip(i) =~= s.subrange(i, step) + s.skip(step));
        lemma_drop_spaces_add(s.subrange(i, step), s.skip(step));
        if is_space(s[i]) {
            assert(s.subrange(i, step) =~= seq![s[i]]);
            assert(seq![s[i]].drop_last() =~= Seq::<char>::empty());
            assert(seq![s[i]].last() == s[i]);
            assert(drop_spaces(Seq::<char>::empty()) =~= Seq::<char>::empty());
            assert(drop_spaces(seq![s[i]]) =~= Seq::<char>::empty());
        } else {
            let t = s.subrange(i, step);
            assert forall|k: int| 0 <= k < t.len() implies !is_space(#[trigger] t[k]) by {
                assert(t[k] == s[i + k]);
                if starts_number(s, i) {
                    assert(is_number_char(s[i + k]));
                } else if spec_is_ident_char(s[i]) {
                    assert(spec_is_ident_char(s[i + k]) || is_digit(s[i + k]));
                }
            }
            lemma_drop_spaces_none(t);
            if !starts_number(s, i) && !spec_is_ident_char(s[i]) {
                if s[i] == '*' && i + 1 < s.len() && s[i + 1] == '*' {
                    assert(t =~= seq!['*', '*']);
                } else {
                    assert(t =~= seq![s[i]]);
                }
            }
            lemma_concat_front(t, tokens_from(s, step));
        }
    }
}

proof fn lemma_tokens_nonempty(s: Seq<char>, i: int)
    ensures
        forall|k: int| 0 <= k < tokens_from(s, i).len() ==> #[trigger] tokens_from(s, i)[k].len() > 0,
    decreases s.len() - i,
{
    if 0 <= i < s.len() {
        if is_space(s[i]) {
            lemma_tokens_nonempty(s, i + 1);
            assert(tokens_from(s, i) == tokens_from(s, i + 1));
        } else if starts_number(s, i) {
            lemma_number_end(s, i);
            let j = number_end(s, i);
            lemma_tokens_nonempty(s, j);
            let rest = tokens_from(s, j);
            assert(tokens_from(s, i).len() == rest.len() + 1);
            assert(tokens_from(s, i)[0].len() > 0);
            assert forall|k: int| 0 <= k < tokens_from(s, i).len() implies #[trigger] tokens_from(
                s,
                i,
            )[k].len() > 0 by {
                if k > 0 {
                    assert(tokens_from(s, i)[k] == rest[k - 1]);
                }
            }
        } else if spec_is_ident_char(s[i]) {
            lemma_name_token(s, i);
            let j = spec_read_name_token(s, i).1;
            lemma_tokens_nonempty(s, j);
            let rest = tokens_from(s, j);
            assert(tokens_from(s, i).len() == rest.len() + 1);
            assert(tokens_from(s, i)[0].len() > 0);
            assert forall|k: int| 0 <= k < tokens_from(s, i).len() implies #[trigger] tokens_from(
                s,
                i,
            )[k].len() > 0 by {
                if k > 0 {
                    assert(tokens_from(s, i)[k] == rest[k - 1]);
                }
            }
        } else {
            let j = if s[i] == '*' && i + 1 < s.len() && s[i + 1] == '*' {
                i + 2
            } else {
                i + 1
            };
            lemma_tokens_nonempty(s, j);
            let rest = tokens_from(s, j);
            assert(tokens_from(s, i).len() == rest.len() + 1);
            assert(tokens_from(s, i)[0].len() > 0);
            assert forall|k: int| 0 <= k < tokens_from(s, i).len() implies #[trigger] tokens_from(
                s,
                i,
            )[k].len() > 0 by {
                if k > 0 {
                    assert(tokens_from(s, i)[k] == rest[k - 1]);
                }
            }
        }
    }
}

/// The tokens hold exactly the characters of the input that are not white
/// space, in their order, and none of them is empty.
pub proof fn tokens_keep_text(input: Seq<char>)
    ensures
        concat(spec_tokens(input)) == drop_spaces(input),
        forall|k: int| 0 <= k < spec_tokens(input).len() ==> #[trigger] spec_tokens(input)[k].len() > 0,
{
    lemma_tokens_from_text(input, 0);
    assert(input.skip(0) =~= input);
    lemma_tokens_nonempty(input, 0);
}


proof fn lemma_count_closing(s: Seq<char>, c: char, k: nat)
    ensures
        count_char(s + Seq::new(k, |j: int| ')'), c) == count_char(s, c) + if c == ')' {
            k
        } else {
            0
        },
    decreases k,
{
    if k > 0 {
        let t = s + Seq::new(k, |j: int| ')');
        assert(t.drop_last() =~= s + Seq::new((k - 1) as nat, |j: int| ')'));
        lemma_count_closing(s, c, (k - 1) as nat);
    } else {
        assert(s + Seq::new(k, |j: int| ')') =~= s);
    }
}

/// Balancing keeps the input in front, leaves as many `)` as `(`, and
/// changes nothing when applied again.
pub proof fn balanced_after_closing(input: Seq<char>)
    requires
        spec_balance_parentheses(input) is Some,
    ensures
        ({
            let out = spec_balance_parentheses(input)->0;
            &&& out.take(input.len() as int) == input
            &&& count_char(out, '(') == count_char(out, ')')
            &&& spec_balance_parentheses(out) == Some(out)
        }),
{
    let open = count_char(input, '(');
    let close = count_char(input, ')');
    let k = (open - close) as nat;
    let out = input + Seq::new(k, |j: int| ')');
    assert(out.take(input.len() as int) =~= input);
    lemma_count_closing(input, '(', k);
    lemma_count_closing(input, ')', k);
    assert(out + Seq::new(0, |j: int| ')') =~= out);
}


proof fn lemma_function_name_letter(t: Seq<char>)
    ensures
        spec_is_function_name(t) ==> t.len() > 0 && 'a' <= t[0] <= 'z',
{
    reveal_strlit("sin");
    assert("sin"@.len() > 0 && "sin"@[0] == 's');
    reveal_strlit("cos");
    assert("cos"@.len() > 0 && "cos"@[0] == 'c');
    reveal_strlit("tan");
    assert("tan"@.len() > 0 && "tan"@[0] == 't');
    reveal_strlit("csc");
    assert("csc"@.len() > 0 && "csc"@[0] == 'c');
    reveal_strlit("sec");
    assert("sec"@.len() > 0 && "sec"@[0] == 's');
    reveal_strlit("cot");
    assert("cot"@.len() > 0 && "cot"@[0] == 'c');
    reveal_strlit("sinh");
    assert("sinh"@.len() > 0 && "sinh"@[0] == 's');
    reveal_strlit("cosh");
    assert("cosh"@.len() > 0 && "cosh"@[0] == 'c');
    reveal_strlit("tanh");
    assert("tanh"@.len() > 0 && "tanh"@[0] == 't');
    reveal_strlit("asin");
    assert("asin"@.len() > 0 && "asin"@[0] == 'a');
    reveal_strlit("acos");
    assert("acos"@.len() > 0 && "acos"@[0] == 'a');
    reveal_strlit("atan");
    assert("atan"@.len() > 0 && "atan"@[0] == 'a');
    reveal_strlit("acsc");
    assert("acsc"@.len() > 0 && "acsc"@[0] == 'a');
    reveal_strlit("asec");
    assert("asec"@.len() > 0 && "asec"@[0] == 'a');
    reveal_strlit("acot");
    assert("acot"@.len() > 0 && "acot"@[0] == 'a');
    reveal_strlit("ln");
    assert("ln"@.len() > 0 && "ln"@[0] == 'l');
    reveal_strlit("log2");
    assert("log2"@.len() > 0 && "log2"@[0] == 'l');
    reveal_strlit("log10");
    assert("log10"@.len() > 0 && "log10"@[0] == 'l');
    reveal_strlit("sqrt");
    assert("sqrt"@.len() > 0 && "sqrt"@[0] == 's');
    reveal_strlit("ceil");
    assert("ceil"@.len() > 0 && "ceil"@[0] == 'c');
    reveal_strlit("floor");
    assert("floor"@.len() > 0 && "floor"@[0] == 'f');
    reveal_strlit("abs");
    assert("abs"@.len() > 0 && "abs"@[0] == 'a');
    reveal_strlit("deg");
    assert("deg"@.len() > 0 && "deg"@[0] == 'd');
    reveal_strlit("rad");
    assert("rad"@.len() > 0 && "rad"@[0] == 'r');
    reveal_strlit("log");
    assert("log"@.len() > 0 && "log"@[0] == 'l');
    reveal_strlit("nroot");
    assert("nroot"@.len() > 0 && "nroot"@[0] == 'n');
}

/// The token is a number: it starts with a digit or a dot.
pub open spec fn number_token(t: Seq<char>) -> bool {
    t.len() > 0 && (is_digit(t[0]) || t[0] == '.')
}

/// The token is made of name characters only.
pub open spec fn name_token(t: Seq<char>) -> bool {
    t.len() > 0 && forall|k: int| 0 <= k < t.len() ==> spec_is_ident_char(#[trigger] t[k])
}

/// A multiplication is implied exactly between a token that ends an operand
/// (a number, `)`, or a name that is no function) and a token that starts
/// one (a number, a name, a function or `(`), except a plain name followed
/// by `(`; so after `)` before every number, name, function or `(`.
pub proof fn implied_multiplication(prev: Seq<char>, curr: Seq<char>)
    requires
        prev.len() > 0,
        curr.len() > 0,
    ensures
        spec_needs_implicit_mul(prev, curr) <==> {
            &&& (prev == ")"@ || number_token(prev) || (name_token(prev) && !spec_is_function_name(prev)))
            &&& (curr == "("@ || number_token(curr) || spec_is_function_name(curr) || name_token(curr))
            &&& !(name_token(prev) && !spec_is_function_name(prev) && curr == "("@)
        },
        prev == ")"@ && (number_token(curr) || name_token(curr) || curr == "("@) ==> spec_needs_implicit_mul(
            prev,
            curr,
        ),
        number_token(prev) && (number_token(curr) || name_token(curr) || curr == "("@) ==> spec_needs_implicit_mul(
            prev,
            curr,
        ),
{
    reveal_strlit("(");
    reveal_strlit(")");
    lemma_function_name_letter(prev);
    lemma_function_name_letter(curr);
    assert("("@.len() == 1 && "("@[0] == '(');
    assert(")"@.len() == 1 && ")"@[0] == ')');
    if name_token(prev) {
        assert(spec_is_ident_char(prev[0]));
    }
    if name_token(curr) {
        assert(spec_is_ident_char(curr[0]));
    }
}
} // verus!
