//! Reading calculator expressions. The reader decides the structure of an
//! expression and every error of its syntax; what it reads becomes a list of
//! steps, in the order in which a reader that computes as it goes would
//! compute them, so that a caller can carry out the arithmetic.
use vstd::prelude::*;
use crate::error::EvaError;
use crate::num::{decimal, push_radix};
use crate::parser::{
    is_function_2, is_function_name, is_ident_char, is_number_char, lemma_name_token,
    lemma_run_while, preprocess, read_name_token, run_while, spec_is_function_name,
    spec_is_ident_char, spec_preprocess, spec_read_name_token,
};
use crate::text::{
    chars_of, digit, is_digit, is_space, push_str, space, str_eq, string_of, to_string, trim, trim_chars,
};

verus! {

/// One step of a computation: push a number (its text) or a constant, or
/// combine the values on top.
#[derive(Debug, Clone, PartialEq, Eq)]
pub enum Step {
    Number(String),
    Constant(String),
    Negate,
    Add,
    Subtract,
    Multiply,
    Divide,
    Power,
    Call(String),
}

/// The content of a [`Step`].
pub enum StepView {
    Number(Seq<char>),
    Constant(Seq<char>),
    Negate,
    Add,
    Subtract,
    Multiply,
    Divide,
    Power,
    Call(Seq<char>),
}

/// The content of a step.
pub open spec fn step_view(s: Step) -> StepView {
    match s {
        Step::Number(t) => StepView::Number(t@),
        Step::Constant(t) => StepView::Constant(t@),
        Step::Negate => StepView::Negate,
        Step::Add => StepView::Add,
        Step::Subtract => StepView::Subtract,
        Step::Multiply => StepView::Multiply,
        Step::Divide => StepView::Divide,
        Step::Power => StepView::Power,
        Step::Call(t) => StepView::Call(t@),
    }
}

/// The contents of a list of steps.
pub open spec fn step_views(v: Seq<Step>) -> Seq<StepView> {
    v.map_values(|s: Step| step_view(s))
}

/// An error of syntax, by kind and message.
pub enum Fault {
    Parser(Seq<char>),
    Syntax(Seq<char>),
}

/// The fault that an error of the reader stands for.
pub open spec fn fault_of(e: EvaError) -> Option<Fault> {
    match e {
        EvaError::Parser(m) => Some(Fault::Parser(m@)),
        EvaError::Syntax(m) => Some(Fault::Syntax(m@)),
        _ => None,
    }
}

/// What reading from a position gives: the steps read, where reading
/// stopped, and the fault that stopped it, if any.
pub struct Read {
    pub steps: Seq<StepView>,
    pub pos: int,
    pub fault: Option<Fault>,
}

/// The message for an operator without its operands.
pub open spec fn too_many() -> Seq<char> {
    "Too many operators, too few operands"@
}

/// The message for a missing closing parenthesis.
pub open spec fn mismatched() -> Seq<char> {
    "Mismatched parentheses!"@
}

/// The message for a call with too few arguments.
pub open spec fn too_few(arity: nat) -> Seq<char> {
    "To few arguments for function, need "@ + decimal(arity)
}

/// The first position from `p` on that does not hold white space.
pub open spec fn ws_end(s: Seq<char>, p: int) -> int
    decreases s.len() - p,
{
    if 0 <= p < s.len() && is_space(s[p]) {
        ws_end(s, p + 1)
    } else {
        p
    }
}

pub proof fn lemma_ws_end(s: Seq<char>, p: int)
    requires
        0 <= p <= s.len(),
    ensures
        p <= ws_end(s, p) <= s.len(),
        ws_end(s, p) < s.len() ==> !is_space(s[ws_end(s, p)]),
    decreases s.len() - p,
{
    if p < s.len() && is_space(s[p]) {
        lemma_ws_end(s, p + 1);
    }
}

/// A fault after `steps`, at `pos`.
pub open spec fn fail(steps: Seq<StepView>, pos: int, f: Fault) -> Read {
    Read { steps, pos, fault: Some(f) }
}

/// A sum or difference of terms read from `p`, after the steps `acc`.
pub open spec fn read_expr(s: Seq<char>, p: int, acc: Seq<StepView>) -> Read
    decreases s.len() - p, 12int,
{
    if p < 0 || p > s.len() {
        fail(acc, p, Fault::Parser(too_many()))
    } else {
        let t = read_term(s, p, acc);
        if t.fault is Some || !(p <= t.pos <= s.len()) {
            t
        } else {
            read_expr_rest(s, t.pos, t.steps)
        }
    }
}

/// The `+ term` and `- term` parts that follow a term at `q`.
pub open spec fn read_expr_rest(s: Seq<char>, q: int, acc: Seq<StepView>) -> Read
    decreases s.len() - q, 11int,
{
    if q < 0 || q > s.len() {
        fail(acc, q, Fault::Parser(too_many()))
    } else {
        proof {
            lemma_ws_end(s, q);
        }
        let w = ws_end(s, q);
        if w < s.len() && (s[w] == '+' || s[w] == '-') {
            let t = read_term(s, w + 1, acc);
            if t.fault is Some || !(w + 1 <= t.pos <= s.len()) {
                t
            } else {
                let op = if s[w] == '+' {
                    StepView::Add
                } else {
                    StepView::Subtract
                };
                read_expr_rest(s, t.pos, t.steps.push(op))
            }
        } else {
            Read { steps: acc, pos: w, fault: None }
        }
    }
}

/// A product or quotient of powers read from `p`.
pub open spec fn read_term(s: Seq<char>, p: int, acc: Seq<StepView>) -> Read
    decreases s.len() - p, 10int,
{
    if p < 0 || p > s.len() {
        fail(acc, p, Fault::Parser(too_many()))
    } else {
        let t = read_power(s, p, acc);
        if t.fault is Some || !(p <= t.pos <= s.len()) {
            t
        } else {
            read_term_rest(s, t.pos, t.steps)
        }
    }
}

/// The `* power` and `/ power` parts that follow a power at `q`.
pub open spec fn read_term_rest(s: Seq<char>, q: int, acc: Seq<StepView>) -> Read
    decreases s.len() - q, 9int,
{
    if q < 0 || q > s.len() {
        fail(acc, q, Fault::Parser(too_many()))
    } else {
        proof {
            lemma_ws_end(s, q);
        }
        let w = ws_end(s, q);
        if w < s.len() && (s[w] == '*' || s[w] == '/') {
            let t = read_power(s, w + 1, acc);
            if t.fault is Some || !(w + 1 <= t.pos <= s.len()) {
                t
            } else {
                let op = if s[w] == '*' {
                    StepView::Multiply
                } else {
                    StepView::Divide
                };
                read_term_rest(s, t.pos, t.steps.push(op))
            }
        } else {
            Read { steps: acc, pos: w, fault: None }
        }
    }
}

/// Where a power operator that starts at `w` ends: after `^` or `**`;
/// `w` itself when no power operator starts there.
pub open spec fn power_op_end(s: Seq<char>, w: int) -> int {
    if 0 <= w < s.len() && s[w] == '^' {
        w + 1
    } else if 0 <= w && w + 1 < s.len() && s[w] == '*' && s[w + 1] == '*' {
        w + 2
    } else {
        w
    }
}

/// A signed operand, raised to a power when `^` or `**` follows (the power
/// read from the right).
pub open spec fn read_power(s: Seq<char>, p: int, acc: Seq<StepView>) -> Read
    decreases s.len() - p, 8int,
{
    if p < 0 || p > s.len() {
        fail(acc, p, Fault::Parser(too_many()))
    } else {
        let u = read_unary(s, p, acc);
        if u.fault is Some || !(p <= u.pos <= s.len()) {
            u
        } else {
            proof {
                lemma_ws_end(s, u.pos);
            }
            let w = ws_end(s, u.pos);
            let b = power_op_end(s, w);
            if b > w {
                let r = read_power(s, b, u.steps);
                if r.fault is Some {
                    r
                } else {
                    Read { steps: r.steps.push(StepView::Power), pos: r.pos, fault: None }
                }
            } else {
                Read { steps: u.steps, pos: w, fault: None }
            }
        }
    }
}

/// An operand after any number of signs; each `-` negates.
pub open spec fn read_unary(s: Seq<char>, p: int, acc: Seq<StepView>) -> Read
    decreases s.len() - p, 7int,
{
    if p < 0 || p > s.len() {
        fail(acc, p, Fault::Parser(too_many()))
    } else {
        proof {
            lemma_ws_end(s, p);
        }
        let w = ws_end(s, p);
        if w < s.len() && s[w] == '+' {
            read_unary(s, w + 1, acc)
        } else if w < s.len() && s[w] == '-' {
            let r = read_unary(s, w + 1, acc);
            if r.fault is Some {
                r
            } else {
                Read { steps: r.steps.push(StepView::Negate), pos: r.pos, fault: None }
            }
        } else {
            read_postfix(s, w, acc)
        }
    }
}

/// An operand that no `(` may follow.
pub open spec fn read_postfix(s: Seq<char>, p: int, acc: Seq<StepView>) -> Read
    decreases s.len() - p, 6int,
{
    if p < 0 || p > s.len() {
        fail(acc, p, Fault::Parser(too_many()))
    } else {
        let r = read_primary(s, p, acc);
        if r.fault is Some || !(p <= r.pos <= s.len()) {
            r
        } else {
            proof {
                lemma_ws_end(s, r.pos);
            }
            let w = ws_end(s, r.pos);
            if w < s.len() && s[w] == '(' {
                fail(r.steps, w, Fault::Parser(too_many()))
            } else {
                Read { steps: r.steps, pos: w, fault: None }
            }
        }
    }
}

/// An expression in parentheses, a number, or a name.
pub open spec fn read_primary(s: Seq<char>, p: int, acc: Seq<StepView>) -> Read
    decreases s.len() - p, 5int,
{
    if p < 0 || p > s.len() {
        fail(acc, p, Fault::Parser(too_many()))
    } else {
        proof {
            lemma_ws_end(s, p);
        }
        let w = ws_end(s, p);
        if w < s.len() && s[w] == '(' {
            let e = read_expr(s, w + 1, acc);
            if e.fault is Some || !(w + 1 <= e.pos <= s.len()) {
                e
            } else {
                proof {
                    lemma_ws_end(s, e.pos);
                }
                let v = ws_end(s, e.pos);
                if v < s.len() && s[v] == ')' {
                    Read { steps: e.steps, pos: v + 1, fault: None }
                } else {
                    fail(e.steps, v, Fault::Syntax(mismatched()))
                }
            }
        } else if w < s.len() && (is_digit(s[w]) || s[w] == '.') {
            read_number(s, w, acc)
        } else if w < s.len() && spec_is_ident_char(s[w]) {
            read_ident(s, w, acc)
        } else {
            fail(acc, w, Fault::Parser(too_many()))
        }
    }
}

/// Where a number that starts at `p` ends: after an optional dot, the run
/// of digits and dots.
pub open spec fn number_stop(s: Seq<char>, p: int) -> int {
    run_while(
        s,
        if s[p] == '.' {
            p + 1
        } else {
            p
        },
        |c: char| is_number_char(c),
    )
}

/// A number: its text, read later in floating point.
pub open spec fn read_number(s: Seq<char>, p: int, acc: Seq<StepView>) -> Read {
    let e = number_stop(s, p);
    Read { steps: acc.push(StepView::Number(s.subrange(p, e))), pos: e, fault: None }
}

/// Whether `name` is a constant: `pi`, `e`, or `_` (the previous answer).
pub open spec fn is_constant(name: Seq<char>) -> bool {
    name == "pi"@ || name == "e"@ || name == "_"@
}

/// The message for a function named without parentheses after it.
pub open spec fn expects_parentheses(name: Seq<char>) -> Seq<char> {
    "Function '"@ + name + "' expected parentheses"@
}

/// A name: a function call when `(` follows, else a constant; a function
/// name without `(` after it is an error of syntax.
pub open spec fn read_ident(s: Seq<char>, p: int, acc: Seq<StepView>) -> Read
    decreases s.len() - p, 4int,
{
    if p < 0 || p >= s.len() || !spec_is_ident_char(s[p]) {
        fail(acc, p, Fault::Parser(too_many()))
    } else {
        proof {
            lemma_name_token(s, p);
        }
        let (name, next) = spec_read_name_token(s, p);
        proof {
            lemma_ws_end(s, next);
        }
        let w = ws_end(s, next);
        if w < s.len() && s[w] == '(' {
            read_call(s, name, w, acc)
        } else if is_constant(name) {
            Read { steps: acc.push(StepView::Constant(name)), pos: w, fault: None }
        } else if spec_is_function_name(name) {
            fail(acc, w, Fault::Syntax(expects_parentheses(name)))
        } else {
            fail(acc, w, Fault::Parser(too_many()))
        }
    }
}

/// The number of arguments that a function takes.
pub open spec fn arity_of(name: Seq<char>) -> nat {
    if is_function_2(name) {
        2
    } else {
        1
    }
}

/// The closing parenthesis of a call at `d`, after the arguments' steps.
pub open spec fn close_call(s: Seq<char>, acc: Seq<StepView>, d: int, name: Seq<char>) -> Read {
    if 0 <= d < s.len() && s[d] == ')' {
        Read { steps: acc.push(StepView::Call(name)), pos: d + 1, fault: None }
    } else {
        fail(acc, d, Fault::Parser(too_few(arity_of(name))))
    }
}

/// What follows the first argument of a call, from `b`: for a function of
/// two arguments a comma and the second argument, then the closing
/// parenthesis.
pub open spec fn read_call_args(s: Seq<char>, name: Seq<char>, b: int, acc: Seq<StepView>) -> Read
    decreases s.len() - b, 1int,
{
    if b < 0 || b > s.len() {
        fail(acc, b, Fault::Parser(too_many()))
    } else if arity_of(name) == 2 {
        if b < s.len() && s[b] == ',' {
            proof {
                lemma_ws_end(s, b + 1);
            }
            let c = ws_end(s, b + 1);
            let e2 = read_expr(s, c, acc);
            if e2.fault is Some || !(c <= e2.pos <= s.len()) {
                e2
            } else {
                close_call(s, e2.steps, ws_end(s, e2.pos), name)
            }
        } else {
            fail(acc, b, Fault::Parser(too_few(2)))
        }
    } else {
        close_call(s, acc, b, name)
    }
}

/// The arguments of a call from its first argument at `a` on.
pub open spec fn read_call_from(s: Seq<char>, name: Seq<char>, a: int, acc: Seq<StepView>) -> Read
    decreases s.len() - a, 13int,
{
    if a < 0 || a > s.len() {
        fail(acc, a, Fault::Parser(too_many()))
    } else {
        let e1 = read_expr(s, a, acc);
        if e1.fault is Some || !(a <= e1.pos <= s.len()) {
            e1
        } else {
            proof {
                lemma_ws_end(s, e1.pos);
            }
            read_call_args(s, name, ws_end(s, e1.pos), e1.steps)
        }
    }
}

/// A call of function `name` whose `(` stands at `p`: one argument, or two
/// separated by a comma, and the closing parenthesis; a fault when `name`
/// is not a function.
pub open spec fn read_call(s: Seq<char>, name: Seq<char>, p: int, acc: Seq<StepView>) -> Read
    decreases s.len() - p, 3int,
{
    if p < 0 || p >= s.len() || !spec_is_function_name(name) {
        fail(acc, p, Fault::Parser(too_many()))
    } else {
        proof {
            lemma_ws_end(s, p + 1);
        }
        let a = ws_end(s, p + 1);
        if a < s.len() && s[a] == ')' {
            fail(acc, a, Fault::Parser(too_few(arity_of(name))))
        } else {
            read_call_from(s, name, a, acc)
        }
    }
}

/// What a line of input reads as: nothing for a blank line; else the steps
/// of its expression after parentheses are balanced and implied products
/// written out, with the fault that stopped reading (an unbalanced `)`, a
/// fault inside, or input left over), if any.
pub enum ReadingView {
    Blank,
    Steps(Seq<StepView>, Option<Fault>),
}

/// The reading of a line.
pub open spec fn spec_read_expression(input: Seq<char>) -> ReadingView {
    let t = trim(input);
    if t.len() == 0 {
        ReadingView::Blank
    } else {
        match spec_preprocess(t) {
            None => ReadingView::Steps(Seq::empty(), Some(Fault::Syntax(mismatched()))),
            Some(s) => {
                let e = read_expr(s, 0, Seq::empty());
                if e.fault is Some {
                    ReadingView::Steps(e.steps, e.fault)
                } else if ws_end(s, e.pos) < s.len() {
                    ReadingView::Steps(e.steps, Some(Fault::Parser(too_many())))
                } else {
                    ReadingView::Steps(e.steps, None)
                }
            },
        }
    }
}

/// A line read: blank, or the steps with the error that stopped reading.
pub enum Reading {
    Blank,
    Steps(Vec<Step>, Option<EvaError>),
}

/// The content of a reading.
pub open spec fn reading_view(r: Reading) -> Option<ReadingView> {
    match r {
        Reading::Blank => Some(ReadingView::Blank),
        Reading::Steps(v, None) => Some(ReadingView::Steps(step_views(v@), None)),
        Reading::Steps(v, Some(e)) => match fault_of(e) {
            Some(f) => Some(ReadingView::Steps(step_views(v@), Some(f))),
            None => None,
        },
    }
}

/// A reading step by step agrees with `rd`: the steps are those of `rd`,
/// and the position reached or the error met is that of `rd`.
pub open spec fn agrees(s: Seq<char>, p: int, after: Seq<Step>, r: Result<usize, EvaError>, rd: Read) -> bool {
    &&& step_views(after) == rd.steps
    &&& match r {
        Ok(q) => rd.fault is None && rd.pos == q && p <= q <= s.len(),
        Err(e) => rd.fault is Some && fault_of(e) == rd.fault,
    }
}

proof fn lemma_push_view(v: Seq<Step>, x: Step)
    ensures
        step_views(v.push(x)) == step_views(v).push(step_view(x)),
{
    assert(step_views(v.push(x)) =~= step_views(v).push(step_view(x)));
}

fn too_many_error() -> (e: EvaError)
    ensures
        fault_of(e) == Some(Fault::Parser(too_many())),
{
    EvaError::Parser(to_string("Too many operators, too few operands"))
}

fn missing_parentheses_error(name: &str) -> (e: EvaError)
    ensures
        fault_of(e) == Some(Fault::Syntax(expects_parentheses(name@))),
{
    let mut m = to_string("Function '");
    push_str(&mut m, name);
    push_str(&mut m, "' expected parentheses");
    EvaError::Syntax(m)
}

fn too_few_error(arity: u64) -> (e: EvaError)
    ensures
        fault_of(e) == Some(Fault::Parser(too_few(arity as nat))),
{
    let mut m = to_string("To few arguments for function, need ");
    push_radix(&mut m, arity, 10);
    EvaError::Parser(m)
}

fn too_few_for(name: &str) -> (e: EvaError)
    ensures
        fault_of(e) == Some(Fault::Parser(too_few(arity_of(name@)))),
{
    let arity: u64 = if str_eq(name, "log") || str_eq(name, "nroot") {
        2
    } else {
        1
    };
    too_few_error(arity)
}

fn skip_ws(s: &[char], p: usize) -> (r: usize)
    requires
        p <= s@.len(),
    ensures
        r == ws_end(s@, p as int),
        p <= r <= s@.len(),
{
    let mut i = p;
    while i < s.len() && space(s[i])
        invariant
            p <= i <= s@.len(),
            ws_end(s@, p as int) == ws_end(s@, i as int),
        decreases s.len() - i,
    {
        i = i + 1;
    }
    i
}

fn push_step(steps: &mut Vec<Step>, x: Step)
    ensures
        step_views(final(steps)@) == step_views(old(steps)@).push(step_view(x)),
{
    let ghost before = steps@;
    steps.push(x);
    proof {
        lemma_push_view(before, x);
    }
}

/// Reads a sum or difference of terms from `p`.
pub fn parse_expression(s: &[char], p: usize, steps: &mut Vec<Step>) -> (r: Result<usize, EvaError>)
    requires
        p <= s@.len(),
    ensures
        agrees(s@, p as int, final(steps)@, r, read_expr(s@, p as int, step_views(old(steps)@))),
    decreases s@.len() - p, 12int,
{
    let q = match parse_term(s, p, steps) {
        Ok(q) => q,
        Err(e) => {
            return Err(e);
        },
    };
    parse_expression_rest(s, q, steps)
}

fn parse_expression_rest(s: &[char], q: usize, steps: &mut Vec<Step>) -> (r: Result<usize, EvaError>)
    requires
        q <= s@.len(),
    ensures
        agrees(s@, q as int, final(steps)@, r, read_expr_rest(s@, q as int, step_views(old(steps)@))),
    decreases s@.len() - q, 11int,
{
    let w = skip_ws(s, q);
    if w < s.len() && (s[w] == '+' || s[w] == '-') {
        let t = match parse_term(s, w + 1, steps) {
            Ok(t) => t,
            Err(e) => {
                return Err(e);
            },
        };
        if s[w] == '+' {
            push_step(steps, Step::Add);
        } else {
            push_step(steps, Step::Subtract);
        }
        parse_expression_rest(s, t, steps)
    } else {
        Ok(w)
    }
}

/// Reads a product or quotient of powers from `p`.
pub fn parse_term(s: &[char], p: usize, steps: &mut Vec<Step>) -> (r: Result<usize, EvaError>)
    requires
        p <= s@.len(),
    ensures
        agrees(s@, p as int, final(steps)@, r, read_term(s@, p as int, step_views(old(steps)@))),
    decreases s@.len() - p, 10int,
{
    let q = match parse_power(s, p, steps) {
        Ok(q) => q,
        Err(e) => {
            return Err(e);
        },
    };
    parse_term_rest(s, q, steps)
}

fn parse_term_rest(s: &[char], q: usize, steps: &mut Vec<Step>) -> (r: Result<usize, EvaError>)
    requires
        q <= s@.len(),
    ensures
        agrees(s@, q as int, final(steps)@, r, read_term_rest(s@, q as int, step_views(old(steps)@))),
    decreases s@.len() - q, 9int,
{
    let w = skip_ws(s, q);
    if w < s.len() && (s[w] == '*' || s[w] == '/') {
        let t = match parse_power(s, w + 1, steps) {
            Ok(t) => t,
            Err(e) => {
                return Err(e);
            },
        };
        if s[w] == '*' {
            push_step(steps, Step::Multiply);
        } else {
            push_step(steps, Step::Divide);
        }
        parse_term_rest(s, t, steps)
    } else {
        Ok(w)
    }
}

/// Reads a signed operand and the power it is raised to (after `^` or
/// `**`), if any.
pub fn parse_power(s: &[char], p: usize, steps: &mut Vec<Step>) -> (r: Result<usize, EvaError>)
    requires
        p <= s@.len(),
    ensures
        agrees(s@, p as int, final(steps)@, r, read_power(s@, p as int, step_views(old(steps)@))),
    decreases s@.len() - p, 8int,
{
    let u = match parse_unary(s, p, steps) {
        Ok(u) => u,
        Err(e) => {
            return Err(e);
        },
    };
    let w = skip_ws(s, u);
    let b = if w < s.len() && s[w] == '^' {
        w + 1
    } else if w < s.len() && s.len() - w > 1 && s[w] == '*' && s[w + 1] == '*' {
        w + 2
    } else {
        w
    };
    if b > w {
        match parse_power(s, b, steps) {
            Ok(r) => {
                push_step(steps, Step::Power);
                Ok(r)
            },
            Err(e) => Err(e),
        }
    } else {
        Ok(w)
    }
}

/// Reads an operand after any signs.
pub fn parse_unary(s: &[char], p: usize, steps: &mut Vec<Step>) -> (r: Result<usize, EvaError>)
    requires
        p <= s@.len(),
    ensures
        agrees(s@, p as int, final(steps)@, r, read_unary(s@, p as int, step_views(old(steps)@))),
    decreases s@.len() - p, 7int,
{
    let w = skip_ws(s, p);
    if w < s.len() && s[w] == '+' {
        parse_unary(s, w + 1, steps)
    } else if w < s.len() && s[w] == '-' {
        match parse_unary(s, w + 1, steps) {
            Ok(q) => {
                push_step(steps, Step::Negate);
                Ok(q)
            },
            Err(e) => Err(e),
        }
    } else {
        parse_postfix(s, w, steps)
    }
}

/// Reads an operand that no `(` may follow.
pub fn parse_postfix(s: &[char], p: usize, steps: &mut Vec<Step>) -> (r: Result<usize, EvaError>)
    requires
        p <= s@.len(),
    ensures
        agrees(s@, p as int, final(steps)@, r, read_postfix(s@, p as int, step_views(old(steps)@))),
    decreases s@.len() - p, 6int,
{
    let q = match parse_primary(s, p, steps) {
        Ok(q) => q,
        Err(e) => {
            return Err(e);
        },
    };
    let w = skip_ws(s, q);
    if w < s.len() && s[w] == '(' {
        Err(too_many_error())
    } else {
        Ok(w)
    }
}

/// Reads an expression in parentheses, a number or a name.
pub fn parse_primary(s: &[char], p: usize, steps: &mut Vec<Step>) -> (r: Result<usize, EvaError>)
    requires
        p <= s@.len(),
    ensures
        agrees(s@, p as int, final(steps)@, r, read_primary(s@, p as int, step_views(old(steps)@))),
    decreases s@.len() - p, 5int,
{
    let w = skip_ws(s, p);
    if w < s.len() && s[w] == '(' {
        let q = match parse_expression(s, w + 1, steps) {
            Ok(q) => q,
            Err(e) => {
                return Err(e);
            },
        };
        let v = skip_ws(s, q);
        if v < s.len() && s[v] == ')' {
            Ok(v + 1)
        } else {
            Err(EvaError::Syntax(to_string("Mismatched parentheses!")))
        }
    } else if w < s.len() && (digit(s[w]) || s[w] == '.') {
        parse_number(s, w, steps)
    } else if w < s.len() && is_ident_char(s[w]) {
        parse_identifier_or_function(s, w, steps)
    } else {
        Err(too_many_error())
    }
}

/// Reads a number's text.
pub fn parse_number(s: &[char], p: usize, steps: &mut Vec<Step>) -> (r: Result<usize, EvaError>)
    requires
        p < s@.len(),
        is_digit(s@[p as int]) || s@[p as int] == '.',
    ensures
        agrees(s@, p as int, final(steps)@, r, read_number(s@, p as int, step_views(old(steps)@))),
{
    let mut e = if s[p] == '.' {
        p + 1
    } else {
        p
    };
    let ghost k0 = e as int;
    proof {
        lemma_run_while(s@, k0, |c: char| is_number_char(c));
    }
    while e < s.len() && (digit(s[e]) || s[e] == '.')
        invariant
            k0 <= e <= s@.len(),
            p <= k0,
            run_while(s@, k0, |c: char| is_number_char(c)) == run_while(
                s@,
                e as int,
                |c: char| is_number_char(c),
            ),
        decreases s.len() - e,
    {
        e = e + 1;
    }
    assert(e == number_stop(s@, p as int));
    assert(e > p) by {
        if s@[p as int] != '.' {
            assert(is_number_char(s@[p as int]));
        }
    }
    let text = crate::text::string_of_range(s, p, e);
    push_step(steps, Step::Number(text));
    Ok(e)
}

/// Reads a name: a call when `(` follows, else a constant.
pub fn parse_identifier_or_function(s: &[char], p: usize, steps: &mut Vec<Step>) -> (r: Result<
    usize,
    EvaError,
>)
    requires
        p < s@.len(),
        spec_is_ident_char(s@[p as int]),
    ensures
        agrees(s@, p as int, final(steps)@, r, read_ident(s@, p as int, step_views(old(steps)@))),
    decreases s@.len() - p, 4int,
{
    proof {
        lemma_name_token(s@, p as int);
    }
    let (name, next) = read_name_token(s, p);
    let w = skip_ws(s, next);
    if w < s.len() && s[w] == '(' {
        parse_function_call(s, name.as_str(), w, steps)
    } else if str_eq(name.as_str(), "pi") || str_eq(name.as_str(), "e") || str_eq(name.as_str(), "_") {
        push_step(steps, Step::Constant(name));
        Ok(w)
    } else if is_function_name(name.as_str()) {
        Err(missing_parentheses_error(name.as_str()))
    } else {
        Err(too_many_error())
    }
}

fn parse_call_args(s: &[char], name: &str, b: usize, steps: &mut Vec<Step>) -> (r: Result<
    usize,
    EvaError,
>)
    requires
        b <= s@.len(),
    ensures
        agrees(s@, b as int, final(steps)@, r, read_call_args(s@, name@, b as int, step_views(old(steps)@))),
    decreases s@.len() - b, 1int,
{
    let two = str_eq(name, "log") || str_eq(name, "nroot");
    let d = if two {
        if !(b < s.len() && s[b] == ',') {
            return Err(too_few_error(2));
        }
        let c = skip_ws(s, b + 1);
        let q2 = match parse_expression(s, c, steps) {
            Ok(q) => q,
            Err(e) => {
                return Err(e);
            },
        };
        skip_ws(s, q2)
    } else {
        b
    };
    if d < s.len() && s[d] == ')' {
        push_step(steps, Step::Call(to_string(name)));
        Ok(d + 1)
    } else {
        Err(too_few_for(name))
    }
}

#[verifier::spinoff_prover]
#[verifier::rlimit(100)]
fn parse_call_from(s: &[char], name: &str, a: usize, steps: &mut Vec<Step>) -> (r: Result<
    usize,
    EvaError,
>)
    requires
        a <= s@.len(),
    ensures
        agrees(s@, a as int, final(steps)@, r, read_call_from(s@, name@, a as int, step_views(old(steps)@))),
    decreases s@.len() - a, 13int,
{
    let q1 = match parse_expression(s, a, steps) {
        Ok(q) => q,
        Err(e) => {
            return Err(e);
        },
    };
    let b = skip_ws(s, q1);
    parse_call_args(s, name, b, steps)
}

/// Reads a call of `name` whose `(` stands at `p`.
pub fn parse_function_call(s: &[char], name: &str, p: usize, steps: &mut Vec<Step>) -> (r: Result<
    usize,
    EvaError,
>)
    requires
        p < s@.len(),
    ensures
        agrees(s@, p as int, final(steps)@, r, read_call(s@, name@, p as int, step_views(old(steps)@))),
    decreases s@.len() - p, 3int,
{
    if !is_function_name(name) {
        return Err(too_many_error());
    }
    let after_paren = if p < s.len() {
        p + 1
    } else {
        p
    };
    let a = skip_ws(s, after_paren);
    if a < s.len() && s[a] == ')' {
        return Err(too_few_for(name));
    }
    parse_call_from(s, name, a, steps)
}

/// Reads a line of input into the steps that compute its value.
pub fn read_expression(input: &str) -> (r: Reading)
    ensures
        reading_view(r) == Some(spec_read_expression(input@)),
{
    let cs = chars_of(input);
    let t = trim_chars(cs.as_slice());
    if t.len() == 0 {
        return Reading::Blank;
    }
    let ts = string_of(t.as_slice());
    let prepared = match preprocess(ts.as_str()) {
        Ok(x) => x,
        Err(e) => {
            let none: Vec<Step> = Vec::new();
            assert(step_views(none@) =~= Seq::<StepView>::empty());
            return Reading::Steps(none, Some(e));
        },
    };
    let s = chars_of(prepared.as_str());
    let mut steps: Vec<Step> = Vec::new();
    assert(step_views(steps@) =~= Seq::<StepView>::empty());
    match parse_expression(s.as_slice(), 0, &mut steps) {
        Err(e) => Reading::Steps(steps, Some(e)),
        Ok(q) => {
            let w = skip_ws(s.as_slice(), q);
            if w < s.len() {
                Reading::Steps(steps, Some(too_many_error()))
            } else {
                Reading::Steps(steps, None)
            }
        },
    }
}


/// The number of values on the stack after a step, from `h` values; `None`
/// when the step lacks an operand.
pub open spec fn step_effect(h: int, x: StepView) -> Option<int> {
    match x {
        StepView::Number(_) => Some(h + 1),
        StepView::Constant(_) => Some(h + 1),
        StepView::Negate => if h >= 1 {
            Some(h)
        } else {
            None
        },
        StepView::Call(name) => if h >= arity_of(name) {
            Some(h - arity_of(name) + 1)
        } else {
            None
        },
        _ => if h >= 2 {
            Some(h - 1)
        } else {
            None
        },
    }
}

/// The number of values left by carrying out `steps` in order on an empty
/// stack; `None` when some step lacks an operand.
pub open spec fn stack_height(steps: Seq<StepView>) -> Option<int>
    decreases steps.len(),
{
    if steps.len() == 0 {
        Some(0)
    } else {
        match stack_height(steps.drop_last()) {
            None => None,
            Some(h) => step_effect(h, steps.last()),
        }
    }
}

/// `r` can be carried out, and leaves `target` values when it has no fault.
pub open spec fn runs_to(r: Read, target: int) -> bool {
    &&& stack_height(r.steps) is Some
    &&& r.fault is None ==> stack_height(r.steps) == Some(target)
}

/// A reading without a fault stops between `p` and `n`.
pub open spec fn within(r: Read, p: int, n: int) -> bool {
    r.fault is None ==> p <= r.pos <= n
}

proof fn lemma_height_push(acc: Seq<StepView>, x: StepView)
    ensures
        stack_height(acc.push(x)) == match stack_height(acc) {
            None => None,
            Some(h) => step_effect(h, x),
        },
{
    assert(acc.push(x).drop_last() =~= acc);
}

proof fn lemma_expr_runs(s: Seq<char>, p: int, acc: Seq<StepView>, h: int)
    requires
        stack_height(acc) == Some(h),
        h >= 0,
    ensures
        runs_to(read_expr(s, p, acc), h + 1),
        within(read_expr(s, p, acc), p, s.len() as int),
    decreases s.len() - p, 12int,
{
    if 0 <= p <= s.len() {
        lemma_term_runs(s, p, acc, h);
        let t = read_term(s, p, acc);
        if t.fault is None && p <= t.pos <= s.len() {
            lemma_expr_rest_runs(s, t.pos, t.steps, h + 1);
        }
    }
}

proof fn lemma_expr_rest_runs(s: Seq<char>, q: int, acc: Seq<StepView>, h: int)
    requires
        stack_height(acc) == Some(h),
        h >= 1,
    ensures
        runs_to(read_expr_rest(s, q, acc), h),
        within(read_expr_rest(s, q, acc), q, s.len() as int),
    decreases s.len() - q, 11int,
{
    if 0 <= q <= s.len() {
        lemma_ws_end(s, q);
        let w = ws_end(s, q);
        if w < s.len() && (s[w] == '+' || s[w] == '-') {
            lemma_term_runs(s, w + 1, acc, h);
            let t = read_term(s, w + 1, acc);
            if t.fault is None && w + 1 <= t.pos <= s.len() {
                let op = if s[w] == '+' {
                    StepView::Add
                } else {
                    StepView::Subtract
                };
                lemma_height_push(t.steps, op);
                lemma_expr_rest_runs(s, t.pos, t.steps.push(op), h);
            }
        }
    }
}

proof fn lemma_term_runs(s: Seq<char>, p: int, acc: Seq<StepView>, h: int)
    requires
        stack_height(acc) == Some(h),
        h >= 0,
    ensures
        runs_to(read_term(s, p, acc), h + 1),
        within(read_term(s, p, acc), p, s.len() as int),
    decreases s.len() - p, 10int,
{
    if 0 <= p <= s.len() {
        lemma_power_runs(s, p, acc, h);
        let t = read_power(s, p, acc);
        if t.fault is None && p <= t.pos <= s.len() {
            lemma_term_rest_runs(s, t.pos, t.steps, h + 1);
        }
    }
}

proof fn lemma_term_rest_runs(s: Seq<char>, q: int, acc: Seq<StepView>, h: int)
    requires
        stack_height(acc) == Some(h),
        h >= 1,
    ensures
        runs_to(read_term_rest(s, q, acc), h),
        within(read_term_rest(s, q, acc), q, s.len() as int),
    decreases s.len() - q, 9int,
{
    if 0 <= q <= s.len() {
        lemma_ws_end(s, q);
        let w = ws_end(s, q);
        if w < s.len() && (s[w] == '*' || s[w] == '/') {
            lemma_power_runs(s, w + 1, acc, h);
            let t = read_power(s, w + 1, acc);
            if t.fault is None && w + 1 <= t.pos <= s.len() {
                let op = if s[w] == '*' {
                    StepView::Multiply
                } else {
                    StepView::Divide
                };
                lemma_height_push(t.steps, op);
                lemma_term_rest_runs(s, t.pos, t.steps.push(op), h);
            }
        }
    }
}

proof fn lemma_power_runs(s: Seq<char>, p: int, acc: Seq<StepView>, h: int)
    requires
        stack_height(acc) == Some(h),
        h >= 0,
    ensures
        runs_to(read_power(s, p, acc), h + 1),
        within(read_power(s, p, acc), p, s.len() as int),
    decreases s.len() - p, 8int,
{
    if 0 <= p <= s.len() {
        lemma_unary_runs(s, p, acc, h);
        let u = read_unary(s, p, acc);
        if u.fault is None && p <= u.pos <= s.len() {
            lemma_ws_end(s, u.pos);
            let w = ws_end(s, u.pos);
            let b = power_op_end(s, w);
            if b > w {
                lemma_power_runs(s, b, u.steps, h + 1);
                let r = read_power(s, b, u.steps);
                lemma_height_push(r.steps, StepView::Power);
            }
        }
    }
}

proof fn lemma_unary_runs(s: Seq<char>, p: int, acc: Seq<StepView>, h: int)
    requires
        stack_height(acc) == Some(h),
        h >= 0,
    ensures
        runs_to(read_unary(s, p, acc), h + 1),
        within(read_unary(s, p, acc), p, s.len() as int),
    decreases s.len() - p, 7int,
{
    if 0 <= p <= s.len() {
        lemma_ws_end(s, p);
        let w = ws_end(s, p);
        if w < s.len() && s[w] == '+' {
            lemma_unary_runs(s, w + 1, acc, h);
        } else if w < s.len() && s[w] == '-' {
            lemma_unary_runs(s, w + 1, acc, h);
            lemma_height_push(read_unary(s, w + 1, acc).steps, StepView::Negate);
        } else {
            lemma_postfix_runs(s, w, acc, h);
        }
    }
}

proof fn lemma_postfix_runs(s: Seq<char>, p: int, acc: Seq<StepView>, h: int)
    requires
        stack_height(acc) == Some(h),
        h >= 0,
    ensures
        runs_to(read_postfix(s, p, acc), h + 1),
        within(read_postfix(s, p, acc), p, s.len() as int),
    decreases s.len() - p, 6int,
{
    if 0 <= p <= s.len() {
        lemma_primary_runs(s, p, acc, h);
        let r = read_primary(s, p, acc);
        if r.fault is None && p <= r.pos <= s.len() {
            lemma_ws_end(s, r.pos);
        }
    }
}

proof fn lemma_primary_runs(s: Seq<char>, p: int, acc: Seq<StepView>, h: int)
    requires
        stack_height(acc) == Some(h),
        h >= 0,
    ensures
        runs_to(read_primary(s, p, acc), h + 1),
        within(read_primary(s, p, acc), p, s.len() as int),
    decreases s.len() - p, 5int,
{
    if 0 <= p <= s.len() {
        lemma_ws_end(s, p);
        let w = ws_end(s, p);
        if w < s.len() && s[w] == '(' {
            lemma_expr_runs(s, w + 1, acc, h);
            let e = read_expr(s, w + 1, acc);
            if e.fault is None && w + 1 <= e.pos <= s.len() {
                lemma_ws_end(s, e.pos);
            }
        } else if w < s.len() && (is_digit(s[w]) || s[w] == '.') {
            let e = number_stop(s, w);
            lemma_run_while(s, if s[w] == '.' {
                w + 1
            } else {
                w
            }, |c: char| is_number_char(c));
            lemma_height_push(acc, StepView::Number(s.subrange(w, e)));
        } else if w < s.len() && spec_is_ident_char(s[w]) {
            lemma_ident_runs(s, w, acc, h);
        }
    }
}

proof fn lemma_ident_runs(s: Seq<char>, p: int, acc: Seq<StepView>, h: int)
    requires
        stack_height(acc) == Some(h),
        h >= 0,
    ensures
        runs_to(read_ident(s, p, acc), h + 1),
        within(read_ident(s, p, acc), p, s.len() as int),
    decreases s.len() - p, 4int,
{
    if 0 <= p < s.len() && spec_is_ident_char(s[p]) {
        lemma_name_token(s, p);
        let (name, next) = spec_read_name_token(s, p);
        lemma_ws_end(s, next);
        let w = ws_end(s, next);
        if w < s.len() && s[w] == '(' {
            lemma_call_runs(s, name, w, acc, h);
        } else {
            lemma_height_push(acc, StepView::Constant(name));
        }
    }
}

proof fn lemma_call_runs(s: Seq<char>, name: Seq<char>, p: int, acc: Seq<StepView>, h: int)
    requires
        stack_height(acc) == Some(h),
        h >= 0,
    ensures
        runs_to(read_call(s, name, p, acc), h + 1),
        within(read_call(s, name, p, acc), p, s.len() as int),
    decreases s.len() - p, 3int,
{
    if 0 <= p < s.len() && spec_is_function_name(name) {
        lemma_ws_end(s, p + 1);
        lemma_call_from_runs(s, name, ws_end(s, p + 1), acc, h);
    }
}

proof fn lemma_call_from_runs(s: Seq<char>, name: Seq<char>, a: int, acc: Seq<StepView>, h: int)
    requires
        stack_height(acc) == Some(h),
        h >= 0,
    ensures
        runs_to(read_call_from(s, name, a, acc), h + 1),
        within(read_call_from(s, name, a, acc), a, s.len() as int),
    decreases s.len() - a, 13int,
{
    if 0 <= a <= s.len() && !(a < s.len() && s[a] == ')') {
        lemma_expr_runs(s, a, acc, h);
        let e1 = read_expr(s, a, acc);
        if e1.fault is None && a <= e1.pos <= s.len() {
            lemma_ws_end(s, e1.pos);
            lemma_call_args_runs(s, name, ws_end(s, e1.pos), e1.steps, h + 1);
        }
    }
}

proof fn lemma_call_args_runs(s: Seq<char>, name: Seq<char>, b: int, acc: Seq<StepView>, h: int)
    requires
        stack_height(acc) == Some(h),
        h >= 1,
    ensures
        runs_to(read_call_args(s, name, b, acc), h),
        within(read_call_args(s, name, b, acc), b, s.len() as int),
    decreases s.len() - b, 1int,
{
    if 0 <= b <= s.len() {
        if arity_of(name) == 2 {
            if b < s.len() && s[b] == ',' {
                lemma_ws_end(s, b + 1);
                let c = ws_end(s, b + 1);
                lemma_expr_runs(s, c, acc, h);
                let e2 = read_expr(s, c, acc);
                if e2.fault is None && c <= e2.pos <= s.len() {
                    lemma_ws_end(s, e2.pos);
                }
                lemma_height_push(e2.steps, StepView::Call(name));
            }
        } else {
            lemma_height_push(acc, StepView::Call(name));
        }
    }
}

/// The steps of any line can be carried out in order, no step lacking an
/// operand, and a reading without a fault leaves exactly one value.
pub proof fn steps_are_well_formed(input: Seq<char>)
    ensures
        spec_read_expression(input) matches ReadingView::Steps(steps, fault) ==> stack_height(
            steps,
        ) is Some && (fault is None ==> stack_height(steps) == Some(1int)),
{
    let t = trim(input);
    if t.len() > 0 {
        match spec_preprocess(t) {
            None => {},
            Some(s) => {
                lemma_expr_runs(s, 0, Seq::empty(), 0);
            },
        }
    }
}

} // verus!
