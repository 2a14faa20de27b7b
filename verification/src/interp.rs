use vstd::prelude::*;
use crate::assoc::AssocMap;
use crate::ast::{AST, BinOpKind, Body, Expr, FnId, Stmt};
use crate::symbol::Symbol;
use crate::text::{bool_text, dec, digit_char, int_text, push_bool, push_int, push_str};

verus! {

/// A value of the interpreted language.
pub enum Value {
    Bool(bool),
    Int(i64),
    Str(String),
    Nil,
}

/// Why interpretation stopped.
pub enum RuntimeError {
    /// An arithmetic or ordering operator got a non-integer.
    NotInt,
    /// A condition was not a boolean.
    NotBool,
    /// An arithmetic operation overflowed, or a remainder was taken by zero.
    Arithmetic,
    /// A variable was read before it was assigned.
    UnknownVar(Symbol),
    /// An input line was neither a quoted string, a boolean nor an integer.
    InvalidInput(String),
    /// A call named no function of the program.
    UnknownFn,
    /// A call's callee was not a function reference.
    NotAFunction,
    /// No function has the entry point's name.
    NoMain,
    /// The construct is not interpreted (lists and dictionaries).
    Unsupported,
    /// The step budget ran out.
    OutOfFuel,
}

/// How a statement ended: normally, or by returning a value.
pub enum Flow {
    Normal,
    Ret(Value),
}

/// The input lines, how many of them were read, and the output lines.
pub struct Io {
    pub input: Vec<String>,
    pub pos: usize,
    pub output: Vec<String>,
}

/// What has been read and written so far.
pub struct St {
    pub pos: usize,
    pub out: Seq<Seq<char>>,
}

impl Io {
    pub open spec fn st(&self) -> St {
        St { pos: self.pos, out: self.output@.map_values(|s: String| s@) }
    }

    pub open spec fn lines(&self) -> Seq<Seq<char>> {
        self.input@.map_values(|s: String| s@)
    }
}

/// The mathematical value of a `Value`.
pub enum Val {
    Bool(bool),
    Int(i64),
    Str(Seq<char>),
    Nil,
}

/// The mathematical value of a `RuntimeError`.
pub enum Fail {
    NotInt,
    NotBool,
    Arithmetic,
    UnknownVar(Symbol),
    InvalidInput(Seq<char>),
    UnknownFn,
    NotAFunction,
    NoMain,
    Unsupported,
    OutOfFuel,
}

/// How a statement ended, mathematically.
pub enum FlowV {
    Normal,
    Ret(Val),
}

impl Value {
    pub open spec fn view(&self) -> Val {
        match self {
            Value::Bool(b) => Val::Bool(*b),
            Value::Int(i) => Val::Int(*i),
            Value::Str(s) => Val::Str(s@),
            Value::Nil => Val::Nil,
        }
    }
}

impl RuntimeError {
    pub open spec fn view(&self) -> Fail {
        match self {
            RuntimeError::NotInt => Fail::NotInt,
            RuntimeError::NotBool => Fail::NotBool,
            RuntimeError::Arithmetic => Fail::Arithmetic,
            RuntimeError::UnknownVar(v) => Fail::UnknownVar(*v),
            RuntimeError::InvalidInput(s) => Fail::InvalidInput(s@),
            RuntimeError::UnknownFn => Fail::UnknownFn,
            RuntimeError::NotAFunction => Fail::NotAFunction,
            RuntimeError::NoMain => Fail::NoMain,
            RuntimeError::Unsupported => Fail::Unsupported,
            RuntimeError::OutOfFuel => Fail::OutOfFuel,
        }
    }
}

impl Flow {
    pub open spec fn view(&self) -> FlowV {
        match self {
            Flow::Normal => FlowV::Normal,
            Flow::Ret(v) => FlowV::Ret(v.view()),
        }
    }
}

/// The mathematical value of a result.
pub open spec fn rv<T, U>(r: Result<T, RuntimeError>, f: spec_fn(T) -> U) -> Result<U, Fail> {
    match r {
        Ok(x) => Ok(f(x)),
        Err(e) => Err(e.view()),
    }
}

/// The result of applying an operator: `==` and `!=` compare any values,
/// the others need integers.  Where the language has no answer (an operand
/// that is not an integer, an overflow, a remainder by zero) the result is
/// an error that stops the run, which the caller reports; the interpreter
/// itself never panics.
pub open spec fn binop_spec(op: BinOpKind, a: Val, b: Val) -> Result<Val, Fail> {
    if op == BinOpKind::Equ {
        Ok(Val::Bool(a == b))
    } else if op == BinOpKind::Ne {
        Ok(Val::Bool(a != b))
    } else {
        match (a, b) {
            (Val::Int(x), Val::Int(y)) => match op {
                BinOpKind::Lt => Ok(Val::Bool(x < y)),
                BinOpKind::Gt => Ok(Val::Bool(x > y)),
                BinOpKind::Mod => match x.checked_rem(y) {
                    Some(r) => Ok(Val::Int(r)),
                    None => Err(Fail::Arithmetic),
                },
                BinOpKind::Plus => match x.checked_add(y) {
                    Some(r) => Ok(Val::Int(r)),
                    None => Err(Fail::Arithmetic),
                },
                BinOpKind::Mul => match x.checked_mul(y) {
                    Some(r) => Ok(Val::Int(r)),
                    None => Err(Fail::Arithmetic),
                },
                _ => match x.checked_sub(y) {
                    Some(r) => Ok(Val::Int(r)),
                    None => Err(Fail::Arithmetic),
                },
            },
            _ => Err(Fail::NotInt),
        }
    }
}

/// Whether `c` is white space (the Unicode `White_Space` property).
pub open spec fn is_ws(c: char) -> bool {
    ('\u{9}' <= c <= '\u{d}') || c == ' ' || c == '\u{85}' || c == '\u{a0}' || c == '\u{1680}'
        || ('\u{2000}' <= c <= '\u{200a}') || c == '\u{2028}' || c == '\u{2029}' || c == '\u{202f}'
        || c == '\u{205f}' || c == '\u{3000}'
}

/// `s` without leading white space.
pub open spec fn trim_start(s: Seq<char>) -> Seq<char>
    decreases s.len(),
{
    if s.len() > 0 && is_ws(s[0]) { trim_start(s.drop_first()) } else { s }
}

/// `s` without trailing white space.
pub open spec fn trim_end(s: Seq<char>) -> Seq<char>
    decreases s.len(),
{
    if s.len() > 0 && is_ws(s.last()) { trim_end(s.drop_last()) } else { s }
}

/// `s` without leading and trailing white space.
pub open spec fn trim_spec(s: Seq<char>) -> Seq<char> {
    trim_end(trim_start(s))
}

/// Whether `c` is white space.
fn is_ws_char(c: char) -> (r: bool)
    ensures
        r == is_ws(c),
{
    ('\u{9}' <= c && c <= '\u{d}') || c == ' ' || c == '\u{85}' || c == '\u{a0}' || c == '\u{1680}'
        || ('\u{2000}' <= c && c <= '\u{200a}') || c == '\u{2028}' || c == '\u{2029}' || c == '\u{202f}'
        || c == '\u{205f}' || c == '\u{3000}'
}

/// Dropping leading white space up to the first other character.
proof fn lemma_trim_start(s: Seq<char>, a: int)
    requires
        0 <= a <= s.len(),
        forall|j: int| 0 <= j < a ==> is_ws(#[trigger] s[j]),
        a == s.len() || !is_ws(s[a]),
    ensures
        trim_start(s) == s.subrange(a, s.len() as int),
    decreases a,
{
    if a == 0 {
        assert(s.subrange(0, s.len() as int) =~= s);
    } else {
        let t = s.drop_first();
        assert forall|j: int| 0 <= j < a - 1 implies is_ws(#[trigger] t[j]) by {
            assert(t[j] == s[j + 1]);
        }
        if a < s.len() {
            assert(t[a - 1] == s[a]);
        }
        lemma_trim_start(t, a - 1);
        assert(t.subrange(a - 1, t.len() as int) =~= s.subrange(a, s.len() as int));
    }
}

/// Dropping trailing white space back to the last other character.
proof fn lemma_trim_end(s: Seq<char>, b: int)
    requires
        0 <= b <= s.len(),
        forall|j: int| b <= j < s.len() ==> is_ws(#[trigger] s[j]),
        b == 0 || !is_ws(s[b - 1]),
    ensures
        trim_end(s) == s.subrange(0, b),
    decreases s.len() - b,
{
    if b == s.len() {
        assert(s.subrange(0, b) =~= s);
    } else {
        let t = s.drop_last();
        assert forall|j: int| b <= j < t.len() implies is_ws(#[trigger] t[j]) by {
            assert(t[j] == s[j]);
        }
        if b > 0 {
            assert(t[b - 1] == s[b - 1]);
        }
        assert(is_ws(s[s.len() - 1]));
        lemma_trim_end(t, b);
        assert(t.subrange(0, b) =~= s.subrange(0, b));
    }
}

/// The chars of `s` with leading and trailing white space removed, as
/// `str::trim` removes them.
fn trim_chars(s: &String) -> (r: Vec<char>)
    ensures
        r@ == trim_spec(s@),
{
    let t = s.as_str();
    let n = t.unicode_len();
    let mut cs: Vec<char> = Vec::new();
    let mut i: usize = 0;
    while i < n
        invariant
            i <= n,
            n == t@.len(),
            t@ == s@,
            cs@ == t@.take(i as int),
        decreases n - i,
    {
        let c = t.get_char(i);
        cs.push(c);
        assert(cs@ =~= t@.take(i + 1));
        i = i + 1;
    }
    assert(t@.take(n as int) =~= t@);
    let mut a: usize = 0;
    while a < n && is_ws_char(cs[a])
        invariant
            a <= n,
            n == cs@.len(),
            forall|j: int| 0 <= j < a ==> is_ws(#[trigger] cs@[j]),
        decreases n - a,
    {
        a = a + 1;
    }
    let mut b: usize = n;
    while b > a && is_ws_char(cs[b - 1])
        invariant
            a <= b <= n,
            n == cs@.len(),
            forall|j: int| b <= j < n ==> is_ws(#[trigger] cs@[j]),
        decreases b - a,
    {
        b = b - 1;
    }
    let mut out: Vec<char> = Vec::new();
    let mut k: usize = a;
    while k < b
        invariant
            a <= k <= b <= n,
            n == cs@.len(),
            out@ == cs@.subrange(a as int, k as int),
        decreases b - k,
    {
        out.push(cs[k]);
        assert(out@ =~= cs@.subrange(a as int, k + 1));
        k = k + 1;
    }
    proof {
        lemma_trim_start(cs@, a as int);
        let u = cs@.subrange(a as int, n as int);
        assert forall|j: int| b - a <= j < u.len() implies is_ws(#[trigger] u[j]) by {
            assert(u[j] == cs@[a + j]);
        }
        if b > a {
            assert(u[b - a - 1] == cs@[b - 1]);
        }
        lemma_trim_end(u, b - a);
        assert(u.subrange(0, b - a) =~= cs@.subrange(a as int, b as int));
    }
    out
}

/// Whether `c` is a decimal digit.
pub open spec fn is_digit(c: char) -> bool {
    '0' <= c <= '9'
}

/// The number the decimal digits `s` denote.
pub open spec fn digits_value(s: Seq<char>) -> int
    decreases s.len(),
{
    if s.len() == 0 {
        0
    } else {
        digits_value(s.drop_last()) * 10 + (s.last() as int - '0' as int)
    }
}

/// The digits of a number: `s` without its sign, if it has one.
pub open spec fn num_body(s: Seq<char>) -> Seq<char> {
    if s.len() > 0 && (s[0] == '-' || s[0] == '+') { s.drop_first() } else { s }
}

/// A number with a character that is no digit denotes nothing.
proof fn lemma_int_of_none(s: Seq<char>, j: int)
    requires
        0 <= j < num_body(s).len(),
        !is_digit(num_body(s)[j]),
    ensures
        int_of(s) is None,
{
}

/// The integer `s` denotes: an optional sign and at least one decimal
/// digit.
pub open spec fn int_of(s: Seq<char>) -> Option<int> {
    let neg = s.len() > 0 && s[0] == '-';
    let body = num_body(s);
    if body.len() > 0 && forall|i: int| 0 <= i < body.len() ==> is_digit(#[trigger] body[i]) {
        Some(if neg { -digits_value(body) } else { digits_value(body) })
    } else {
        None
    }
}

/// The `i64` that `s` denotes, if it denotes one in range.
pub open spec fn parse_i64_spec(s: Seq<char>) -> Option<i64> {
    match int_of(s) {
        Some(v) => if i64::MIN <= v <= i64::MAX { Some(v as i64) } else { None },
        None => None,
    }
}

/// The digits of a number only add to its value.
proof fn lemma_digits_prefix(s: Seq<char>, k: int)
    requires
        0 <= k <= s.len(),
        forall|i: int| 0 <= i < s.len() ==> is_digit(#[trigger] s[i]),
    ensures
        0 <= digits_value(s.take(k)) <= digits_value(s),
    decreases s.len() - k,
{
    if k == s.len() {
        assert(s.take(k) =~= s);
        lemma_digits_nonneg(s);
    } else {
        lemma_digits_prefix(s, k + 1);
        assert(s.take(k + 1).drop_last() =~= s.take(k));
        assert(s.take(k + 1).last() == s[k]);
        lemma_digits_nonneg(s.take(k));
    }
}

/// The value of digits is not negative.
proof fn lemma_digits_nonneg(s: Seq<char>)
    requires
        forall|i: int| 0 <= i < s.len() ==> is_digit(#[trigger] s[i]),
    ensures
        digits_value(s) >= 0,
    decreases s.len(),
{
    if s.len() > 0 {
        let p = s.drop_last();
        assert forall|i: int| 0 <= i < p.len() implies is_digit(#[trigger] p[i]) by {
            assert(p[i] == s[i]);
        }
        lemma_digits_nonneg(p);
        assert(is_digit(s[s.len() - 1]));
    }
}

/// Parses `s` as an `i64`, as `str::parse::<i64>` does: an optional `+` or
/// `-` and decimal digits, in range.
fn parse_i64(s: &Vec<char>) -> (r: Option<i64>)
    ensures
        r == parse_i64_spec(s@),
{
    let n = s.len();
    let neg = n > 0 && s[0] == '-';
    let start: usize = if n > 0 && (s[0] == '-' || s[0] == '+') { 1 } else { 0 };
    let ghost body = num_body(s@);
    assert(body =~= s@.subrange(start as int, n as int));
    if start == n {
        return None;
    }
    let mut acc: u64 = 0;
    let mut i: usize = start;
    while i < n
        invariant
            start <= i <= n,
            n == s@.len(),
            body == s@.subrange(start as int, n as int),
            body == num_body(s@),
            neg == (s@.len() > 0 && s@[0] == '-'),
            forall|j: int| 0 <= j < i - start ==> is_digit(#[trigger] body[j]),
            acc as int == digits_value(body.take(i - start)),
            acc <= 9223372036854775808u64,
        decreases n - i,
    {
        let c = s[i];
        assert(body[i - start] == c);
        if !('0' <= c && c <= '9') {
            proof {
                assert(!is_digit(body[i - start]));
                lemma_int_of_none(s@, i - start);
            }
            return None;
        }
        let d: u64 = (c as u32 - '0' as u32) as u64;
        proof {
            assert(body.take(i - start + 1).drop_last() =~= body.take(i - start));
            assert(body.take(i - start + 1).last() == c);
        }
        if acc > 922337203685477580u64 || (acc == 922337203685477580u64 && d > 8) {
            proof {
                let v = digits_value(body.take(i - start + 1));
                assert(v > 9223372036854775808) by (nonlinear_arith)
                    requires
                        v == acc * 10 + d,
                        acc > 922337203685477580 || (acc == 922337203685477580 && d > 8),
                        0 <= d;
                if forall|j: int| 0 <= j < body.len() ==> is_digit(#[trigger] body[j]) {
                    lemma_digits_prefix(body, i - start + 1);
                    assert(digits_value(body) > 9223372036854775808);
                    assert(int_of(s@) == Some(if neg { -digits_value(body) } else { digits_value(body) }));
                } else {
                    let j = choose|j: int| 0 <= j < body.len() && !is_digit(#[trigger] body[j]);
                    lemma_int_of_none(s@, j);
                }
            }
            return None;
        }
        acc = acc * 10 + d;
        i = i + 1;
    }
    proof {
        assert(body.take(n - start) =~= body);
    }
    if neg {
        if acc == 9223372036854775808u64 {
            Some(i64::MIN)
        } else {
            Some(-(acc as i64))
        }
    } else if acc <= 9223372036854775807u64 {
        Some(acc as i64)
    } else {
        None
    }
}

/// How many times `c` occurs in `s`.
pub open spec fn count_char(s: Seq<char>, c: char) -> nat
    decreases s.len(),
{
    if s.len() == 0 {
        0
    } else {
        count_char(s.drop_last(), c) + if s.last() == c { 1nat } else { 0nat }
    }
}

/// The value an input line denotes, once trimmed: the text between the
/// only two double quotes, `true`, `false`, or an integer.
pub open spec fn input_value(line: Seq<char>) -> Result<Val, Fail> {
    let s = trim_spec(line);
    if s.len() >= 1 && s[0] == '\x22' && s.last() == '\x22' && count_char(s, '\x22') == 2 {
        Ok(Val::Str(s.subrange(1, s.len() - 1)))
    } else if s == "true"@ {
        Ok(Val::Bool(true))
    } else if s == "false"@ {
        Ok(Val::Bool(false))
    } else {
        match parse_i64_spec(s) {
            Some(i) => Ok(Val::Int(i)),
            None => Err(Fail::InvalidInput(s)),
        }
    }
}

/// The text a print of `v` shows.
pub open spec fn print_text(v: Val) -> Seq<char> {
    match v {
        Val::Int(i) => int_text(i as int),
        Val::Str(s) => s,
        Val::Bool(b) => bool_text(b),
        Val::Nil => "nil"@,
    }
}

/// The line read from `input` at `pos`: the next line, or an empty one once
/// the input is exhausted.
pub open spec fn line_at(input: Seq<Seq<char>>, pos: usize) -> Seq<char> {
    if pos < input.len() { input[pos as int] } else { Seq::empty() }
}

/// The character of a digit is a digit of that value.
proof fn lemma_digit_char(d: nat)
    requires
        d < 10,
    ensures
        is_digit(digit_char(d)),
        digit_char(d) as int - '0' as int == d,
{
}

/// The decimal notation of `n` is a non-empty run of digits that denotes `n`.
proof fn lemma_dec_digits(n: nat)
    ensures
        dec(n).len() >= 1,
        forall|i: int| 0 <= i < dec(n).len() ==> is_digit(#[trigger] dec(n)[i]),
        digits_value(dec(n)) == n,
    decreases n,
{
    lemma_digit_char(n % 10);
    if n < 10 {
        lemma_digit_char(n);
        assert(digits_value(dec(n)) == digits_value(dec(n).drop_last()) * 10 + (dec(n).last() as int - '0' as int));
        assert(dec(n).drop_last() =~= Seq::<char>::empty());
    } else {
        lemma_dec_digits(n / 10);
        let p = dec(n / 10);
        let t = p.push(digit_char(n % 10));
        assert(t.drop_last() =~= p);
        assert forall|i: int| 0 <= i < t.len() implies is_digit(#[trigger] t[i]) by {
            if i < p.len() {
                assert(t[i] == p[i]);
            }
        }
        vstd::arithmetic::div_mod::lemma_fundamental_div_mod(n as int, 10);
    }
}

/// Text that neither starts nor ends with white space is its own trim.
proof fn lemma_trim_id(s: Seq<char>)
    requires
        s.len() > 0,
        !is_ws(s[0]),
        !is_ws(s.last()),
    ensures
        trim_spec(s) == s,
{
}

/// Reading back the notation of an integer gives the integer.
pub proof fn lemma_int_text_parse(x: int)
    ensures
        int_of(int_text(x)) == Some(x),
        fits_i64(x) ==> parse_i64_spec(int_text(x)) == Some(x as i64),
{
    let s = int_text(x);
    if x < 0 {
        let d = dec((-x) as nat);
        lemma_dec_digits((-x) as nat);
        assert(s.drop_first() =~= d);
    } else {
        lemma_dec_digits(x as nat);
    }
}

/// What a print shows of an integer or a boolean, read back as a line of
/// input, is that same value: printing and reading agree.
pub proof fn lemma_print_read(v: Val)
    requires
        v is Int || v is Bool,
    ensures
        input_value(print_text(v)) == Ok::<Val, Fail>(v),
{
    reveal_strlit("true");
    reveal_strlit("false");
    let s = print_text(v);
    match v {
        Val::Int(i) => {
            lemma_int_text_parse(i as int);
            if i < 0 {
                lemma_dec_digits((-i) as nat);
                assert(s.last() == dec((-i) as nat).last());
            } else {
                lemma_dec_digits(i as nat);
            }
            assert(is_digit(s.last()));
            lemma_trim_id(s);
            assert(s != "true"@);
            assert(s != "false"@);
        },
        _ => {
            lemma_trim_id(s);
            assert(s =~= "true"@ || s =~= "false"@);
        },
    }
}

/// The state after reading a line.
pub open spec fn after_read(input: Seq<Seq<char>>, st: St) -> St {
    St { pos: if st.pos < input.len() { (st.pos + 1) as usize } else { st.pos }, out: st.out }
}

/// The variables of a call: each parameter bound to the argument at its
/// position, as far as both go; a later parameter of the same name wins.
pub open spec fn bind_args(params: Seq<Symbol>, vals: Seq<Val>) -> Map<Symbol, Val>
    decreases params.len() + vals.len(),
{
    if params.len() == 0 || vals.len() == 0 {
        Map::empty()
    } else if params.len() > vals.len() {
        bind_args(params.take(vals.len() as int), vals)
    } else if vals.len() > params.len() {
        bind_args(params, vals.take(params.len() as int))
    } else {
        bind_args(params.drop_last(), vals.drop_last()).insert(params.last(), vals.last())
    }
}

/// Evaluating `e` with the variables `vars`, the input `input` and a budget
/// of `fuel` steps (a loop iteration or a call each take one): the result
/// and what was read and written.
pub open spec fn eval_spec(ast: AST, e: Expr, vars: Map<Symbol, Val>, input: Seq<Seq<char>>, st: St, fuel: nat) -> (Result<Val, Fail>, St)
    decreases fuel, 0nat, e,
{
    match e {
        Expr::FnCall(f, args) => {
            let (ra, st1) = args_spec(ast, args@, vars, input, st, fuel);
            match ra {
                Err(x) => (Err(x), st1),
                Ok(vals) => match *f {
                    Expr::FnId(fid) => if fid >= ast.fns@.len() {
                        (Err(Fail::UnknownFn), st1)
                    } else if fuel == 0 {
                        (Err(Fail::OutOfFuel), st1)
                    } else {
                        let fd = ast.fns@[fid as int];
                        let (r, _, st2) = body_spec(ast, fd.body@, bind_args(fd.args@, vals), input, st1, (fuel - 1) as nat);
                        (returned(r), st2)
                    },
                    _ => (Err(Fail::NotAFunction), st1),
                },
            }
        },
        Expr::BinOp(op, e1, e2) => {
            let (r1, st1) = eval_spec(ast, *e1, vars, input, st, fuel);
            match r1 {
                Err(x) => (Err(x), st1),
                Ok(v1) => {
                    let (r2, st2) = eval_spec(ast, *e2, vars, input, st1, fuel);
                    match r2 {
                        Err(x) => (Err(x), st2),
                        Ok(v2) => (binop_spec(op, v1, v2), st2),
                    }
                },
            }
        },
        Expr::IntLit(i) => (Ok(Val::Int(i)), st),
        Expr::StringLit(x) => (Ok(Val::Str(x@)), st),
        Expr::BoolLit(b) => (Ok(Val::Bool(b)), st),
        Expr::Var(v) => if vars.contains_key(v) { (Ok(vars[v]), st) } else { (Err(Fail::UnknownVar(v)), st) },
        Expr::Input => (input_value(line_at(input, st.pos)), after_read(input, st)),
        _ => (Err(Fail::Unsupported), st),
    }
}

/// Evaluating the expressions `es` from left to right.
pub open spec fn args_spec(ast: AST, es: Seq<Expr>, vars: Map<Symbol, Val>, input: Seq<Seq<char>>, st: St, fuel: nat) -> (Result<Seq<Val>, Fail>, St)
    decreases fuel, 0nat, es,
{
    if es.len() == 0 {
        (Ok(Seq::empty()), st)
    } else {
        let (r, st1) = args_spec(ast, es.drop_last(), vars, input, st, fuel);
        match r {
            Err(x) => (Err(x), st1),
            Ok(vs) => {
                let (r2, st2) = eval_spec(ast, es.last(), vars, input, st1, fuel);
                match r2 {
                    Err(x) => (Err(x), st2),
                    Ok(v) => (Ok(vs.push(v)), st2),
                }
            },
        }
    }
}

/// Executing a statement: how it ended, the variables and what was read
/// and written.
pub open spec fn stmt_spec(ast: AST, s: Stmt, vars: Map<Symbol, Val>, input: Seq<Seq<char>>, st: St, fuel: nat) -> (Result<FlowV, Fail>, Map<Symbol, Val>, St)
    decreases fuel, 1nat, s,
{
    match s {
        Stmt::Return(e) => {
            let (r, st1) = eval_spec(ast, e, vars, input, st, fuel);
            match r {
                Err(x) => (Err(x), vars, st1),
                Ok(v) => (Ok(FlowV::Ret(v)), vars, st1),
            }
        },
        Stmt::Assign(x, e) => {
            let (r, st1) = eval_spec(ast, e, vars, input, st, fuel);
            match r {
                Err(f) => (Err(f), vars, st1),
                Ok(v) => (Ok(FlowV::Normal), vars.insert(x, v), st1),
            }
        },
        Stmt::If(c, t, f) => {
            let (r, st1) = eval_spec(ast, c, vars, input, st, fuel);
            match r {
                Err(x) => (Err(x), vars, st1),
                Ok(Val::Bool(b)) => if b {
                    body_spec(ast, t@, vars, input, st1, fuel)
                } else {
                    body_spec(ast, f@, vars, input, st1, fuel)
                },
                Ok(_) => (Err(Fail::NotBool), vars, st1),
            }
        },
        Stmt::While(_, _) => if fuel == 0 {
            (Err(Fail::OutOfFuel), vars, st)
        } else {
            while_spec(ast, s, vars, input, st, (fuel - 1) as nat)
        },
        Stmt::Print(e) => {
            let (r, st1) = eval_spec(ast, e, vars, input, st, fuel);
            match r {
                Err(x) => (Err(x), vars, st1),
                Ok(v) => (Ok(FlowV::Normal), vars, St { out: st1.out.push(print_text(v)), ..st1 }),
            }
        },
        Stmt::Global(_) => (Ok(FlowV::Normal), vars, st),
        _ => (Err(Fail::Unsupported), vars, st),
    }
}

/// Reading a variable gives back what an assignment to it wrote, and leaves
/// every other variable as it was; a print appends the text of the value
/// printed to the output and changes no variable.
pub proof fn lemma_assign_print(ast: AST, x: Symbol, y: Symbol, e: Expr, vars: Map<Symbol, Val>, input: Seq<Seq<char>>, st: St, fuel: nat)
    ensures
        ({
            let (r, vars2, st2) = stmt_spec(ast, Stmt::Assign(x, e), vars, input, st, fuel);
            r is Ok ==> {
                &&& eval_spec(ast, Expr::Var(x), vars2, input, st2, fuel).0 == eval_spec(ast, e, vars, input, st, fuel).0
                &&& y != x ==> eval_spec(ast, Expr::Var(y), vars2, input, st2, fuel).0 == eval_spec(ast, Expr::Var(y), vars, input, st, fuel).0
            }
        }),
        ({
            let (r, vars2, st2) = stmt_spec(ast, Stmt::Print(e), vars, input, st, fuel);
            r is Ok ==> {
                &&& eval_spec(ast, e, vars, input, st, fuel).0 matches Ok(v)
                &&& st2.out == eval_spec(ast, e, vars, input, st, fuel).1.out.push(print_text(v))
                &&& vars2 == vars
            }
        }),
{
}

/// Executing statements one after the other, up to the first that does not
/// end normally.
pub open spec fn body_spec(ast: AST, b: Seq<Stmt>, vars: Map<Symbol, Val>, input: Seq<Seq<char>>, st: St, fuel: nat) -> (Result<FlowV, Fail>, Map<Symbol, Val>, St)
    decreases fuel, 1nat, b,
{
    if b.len() == 0 {
        (Ok(FlowV::Normal), vars, st)
    } else {
        let (r, vars1, st1) = body_spec(ast, b.drop_last(), vars, input, st, fuel);
        match r {
            Ok(FlowV::Normal) => stmt_spec(ast, b.last(), vars1, input, st1, fuel),
            _ => (r, vars1, st1),
        }
    }
}

/// A loop `w`: evaluate the condition and, while it is true, run the body;
/// each further iteration takes one step of the budget.
pub open spec fn while_spec(ast: AST, w: Stmt, vars: Map<Symbol, Val>, input: Seq<Seq<char>>, st: St, fuel: nat) -> (Result<FlowV, Fail>, Map<Symbol, Val>, St)
    decreases fuel, 1nat, w,
{
    match w {
        Stmt::While(c, b) => {
            let (r, st1) = eval_spec(ast, c, vars, input, st, fuel);
            match r {
                Err(x) => (Err(x), vars, st1),
                Ok(Val::Bool(true)) => {
                    let (rb, vars2, st2) = body_spec(ast, b@, vars, input, st1, fuel);
                    match rb {
                        Ok(FlowV::Normal) => if fuel == 0 {
                            (Err(Fail::OutOfFuel), vars2, st2)
                        } else {
                            while_spec(ast, w, vars2, input, st2, (fuel - 1) as nat)
                        },
                        _ => (rb, vars2, st2),
                    }
                },
                Ok(Val::Bool(false)) => (Ok(FlowV::Normal), vars, st1),
                Ok(_) => (Err(Fail::NotBool), vars, st1),
            }
        },
        _ => (Ok(FlowV::Normal), vars, st),
    }
}

/// A conditional runs its first branch when the condition is true and its
/// second when it is false; a loop whose condition is false ends normally
/// at once with the variables unchanged, and one whose condition is true
/// runs its body first.  A condition that is not a boolean is an error.
pub proof fn lemma_if_while(ast: AST, c: Expr, t: Body, f: Body, vars: Map<Symbol, Val>, input: Seq<Seq<char>>, st: St, fuel: nat)
    ensures
        ({
            let (rc, st1) = eval_spec(ast, c, vars, input, st, fuel);
            &&& rc == Ok::<Val, Fail>(Val::Bool(true)) ==> stmt_spec(ast, Stmt::If(c, t, f), vars, input, st, fuel)
                == body_spec(ast, t@, vars, input, st1, fuel)
            &&& rc == Ok::<Val, Fail>(Val::Bool(false)) ==> stmt_spec(ast, Stmt::If(c, t, f), vars, input, st, fuel)
                == body_spec(ast, f@, vars, input, st1, fuel)
            &&& (rc matches Ok(v) && !(v is Bool)) ==> stmt_spec(ast, Stmt::If(c, t, f), vars, input, st, fuel).0
                == Err::<FlowV, Fail>(Fail::NotBool)
        }),
        fuel > 0 ==> ({
            let (rc, st1) = eval_spec(ast, c, vars, input, st, (fuel - 1) as nat);
            let w = Stmt::While(c, t);
            &&& rc == Ok::<Val, Fail>(Val::Bool(false)) ==> stmt_spec(ast, w, vars, input, st, fuel)
                == (Ok::<FlowV, Fail>(FlowV::Normal), vars, st1)
            &&& rc == Ok::<Val, Fail>(Val::Bool(true)) ==> (body_spec(ast, t@, vars, input, st1, (fuel - 1) as nat).0 matches Ok(FlowV::Normal)
                || stmt_spec(ast, w, vars, input, st, fuel) == body_spec(ast, t@, vars, input, st1, (fuel - 1) as nat))
            &&& (rc matches Ok(v) && !(v is Bool)) ==> stmt_spec(ast, w, vars, input, st, fuel).0
                == Err::<FlowV, Fail>(Fail::NotBool)
        }),
{
}

/// What a call gives back: the returned value, or nil when its body ends
/// normally.
pub open spec fn returned(r: Result<FlowV, Fail>) -> Result<Val, Fail> {
    match r {
        Err(x) => Err(x),
        Ok(FlowV::Ret(v)) => Ok(v),
        Ok(FlowV::Normal) => Ok(Val::Nil),
    }
}

/// Calling function `fid` with the arguments `args`: one step of the
/// budget, then its body.
pub open spec fn call_spec(ast: AST, fid: FnId, args: Seq<Val>, input: Seq<Seq<char>>, st: St, fuel: nat) -> (Result<Val, Fail>, St) {
    if fid >= ast.fns@.len() {
        (Err(Fail::UnknownFn), st)
    } else if fuel == 0 {
        (Err(Fail::OutOfFuel), st)
    } else {
        let fd = ast.fns@[fid as int];
        let (r, _, st2) = body_spec(ast, fd.body@, bind_args(fd.args@, args), input, st, (fuel - 1) as nat);
        (returned(r), st2)
    }
}

/// The mathematical value of a result of an evaluation.
pub open spec fn res_view(r: Result<Value, RuntimeError>) -> Result<Val, Fail> {
    match r {
        Ok(v) => Ok(v.view()),
        Err(e) => Err(e.view()),
    }
}

/// The mathematical value of a result of an execution.
pub open spec fn flow_res_view(r: Result<Flow, RuntimeError>) -> Result<FlowV, Fail> {
    match r {
        Ok(f) => Ok(f.view()),
        Err(e) => Err(e.view()),
    }
}

/// The values of the variables.
pub open spec fn vview(m: AssocMap<Symbol, Value>) -> Map<Symbol, Val> {
    m.view().map_values(|v: Value| v.view())
}

/// A copy of `v`.
pub fn copy_value(v: &Value) -> (r: Value)
    ensures
        r.view() == v.view(),
{
    match v {
        Value::Bool(b) => Value::Bool(*b),
        Value::Int(i) => Value::Int(*i),
        Value::Str(s) => Value::Str(s.clone()),
        Value::Nil => Value::Nil,
    }
}

/// Whether two values are equal.
pub fn values_equal(a: &Value, b: &Value) -> (r: bool)
    ensures
        r == (a.view() == b.view()),
{
    match (a, b) {
        (Value::Bool(x), Value::Bool(y)) => *x == *y,
        (Value::Int(x), Value::Int(y)) => *x == *y,
        (Value::Str(x), Value::Str(y)) => *x == *y,
        (Value::Nil, Value::Nil) => true,
        _ => false,
    }
}

/// Applies an operator to two values.
pub fn apply_binop(op: BinOpKind, a: &Value, b: &Value) -> (r: Result<Value, RuntimeError>)
    ensures
        res_view(r) == binop_spec(op, a.view(), b.view()),
{
    if op == BinOpKind::Equ {
        return Ok(Value::Bool(values_equal(a, b)));
    }
    if op == BinOpKind::Ne {
        return Ok(Value::Bool(!values_equal(a, b)));
    }
    match (a, b) {
        (Value::Int(x), Value::Int(y)) => {
            let (x, y) = (*x, *y);
            let r = match op {
                BinOpKind::Lt => { return Ok(Value::Bool(x < y)); },
                BinOpKind::Gt => { return Ok(Value::Bool(x > y)); },
                BinOpKind::Mod => x.checked_rem(y),
                BinOpKind::Plus => x.checked_add(y),
                BinOpKind::Mul => x.checked_mul(y),
                _ => x.checked_sub(y),
            };
            match r {
                Some(v) => Ok(Value::Int(v)),
                None => Err(RuntimeError::Arithmetic),
            }
        },
        _ => Err(RuntimeError::NotInt),
    }
}

/// `r` is the remainder of `x` by `y` rounded toward zero: `x - r` is a
/// multiple of `y`, `r` is smaller than `y` in size, and `r` is zero or has
/// the sign of `x`.
pub open spec fn is_trunc_rem(x: int, y: int, r: int) -> bool {
    let ay = if y < 0 { -y } else { y };
    &&& ay > 0
    &&& (x - r) % ay == 0
    &&& -ay < r < ay
    &&& (r == 0 || (r < 0) == (x < 0))
}

/// Whether `v` fits in an `i64`.
pub open spec fn fits_i64(v: int) -> bool {
    i64::MIN <= v <= i64::MAX
}

proof fn lemma_rem_nonneg(a: int, b: int)
    requires
        a >= 0,
        b > 0,
    ensures
        0 <= a % b < b,
        (a - a % b) % b == 0,
{
    vstd::arithmetic::div_mod::lemma_fundamental_div_mod(a, b);
    vstd::arithmetic::div_mod::lemma_mod_pos_bound(a, b);
    let q = a / b;
    assert(a - a % b == q * b) by (nonlinear_arith)
        requires
            a == b * q + a % b,
    ;
    vstd::arithmetic::div_mod::lemma_mod_multiples_basic(q, b);
}

proof fn lemma_rem_neg(a: int, b: int)
    requires
        a >= 0,
        b > 0,
    ensures
        (-a - -(a % b)) % b == 0,
{
    vstd::arithmetic::div_mod::lemma_fundamental_div_mod(a, b);
    let q = a / b;
    assert(-a - -(a % b) == (-q) * b) by (nonlinear_arith)
        requires
            a == b * q + a % b,
    ;
    vstd::arithmetic::div_mod::lemma_mod_multiples_basic(-q, b);
}

/// The operators do the arithmetic that their names promise, for every pair
/// of integers: `<` and `>` compare, `==` and `!=` test equality, a sum,
/// difference or product is the mathematical one where it fits in 64 bits
/// and an arithmetic error where it does not, and `%` gives the remainder
/// rounded toward zero, an arithmetic error only by zero or for `MIN % -1`.
pub proof fn lemma_binop_arith(x: i64, y: i64)
    ensures
        binop_spec(BinOpKind::Lt, Val::Int(x), Val::Int(y)) == Ok::<Val, Fail>(Val::Bool(x < y)),
        binop_spec(BinOpKind::Gt, Val::Int(x), Val::Int(y)) == Ok::<Val, Fail>(Val::Bool(x > y)),
        binop_spec(BinOpKind::Equ, Val::Int(x), Val::Int(y)) == Ok::<Val, Fail>(Val::Bool(x == y)),
        binop_spec(BinOpKind::Ne, Val::Int(x), Val::Int(y)) == Ok::<Val, Fail>(Val::Bool(x != y)),
        binop_spec(BinOpKind::Plus, Val::Int(x), Val::Int(y)) == (if fits_i64(x + y) {
            Ok::<Val, Fail>(Val::Int((x + y) as i64))
        } else {
            Err::<Val, Fail>(Fail::Arithmetic)
        }),
        binop_spec(BinOpKind::Minus, Val::Int(x), Val::Int(y)) == (if fits_i64(x - y) {
            Ok::<Val, Fail>(Val::Int((x - y) as i64))
        } else {
            Err::<Val, Fail>(Fail::Arithmetic)
        }),
        binop_spec(BinOpKind::Mul, Val::Int(x), Val::Int(y)) == (if fits_i64(x * y) {
            Ok::<Val, Fail>(Val::Int((x * y) as i64))
        } else {
            Err::<Val, Fail>(Fail::Arithmetic)
        }),
        (y == 0 || (x == i64::MIN && y == -1)) ==> binop_spec(BinOpKind::Mod, Val::Int(x), Val::Int(y))
            == Err::<Val, Fail>(Fail::Arithmetic),
        !(y == 0 || (x == i64::MIN && y == -1)) ==> (binop_spec(BinOpKind::Mod, Val::Int(x), Val::Int(y))
            matches Ok(Val::Int(r)) && is_trunc_rem(x as int, y as int, r as int)),
{
    if !(y == 0 || (x == i64::MIN && y == -1)) {
        let xi = x as int;
        let d = y as int;
        if xi > 0 && d > 0 {
            lemma_rem_nonneg(xi, d);
        } else if xi < 0 && d < 0 {
            lemma_rem_nonneg(-xi, -d);
            lemma_rem_neg(-xi, -d);
        } else if xi < 0 && d > 0 {
            lemma_rem_nonneg(-xi, d);
            lemma_rem_neg(-xi, d);
        } else if xi > 0 && d < 0 {
            lemma_rem_nonneg(xi, -d);
        } else {
            let m: nat = (if d < 0 { -d } else { d }) as nat;
            vstd::arithmetic::div_mod::lemma_small_mod(0, m);
        }
    }
}

/// The text a print of `v` shows.
pub fn value_text(v: &Value) -> (r: String)
    ensures
        r@ == print_text(v.view()),
{
    match v {
        Value::Int(i) => {
            let mut s = String::new();
            push_int(&mut s, *i);
            s
        },
        Value::Str(x) => x.clone(),
        Value::Bool(b) => {
            let mut s = String::new();
            push_bool(&mut s, *b);
            s
        },
        Value::Nil => {
            let mut s = String::new();
            push_str(&mut s, "nil");
            s
        },
    }
}

/// The value a trimmed input line denotes.
fn parse_input(s: &Vec<char>) -> (r: Result<Value, RuntimeError>)
    ensures
        forall|line: Seq<char>| trim_spec(line) == s@ ==> res_view(r) == #[trigger] input_value(line),
{
    let n = s.len();
    let mut quotes: usize = 0;
    let mut i: usize = 0;
    while i < n
        invariant
            i <= n,
            n == s@.len(),
            quotes == count_char(s@.take(i as int), '\x22'),
            quotes <= i,
        decreases n - i,
    {
        assert(s@.take(i + 1).drop_last() =~= s@.take(i as int));
        if s[i] == '\x22' {
            quotes = quotes + 1;
        }
        i = i + 1;
    }
    assert(s@.take(n as int) =~= s@);
    proof {
        reveal_strlit("true");
        reveal_strlit("false");
    }
    if n >= 1 && s[0] == '\x22' && s[n - 1] == '\x22' && quotes == 2 {
        Ok(Value::Str(crate::text::string_of(s, 1, n - 1)))
    } else if n == 4 && s[0] == 't' && s[1] == 'r' && s[2] == 'u' && s[3] == 'e' {
        assert(s@ =~= "true"@);
        Ok(Value::Bool(true))
    } else if n == 5 && s[0] == 'f' && s[1] == 'a' && s[2] == 'l' && s[3] == 's' && s[4] == 'e' {
        assert(s@ =~= "false"@);
        Ok(Value::Bool(false))
    } else {
        assert(s@ != "true"@ && s@ != "false"@) by {
            if s@ == "true"@ {
                assert(s@[0] == 't' && s@[1] == 'r' && s@[2] == 'u' && s@[3] == 'e');
            }
            if s@ == "false"@ {
                assert(s@[0] == 'f' && s@[1] == 'a' && s@[2] == 'l' && s@[3] == 's' && s@[4] == 'e');
            }
        }
        match parse_i64(s) {
            Some(v) => Ok(Value::Int(v)),
            None => Err(RuntimeError::InvalidInput(crate::text::string_of(s, 0, n))),
        }
    }
}

/// Reads the next input line and gives the value it denotes.
fn read_input(io: &mut Io) -> (r: Result<Value, RuntimeError>)
    ensures
        res_view(r) == input_value(line_at(old(io).lines(), old(io).pos)),
        final(io).st() == after_read(old(io).lines(), old(io).st()),
        final(io).input@ == old(io).input@,
{
    let s: Vec<char> = if io.pos < io.input.len() {
        trim_chars(&io.input[io.pos])
    } else {
        let v: Vec<char> = Vec::new();
        proof {
            assert(trim_start(Seq::<char>::empty()) == Seq::<char>::empty());
            assert(trim_end(Seq::<char>::empty()) == Seq::<char>::empty());
            assert(v@ =~= trim_spec(Seq::<char>::empty()));
        }
        v
    };
    if io.pos < io.input.len() {
        io.pos = io.pos + 1;
    }
    parse_input(&s)
}

/// Once a statement does not end normally, the rest of a body is skipped.
proof fn lemma_body_stop(ast: AST, b: Seq<Stmt>, k: int, vars: Map<Symbol, Val>, input: Seq<Seq<char>>, st: St, fuel: nat)
    requires
        0 <= k <= b.len(),
        !(body_spec(ast, b.take(k), vars, input, st, fuel).0 matches Ok(FlowV::Normal)),
    ensures
        body_spec(ast, b, vars, input, st, fuel) == body_spec(ast, b.take(k), vars, input, st, fuel),
    decreases b.len() - k,
{
    if k < b.len() {
        let t = b.take(k + 1);
        assert(t.drop_last() =~= b.take(k));
        lemma_body_stop(ast, b, k + 1, vars, input, st, fuel);
    } else {
        assert(b.take(k) =~= b);
    }
}

/// Evaluates `e` with the variables `vars`, reading from and writing to
/// `io`, within a budget of `fuel` steps.  An evaluation the language gives
/// no value (see `binop_spec`) ends in an error rather than a panic; the
/// driver turns that error into a stop of the program.
#[verifier::rlimit(40)]
#[verifier::spinoff_prover]
pub fn eval_expr(e: &Expr, vars: &AssocMap<Symbol, Value>, ast: &AST, io: &mut Io, fuel: usize) -> (r: Result<Value, RuntimeError>)
    requires
        vars.wf(),
    ensures
        (res_view(r), final(io).st()) == eval_spec(*ast, *e, vview(*vars), old(io).lines(), old(io).st(), fuel as nat),
        final(io).input@ == old(io).input@,
    decreases fuel, 1nat, *e,
{
    match e {
        Expr::FnCall(f, args) => {
            let ghost st0 = io.st();
            let mut vals: Vec<Value> = Vec::new();
            assert(args@.take(0) =~= Seq::<Expr>::empty());
            assert(vals@.map_values(|v: Value| v.view()) =~= Seq::<Val>::empty());
            let mut i: usize = 0;
            while i < args.len()
                invariant
                    i <= args@.len(),
                    vars.wf(),
                    io.input@ == old(io).input@,
                    st0 == old(io).st(),
                    *e is FnCall,
                    (*e)->FnCall_1 == *args,
                    args_spec(*ast, args@.take(i as int), vview(*vars), old(io).lines(), st0, fuel as nat)
                        == (Ok::<Seq<Val>, Fail>(vals@.map_values(|v: Value| v.view())), io.st()),
                decreases args.len() - i,
            {
                proof {
                    assert(args@.take(i + 1).drop_last() =~= args@.take(i as int));
                    assert(args@.take(i + 1).last() == args@[i as int]);
                    assert(decreases_to!(*e => (*e)->FnCall_1));
                    assert(decreases_to!((*e)->FnCall_1 => (*e)->FnCall_1@));
                    assert(decreases_to!(args@ => args@[i as int]));
                }
                let v = eval_expr(&args[i], vars, ast, io, fuel);
                match v {
                    Ok(v) => {
                        let ghost pre = vals@;
                        let ghost vv = v.view();
                        vals.push(v);
                        assert(vals@.map_values(|v: Value| v.view()) =~= pre.map_values(|v: Value| v.view()).push(vv));
                    },
                    Err(x) => {
                        proof {
                            lemma_args_stop(*ast, args@, i as int + 1, vview(*vars), old(io).lines(), st0, fuel as nat);
                        }
                        return Err(x);
                    },
                }
                i = i + 1;
            }
            assert(args@.take(args@.len() as int) =~= args@);
            match &**f {
                Expr::FnId(fid) => call_fn(*fid, vals, ast, io, fuel),
                _ => Err(RuntimeError::NotAFunction),
            }
        },
        Expr::BinOp(op, e1, e2) => {
            let a = match eval_expr(e1, vars, ast, io, fuel) {
                Ok(a) => a,
                Err(x) => { return Err(x); },
            };
            let b = match eval_expr(e2, vars, ast, io, fuel) {
                Ok(b) => b,
                Err(x) => { return Err(x); },
            };
            apply_binop(*op, &a, &b)
        },
        Expr::IntLit(i) => Ok(Value::Int(*i)),
        Expr::StringLit(x) => Ok(Value::Str(x.clone())),
        Expr::BoolLit(b) => Ok(Value::Bool(*b)),
        Expr::Var(v) => {
            match vars.get(v) {
                Some(x) => Ok(copy_value(x)),
                None => Err(RuntimeError::UnknownVar(*v)),
            }
        },
        Expr::Input => read_input(io),
        _ => Err(RuntimeError::Unsupported),
    }
}

/// Once an argument fails, the rest are not evaluated.
proof fn lemma_args_stop(ast: AST, es: Seq<Expr>, k: int, vars: Map<Symbol, Val>, input: Seq<Seq<char>>, st: St, fuel: nat)
    requires
        0 <= k <= es.len(),
        args_spec(ast, es.take(k), vars, input, st, fuel).0 is Err,
    ensures
        args_spec(ast, es, vars, input, st, fuel) == args_spec(ast, es.take(k), vars, input, st, fuel),
    decreases es.len() - k,
{
    if k < es.len() {
        let t = es.take(k + 1);
        assert(t.drop_last() =~= es.take(k));
        lemma_args_stop(ast, es, k + 1, vars, input, st, fuel);
    } else {
        assert(es.take(k) =~= es);
    }
}

/// Calls function `fid` with the arguments `args`.
pub fn call_fn(fid: FnId, args: Vec<Value>, ast: &AST, io: &mut Io, fuel: usize) -> (r: Result<Value, RuntimeError>)
    ensures
        (res_view(r), final(io).st()) == call_spec(*ast, fid, args@.map_values(|v: Value| v.view()), old(io).lines(), old(io).st(), fuel as nat),
        final(io).input@ == old(io).input@,
    decreases fuel, 0nat, *ast,
{
    if fid >= ast.fns.len() {
        return Err(RuntimeError::UnknownFn);
    }
    if fuel == 0 {
        return Err(RuntimeError::OutOfFuel);
    }
    let f = &ast.fns[fid];
    let ghost vals = args@.map_values(|v: Value| v.view());
    let n = if f.args.len() < args.len() { f.args.len() } else { args.len() };
    let mut vars: AssocMap<Symbol, Value> = AssocMap::new();
    let mut i: usize = 0;
    while i < n
        invariant
            i <= n,
            n <= f.args@.len(),
            n <= args@.len(),
            vals == args@.map_values(|v: Value| v.view()),
            vars.wf(),
            vview(vars) == bind_args(f.args@.take(i as int), vals.take(i as int)),
        decreases n - i,
    {
        vars.insert(f.args[i], copy_value(&args[i]));
        proof {
            let p = f.args@.take(i + 1);
            let q = vals.take(i + 1);
            assert(p.drop_last() =~= f.args@.take(i as int));
            assert(q.drop_last() =~= vals.take(i as int));
            assert(vview(vars) =~= bind_args(p, q));
        }
        i = i + 1;
    }
    proof {
        lemma_bind_trunc(f.args@, vals);
    }
    let r = exec_body(&f.body, &mut vars, ast, io, fuel - 1);
    match r {
        Err(x) => Err(x),
        Ok(Flow::Ret(v)) => Ok(v),
        Ok(Flow::Normal) => Ok(Value::Nil),
    }
}

/// Binding truncates to the shorter of the two lists.
proof fn lemma_bind_trunc(params: Seq<Symbol>, vals: Seq<Val>)
    ensures
        ({
            let n = if params.len() < vals.len() { params.len() } else { vals.len() };
            bind_args(params, vals) == bind_args(params.take(n as int), vals.take(n as int))
        }),
{
    let n = if params.len() < vals.len() { params.len() } else { vals.len() };
    if params.len() > vals.len() {
        assert(vals.take(n as int) =~= vals);
    } else if vals.len() > params.len() {
        assert(params.take(n as int) =~= params);
    } else {
        assert(vals.take(n as int) =~= vals);
        assert(params.take(n as int) =~= params);
    }
}

/// Executes the statements `body` one after the other, up to the first that
/// does not end normally.
pub fn exec_body(body: &Body, vars: &mut AssocMap<Symbol, Value>, ast: &AST, io: &mut Io, fuel: usize) -> (r: Result<Flow, RuntimeError>)
    requires
        old(vars).wf(),
    ensures
        final(vars).wf(),
        (flow_res_view(r), vview(*final(vars)), final(io).st())
            == body_spec(*ast, body@, vview(*old(vars)), old(io).lines(), old(io).st(), fuel as nat),
        final(io).input@ == old(io).input@,
    decreases fuel, 2nat, body@,
{
    let ghost v0 = vview(*vars);
    let ghost st0 = io.st();
    let mut i: usize = 0;
    while i < body.len()
        invariant
            i <= body@.len(),
            vars.wf(),
            io.input@ == old(io).input@,
            st0 == old(io).st(),
            v0 == vview(*old(vars)),
            body_spec(*ast, body@.take(i as int), v0, old(io).lines(), st0, fuel as nat)
                == (Ok::<FlowV, Fail>(FlowV::Normal), vview(*vars), io.st()),
        decreases body.len() - i,
    {
        proof {
            assert(body@.take(i + 1).drop_last() =~= body@.take(i as int));
            assert(body@.take(i + 1).last() == body@[i as int]);
        }
        let r = exec_stmt(&body[i], vars, ast, io, fuel);
        match r {
            Ok(Flow::Normal) => {},
            _ => {
                proof {
                    lemma_body_stop(*ast, body@, i + 1, v0, old(io).lines(), st0, fuel as nat);
                }
                return r;
            },
        }
        i = i + 1;
    }
    assert(body@.take(body@.len() as int) =~= body@);
    Ok(Flow::Normal)
}

/// Executes `stmt`.
#[verifier::rlimit(40)]
#[verifier::spinoff_prover]
pub fn exec_stmt(stmt: &Stmt, vars: &mut AssocMap<Symbol, Value>, ast: &AST, io: &mut Io, fuel: usize) -> (r: Result<Flow, RuntimeError>)
    requires
        old(vars).wf(),
    ensures
        final(vars).wf(),
        (flow_res_view(r), vview(*final(vars)), final(io).st())
            == stmt_spec(*ast, *stmt, vview(*old(vars)), old(io).lines(), old(io).st(), fuel as nat),
        final(io).input@ == old(io).input@,
    decreases fuel, 2nat, *stmt,
{
    match stmt {
        Stmt::Return(e) => {
            match eval_expr(e, vars, ast, io, fuel) {
                Ok(v) => Ok(Flow::Ret(v)),
                Err(x) => Err(x),
            }
        },
        Stmt::Assign(x, e) => {
            match eval_expr(e, vars, ast, io, fuel) {
                Ok(v) => {
                    let ghost m0 = vview(*vars);
                    let ghost vv = v.view();
                    vars.insert(*x, v);
                    assert(vview(*vars) =~= m0.insert(*x, vv));
                    Ok(Flow::Normal)
                },
                Err(f) => Err(f),
            }
        },
        Stmt::If(c, then_, else_) => {
            match eval_expr(c, vars, ast, io, fuel) {
                Ok(Value::Bool(b)) => {
                    if b {
                        exec_body(then_, vars, ast, io, fuel)
                    } else {
                        exec_body(else_, vars, ast, io, fuel)
                    }
                },
                Ok(_) => Err(RuntimeError::NotBool),
                Err(x) => Err(x),
            }
        },
        Stmt::While(c, b) => {
            if fuel == 0 {
                return Err(RuntimeError::OutOfFuel);
            }
            let ghost target = stmt_spec(*ast, *stmt, vview(*old(vars)), old(io).lines(), old(io).st(), fuel as nat);
            let mut f: usize = fuel - 1;
            loop
                invariant
                    f < fuel,
                    vars.wf(),
                    io.input@ == old(io).input@,
                    *stmt is While,
                    (*stmt)->While_0 == *c,
                    (*stmt)->While_1 == *b,
                    target == while_spec(*ast, *stmt, vview(*vars), old(io).lines(), io.st(), f as nat),
                    target == stmt_spec(*ast, *stmt, vview(*old(vars)), old(io).lines(), old(io).st(), fuel as nat),
                decreases f,
            {
                let ghost v1 = vview(*vars);
                let ghost st1 = io.st();
                match eval_expr(c, vars, ast, io, f) {
                    Ok(Value::Bool(true)) => {
                        let rb = exec_body(b, vars, ast, io, f);
                        match rb {
                            Ok(Flow::Normal) => {
                                if f == 0 {
                                    return Err(RuntimeError::OutOfFuel);
                                }
                                f = f - 1;
                            },
                            _ => {
                                return rb;
                            },
                        }
                    },
                    Ok(Value::Bool(false)) => {
                        return Ok(Flow::Normal);
                    },
                    Ok(_) => {
                        return Err(RuntimeError::NotBool);
                    },
                    Err(x) => {
                        return Err(x);
                    },
                }
            }
        },
        Stmt::Print(e) => {
            match eval_expr(e, vars, ast, io, fuel) {
                Ok(v) => {
                    let t = value_text(&v);
                    let ghost o = io.output@;
                    io.output.push(t);
                    assert(io.output@.map_values(|s: String| s@) =~= o.map_values(|s: String| s@).push(print_text(v.view())));
                    Ok(Flow::Normal)
                },
                Err(x) => Err(x),
            }
        },
        Stmt::Global(_) => Ok(Flow::Normal),
        _ => Err(RuntimeError::Unsupported),
    }
}

/// The texts of the lines `v`.
pub open spec fn lines_of(v: Seq<String>) -> Seq<Seq<char>> {
    v.map_values(|s: String| s@)
}

/// Whether `i` is the position of the first function named `name`.
pub open spec fn first_named(ast: AST, name: Symbol, i: int) -> bool {
    &&& 0 <= i < ast.fns@.len()
    &&& ast.fns@[i].name == name
    &&& forall|j: int| 0 <= j < i ==> ast.fns@[j].name != name
}

/// Running the program from its first function named `name`, without
/// arguments, on the input lines `input`: how it ended and the lines it
/// printed.
pub open spec fn run_spec(ast: AST, name: Symbol, input: Seq<Seq<char>>, fuel: nat) -> (Result<(), Fail>, Seq<Seq<char>>) {
    if exists|i: int| first_named(ast, name, i) {
        let i = choose|i: int| first_named(ast, name, i);
        let (r, st) = call_spec(ast, i as usize, Seq::empty(), input, St { pos: 0, out: Seq::empty() }, fuel);
        (match r { Ok(_) => Ok(()), Err(x) => Err(x) }, st.out)
    } else {
        (Err(Fail::NoMain), Seq::empty())
    }
}

/// The mathematical value of the outcome of a run.
pub open spec fn run_view(r: (Vec<String>, Result<(), RuntimeError>)) -> (Result<(), Fail>, Seq<Seq<char>>) {
    (match r.1 { Ok(_) => Ok(()), Err(x) => Err(x.view()) }, r.0@.map_values(|s: String| s@))
}

/// Runs the program from its first function named `name` on the input
/// lines `input`, within a budget of `fuel` steps; gives the printed lines
/// and how the run ended.
pub fn interp_named(ast: &AST, name: Symbol, input: Vec<String>, fuel: usize) -> (r: (Vec<String>, Result<(), RuntimeError>))
    ensures
        run_view(r) == run_spec(*ast, name, lines_of(input@), fuel as nat),
{
    let mut i: usize = 0;
    while i < ast.fns.len()
        invariant
            i <= ast.fns@.len(),
            forall|j: int| 0 <= j < i ==> ast.fns@[j].name != name,
        ensures
            i <= ast.fns@.len(),
            forall|j: int| 0 <= j < i ==> ast.fns@[j].name != name,
            i < ast.fns@.len() ==> ast.fns@[i as int].name == name,
        decreases ast.fns.len() - i,
    {
        if ast.fns[i].name == name {
            break;
        }
        i = i + 1;
    }
    if i == ast.fns.len() {
        proof {
            assert(!exists|k: int| first_named(*ast, name, k)) by {
                if exists|k: int| first_named(*ast, name, k) {
                    let k = choose|k: int| first_named(*ast, name, k);
                    assert(ast.fns@[k].name != name);
                }
            }
        }
        let out: Vec<String> = Vec::new();
        assert(out@.map_values(|s: String| s@) =~= Seq::<Seq<char>>::empty());
        return (out, Err(RuntimeError::NoMain));
    }
    proof {
        assert(first_named(*ast, name, i as int));
        let k = choose|k: int| first_named(*ast, name, k);
        assert(k == i) by {
            if k < i {
                assert(ast.fns@[k].name != name);
            } else if k > i {
                assert(ast.fns@[i as int].name != name);
            }
        }
    }
    let mut io = Io { input, pos: 0, output: Vec::new() };
    assert(io.st() == St { pos: 0, out: Seq::empty() }) by {
        assert(io.output@.map_values(|s: String| s@) =~= Seq::<Seq<char>>::empty());
    }
    let args: Vec<Value> = Vec::new();
    assert(args@.map_values(|v: Value| v.view()) =~= Seq::<Val>::empty());
    let r = call_fn(i, args, ast, &mut io, fuel);
    let res = match r {
        Ok(_) => Ok(()),
        Err(x) => Err(x),
    };
    (io.output, res)
}

/// Runs the program from its function named `main`; what holds is what
/// `interp_named` states for the symbol interning gave for that name.
pub fn interp(ast: &AST, input: Vec<String>, fuel: usize) -> (r: (Vec<String>, Result<(), RuntimeError>))
    ensures
        exists|m: Symbol| run_view(r) == #[trigger] run_spec(*ast, m, lines_of(input@), fuel as nat),
{
    let m = Symbol::new("main");
    let r = interp_named(ast, m, input, fuel);
    r
}


/// Whether an outcome is the budget running out.
pub open spec fn out_of_fuel<T>(r: Result<T, Fail>) -> bool {
    match r {
        Err(Fail::OutOfFuel) => true,
        _ => false,
    }
}

/// An evaluation that ends within its budget ends the same way with one
/// more step.
proof fn lemma_eval_mono(ast: AST, e: Expr, vars: Map<Symbol, Val>, input: Seq<Seq<char>>, st: St, fuel: nat)
    ensures
        !out_of_fuel(eval_spec(ast, e, vars, input, st, fuel).0)
            ==> eval_spec(ast, e, vars, input, st, fuel + 1) == eval_spec(ast, e, vars, input, st, fuel),
    decreases fuel, 0nat, e,
{
    match e {
        Expr::FnCall(f, args) => {
            lemma_args_mono(ast, args@, vars, input, st, fuel);
            let (ra, st1) = args_spec(ast, args@, vars, input, st, fuel);
            match ra {
                Ok(vals) => match *f {
                    Expr::FnId(fid) => {
                        if fid < ast.fns@.len() && fuel > 0 {
                            let fd = ast.fns@[fid as int];
                            lemma_body_mono(ast, fd.body@, bind_args(fd.args@, vals), input, st1, (fuel - 1) as nat);
                        }
                    },
                    _ => {},
                },
                Err(_) => {},
            }
        },
        Expr::BinOp(op, e1, e2) => {
            lemma_eval_mono(ast, *e1, vars, input, st, fuel);
            let (r1, st1) = eval_spec(ast, *e1, vars, input, st, fuel);
            lemma_eval_mono(ast, *e2, vars, input, st1, fuel);
        },
        _ => {},
    }
}

/// Evaluating expressions within the budget ends the same way with one
/// more step.
proof fn lemma_args_mono(ast: AST, es: Seq<Expr>, vars: Map<Symbol, Val>, input: Seq<Seq<char>>, st: St, fuel: nat)
    ensures
        !out_of_fuel(args_spec(ast, es, vars, input, st, fuel).0)
            ==> args_spec(ast, es, vars, input, st, fuel + 1) == args_spec(ast, es, vars, input, st, fuel),
    decreases fuel, 0nat, es,
{
    if es.len() > 0 {
        lemma_args_mono(ast, es.drop_last(), vars, input, st, fuel);
        let (r, st1) = args_spec(ast, es.drop_last(), vars, input, st, fuel);
        lemma_eval_mono(ast, es.last(), vars, input, st1, fuel);
    }
}

/// A statement that ends within its budget ends the same way with one
/// more step.
proof fn lemma_stmt_mono(ast: AST, s: Stmt, vars: Map<Symbol, Val>, input: Seq<Seq<char>>, st: St, fuel: nat)
    ensures
        !out_of_fuel(stmt_spec(ast, s, vars, input, st, fuel).0)
            ==> stmt_spec(ast, s, vars, input, st, fuel + 1) == stmt_spec(ast, s, vars, input, st, fuel),
    decreases fuel, 1nat, s,
{
    match s {
        Stmt::Return(e) => lemma_eval_mono(ast, e, vars, input, st, fuel),
        Stmt::Assign(_, e) => lemma_eval_mono(ast, e, vars, input, st, fuel),
        Stmt::Print(e) => lemma_eval_mono(ast, e, vars, input, st, fuel),
        Stmt::If(c, t, f) => {
            lemma_eval_mono(ast, c, vars, input, st, fuel);
            let (r, st1) = eval_spec(ast, c, vars, input, st, fuel);
            lemma_body_mono(ast, t@, vars, input, st1, fuel);
            lemma_body_mono(ast, f@, vars, input, st1, fuel);
        },
        Stmt::While(_, _) => {
            if fuel > 0 {
                lemma_while_mono(ast, s, vars, input, st, (fuel - 1) as nat);
            }
        },
        _ => {},
    }
}

/// Statements that end within their budget end the same way with one more
/// step.
proof fn lemma_body_mono(ast: AST, b: Seq<Stmt>, vars: Map<Symbol, Val>, input: Seq<Seq<char>>, st: St, fuel: nat)
    ensures
        !out_of_fuel(body_spec(ast, b, vars, input, st, fuel).0)
            ==> body_spec(ast, b, vars, input, st, fuel + 1) == body_spec(ast, b, vars, input, st, fuel),
    decreases fuel, 1nat, b,
{
    if b.len() > 0 {
        lemma_body_mono(ast, b.drop_last(), vars, input, st, fuel);
        let (r, vars1, st1) = body_spec(ast, b.drop_last(), vars, input, st, fuel);
        lemma_stmt_mono(ast, b.last(), vars1, input, st1, fuel);
    }
}

/// A loop that ends within its budget ends the same way with one more
/// step.
proof fn lemma_while_mono(ast: AST, w: Stmt, vars: Map<Symbol, Val>, input: Seq<Seq<char>>, st: St, fuel: nat)
    ensures
        !out_of_fuel(while_spec(ast, w, vars, input, st, fuel).0)
            ==> while_spec(ast, w, vars, input, st, fuel + 1) == while_spec(ast, w, vars, input, st, fuel),
    decreases fuel, 1nat, w,
{
    match w {
        Stmt::While(c, b) => {
            lemma_eval_mono(ast, c, vars, input, st, fuel);
            let (r, st1) = eval_spec(ast, c, vars, input, st, fuel);
            lemma_body_mono(ast, b@, vars, input, st1, fuel);
            let (rb, vars2, st2) = body_spec(ast, b@, vars, input, st1, fuel);
            if fuel > 0 {
                lemma_while_mono(ast, w, vars2, input, st2, (fuel - 1) as nat);
            }
        },
        _ => {},
    }
}

/// A run that ends within its budget ends the same way, with the same
/// output, under any larger budget: the budget only cuts short runs that
/// it would cut short however large it were.
pub proof fn lemma_run_fuel_mono(ast: AST, name: Symbol, input: Seq<Seq<char>>, fuel: nat, more: nat)
    requires
        !out_of_fuel(run_spec(ast, name, input, fuel).0),
    ensures
        run_spec(ast, name, input, fuel + more) == run_spec(ast, name, input, fuel),
    decreases more,
{
    if more > 0 {
        if exists|i: int| first_named(ast, name, i) {
            let i = choose|i: int| first_named(ast, name, i);
            let st0 = St { pos: 0, out: Seq::empty() };
            assert(i < ast.fns.len());
            let fid = i as usize;
            assert(fid as int == i);
            if fuel > 0 {
                let fd = ast.fns@[fid as int];
                lemma_body_mono(ast, fd.body@, bind_args(fd.args@, Seq::empty()), input, st0, (fuel - 1) as nat);
                assert(call_spec(ast, fid, Seq::empty(), input, st0, fuel + 1) == call_spec(ast, fid, Seq::empty(), input, st0, fuel));
            }
            assert(run_spec(ast, name, input, fuel + 1) == run_spec(ast, name, input, fuel));
        }
        lemma_run_fuel_mono(ast, name, input, fuel + 1, (more - 1) as nat);
    }
}

} // verus!
