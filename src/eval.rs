use vstd::prelude::*;

use crate::tokenizer::{
    copy_token, lex, same_token, view_tokens, LexError, LexErrorView, Token, TokenView, Tokenizer,
};

verus! {

/// Why a line of tokens could not be evaluated.
#[derive(Debug)]
pub enum EvalError {
    /// A token was needed but the line had ended.
    UnexpectedEndOfInput,
    /// A particular token was required and another one stood there.
    UnexpectedToken { expected: Token, actual: Token },
    /// An assignment does not start with an identifier.
    ExpectedIdentifier(Token),
    /// A variable that was never assigned.
    UnknownIdentifier(String),
    /// A token that cannot start a factor.
    ExpectedFactor(Token),
    /// A division whose divisor is zero.
    DivisionByZero,
    /// A result outside the 64-bit signed range.
    Overflow,
    /// Parentheses nested more deeply than `MAX_NESTING`.
    NestingTooDeep,
}

pub enum EvalErrorView {
    UnexpectedEndOfInput,
    UnexpectedToken { expected: TokenView, actual: TokenView },
    ExpectedIdentifier(TokenView),
    UnknownIdentifier(Seq<char>),
    ExpectedFactor(TokenView),
    DivisionByZero,
    Overflow,
    NestingTooDeep,
}

impl View for EvalError {
    type V = EvalErrorView;

    open spec fn view(&self) -> EvalErrorView {
        match self {
            EvalError::UnexpectedEndOfInput => EvalErrorView::UnexpectedEndOfInput,
            EvalError::UnexpectedToken { expected, actual } => EvalErrorView::UnexpectedToken {
                expected: expected@,
                actual: actual@,
            },
            EvalError::ExpectedIdentifier(t) => EvalErrorView::ExpectedIdentifier(t@),
            EvalError::UnknownIdentifier(name) => EvalErrorView::UnknownIdentifier(name@),
            EvalError::ExpectedFactor(t) => EvalErrorView::ExpectedFactor(t@),
            EvalError::DivisionByZero => EvalErrorView::DivisionByZero,
            EvalError::Overflow => EvalErrorView::Overflow,
            EvalError::NestingTooDeep => EvalErrorView::NestingTooDeep,
        }
    }
}

/// Why a line failed: it could not be tokenized, or its tokens could not be evaluated.
#[derive(Debug)]
pub enum RunError {
    Lex(LexError),
    Eval(EvalError),
}

pub enum RunErrorView {
    Lex(LexErrorView),
    Eval(EvalErrorView),
}

impl View for RunError {
    type V = RunErrorView;

    open spec fn view(&self) -> RunErrorView {
        match self {
            RunError::Lex(e) => RunErrorView::Lex(e@),
            RunError::Eval(e) => RunErrorView::Eval(e@),
        }
    }
}

/// Variable bindings: each name at most once.
pub struct VarTable {
    entries: Vec<(String, i64)>,
    model: Ghost<Map<Seq<char>, i64>>,
}

impl View for VarTable {
    type V = Map<Seq<char>, i64>;

    closed spec fn view(&self) -> Map<Seq<char>, i64> {
        self.model@
    }
}

impl VarTable {
    pub closed spec fn wf(&self) -> bool {
        &&& forall|i: int, j: int|
            0 <= i < j < self.entries@.len() ==> (#[trigger] self.entries@[i]).0@
                != (#[trigger] self.entries@[j]).0@
        &&& forall|i: int|
            0 <= i < self.entries@.len() ==> {
                &&& self.model@.contains_key((#[trigger] self.entries@[i]).0@)
                &&& self.model@[self.entries@[i].0@] == self.entries@[i].1
            }
        &&& forall|k: Seq<char>|
            #[trigger] self.model@.contains_key(k) ==> exists|i: int|
                0 <= i < self.entries@.len() && (#[trigger] self.entries@[i]).0@ == k
    }

    pub fn new() -> (t: VarTable)
        ensures
            t.wf(),
            t@ == Map::<Seq<char>, i64>::empty(),
    {
        VarTable { entries: Vec::new(), model: Ghost(Map::empty()) }
    }

    /// The index of the entry for `name`, if any.
    fn position_of(&self, name: &String) -> (r: Option<usize>)
        requires
            self.wf(),
        ensures
            match r {
                Some(i) => i < self.entries@.len() && self.entries@[i as int].0@ == name@,
                None => !self@.contains_key(name@),
            },
    {
        let mut i: usize = 0;
        while i < self.entries.len()
            invariant
                self.wf(),
                i <= self.entries@.len(),
                forall|j: int| 0 <= j < i ==> (#[trigger] self.entries@[j]).0@ != name@,
            decreases self.entries@.len() - i,
        {
            if self.entries[i].0 == *name {
                return Some(i);
            }
            i = i + 1;
        }
        None
    }

    /// The value bound to `name`.
    pub fn get(&self, name: &String) -> (r: Option<i64>)
        requires
            self.wf(),
        ensures
            r == (if self@.contains_key(name@) {
                Some(self@[name@])
            } else {
                None::<i64>
            }),
    {
        match self.position_of(name) {
            Some(i) => Some(self.entries[i].1),
            None => None,
        }
    }

    /// Binds `name` to `value`, replacing an earlier binding.
    pub fn set(&mut self, name: String, value: i64)
        requires
            old(self).wf(),
        ensures
            final(self).wf(),
            final(self)@ == old(self)@.insert(name@, value),
    {
        let ghost key = name@;
        let ghost idx: int;
        match self.position_of(&name) {
            Some(i) => {
                self.entries[i] = (name, value);
                proof {
                    idx = i as int;
                }
            },
            None => {
                self.entries.push((name, value));
                proof {
                    idx = self.entries@.len() - 1;
                }
            },
        }
        assert(self.entries@[idx].0@ == key);
        self.model = Ghost(self.model@.insert(key, value));
        proof {
            assert forall|k: Seq<char>| #[trigger] self.model@.contains_key(k) implies exists|
                i: int,
            |
                0 <= i < self.entries@.len() && (#[trigger] self.entries@[i]).0@ == k by {
                if k != key {
                    let i = choose|i: int|
                        0 <= i < old(self).entries@.len() && (#[trigger] old(
                            self,
                        ).entries@[i]).0@ == k;
                    assert(self.entries@[i] == old(self).entries@[i]);
                } else {
                    assert(0 <= idx < self.entries@.len() && self.entries@[idx].0@ == k);
                }
            }
        }
    }
}

/// How deeply parentheses may nest; deeper input is refused rather than exhausting the stack.
pub const MAX_NESTING: usize = 256;

/// Truncating division, rounding toward zero as Rust's integer division does.
pub open spec fn trunc_div(a: int, b: int) -> int {
    let q = (if a < 0 {
        -a
    } else {
        a
    }) / (if b < 0 {
        -b
    } else {
        b
    });
    if (a < 0) != (b < 0) {
        -q
    } else {
        q
    }
}

pub open spec fn fits(v: int) -> bool {
    i64::MIN <= v && v <= i64::MAX
}

/// One arithmetic step: the operator token applied to two values.
pub open spec fn apply_op(op: TokenView, a: i64, b: i64) -> Result<i64, EvalErrorView> {
    let exact: int = match op {
        TokenView::OpPlus => a + b,
        TokenView::OpMinus => a - b,
        TokenView::OpMult => a * b,
        _ => trunc_div(a as int, b as int),
    };
    if op is OpDiv && b == 0 {
        Err(EvalErrorView::DivisionByZero)
    } else if fits(exact) {
        Ok(exact as i64)
    } else {
        Err(EvalErrorView::Overflow)
    }
}

/// `factor := VALUE | IDENT | '(' calc ')'` at position `p`, inside `d` open parentheses:
/// its value and the position after it.
pub open spec fn parse_factor(ts: Seq<TokenView>, vars: Map<Seq<char>, i64>, d: int, p: int) -> Result<
    (i64, int),
    EvalErrorView,
>
    decreases ts.len() - p, 0int,
{
    if p < 0 || p >= ts.len() {
        Err(EvalErrorView::UnexpectedEndOfInput)
    } else {
        match ts[p] {
            TokenView::LParen => if d >= MAX_NESTING {
                Err(EvalErrorView::NestingTooDeep)
            } else {
                match parse_calc(ts, vars, d + 1, p + 1) {
                    Err(e) => Err(e),
                    Ok((v, q)) => if q < 0 || q >= ts.len() {
                        Err(EvalErrorView::UnexpectedEndOfInput)
                    } else if ts[q] == TokenView::RParen {
                        Ok((v, q + 1))
                    } else {
                        Err(
                            EvalErrorView::UnexpectedToken {
                                expected: TokenView::RParen,
                                actual: ts[q],
                            },
                        )
                    },
                }
            },
            TokenView::Value(n) => Ok((n, p + 1)),
            TokenView::Ident(name) => if vars.contains_key(name) {
                Ok((vars[name], p + 1))
            } else {
                Err(EvalErrorView::UnknownIdentifier(name))
            },
            t => Err(EvalErrorView::ExpectedFactor(t)),
        }
    }
}

pub open spec fn is_term_op(t: TokenView) -> bool {
    t is OpMult || t is OpDiv
}

pub open spec fn is_calc_op(t: TokenView) -> bool {
    t is OpPlus || t is OpMinus
}

/// The rest of a term from `p`, with `acc` the value of the factors so far.
pub open spec fn parse_term_rest(ts: Seq<TokenView>, vars: Map<Seq<char>, i64>, d: int, p: int, acc: i64) -> Result<
    (i64, int),
    EvalErrorView,
>
    decreases ts.len() - p, 1int,
{
    if 0 <= p < ts.len() && is_term_op(ts[p]) {
        match parse_factor(ts, vars, d, p + 1) {
            Err(e) => Err(e),
            Ok((v, q)) => match apply_op(ts[p], acc, v) {
                Err(e) => Err(e),
                Ok(acc2) => if p < q <= ts.len() {
                    parse_term_rest(ts, vars, d, q, acc2)
                } else {
                    Err(EvalErrorView::UnexpectedEndOfInput)
                },
            },
        }
    } else {
        Ok((acc, p))
    }
}

/// `term := factor (('*'|'/') factor)*` at position `p`.
pub open spec fn parse_term(ts: Seq<TokenView>, vars: Map<Seq<char>, i64>, d: int, p: int) -> Result<
    (i64, int),
    EvalErrorView,
>
    decreases ts.len() - p, 2int,
{
    match parse_factor(ts, vars, d, p) {
        Err(e) => Err(e),
        Ok((v, q)) => if p < q <= ts.len() {
            parse_term_rest(ts, vars, d, q, v)
        } else {
            Err(EvalErrorView::UnexpectedEndOfInput)
        },
    }
}

/// The rest of a calc from `p`, with `acc` the value of the terms so far.
pub open spec fn parse_calc_rest(ts: Seq<TokenView>, vars: Map<Seq<char>, i64>, d: int, p: int, acc: i64) -> Result<
    (i64, int),
    EvalErrorView,
>
    decreases ts.len() - p, 3int,
{
    if 0 <= p < ts.len() && is_calc_op(ts[p]) {
        match parse_term(ts, vars, d, p + 1) {
            Err(e) => Err(e),
            Ok((v, q)) => match apply_op(ts[p], acc, v) {
                Err(e) => Err(e),
                Ok(acc2) => if p < q <= ts.len() {
                    parse_calc_rest(ts, vars, d, q, acc2)
                } else {
                    Err(EvalErrorView::UnexpectedEndOfInput)
                },
            },
        }
    } else {
        Ok((acc, p))
    }
}

/// `calc := term (('+'|'-') term)*` at position `p`.
pub open spec fn parse_calc(ts: Seq<TokenView>, vars: Map<Seq<char>, i64>, d: int, p: int) -> Result<
    (i64, int),
    EvalErrorView,
>
    decreases ts.len() - p, 4int,
{
    match parse_term(ts, vars, d, p) {
        Err(e) => Err(e),
        Ok((v, q)) => if p < q <= ts.len() {
            parse_calc_rest(ts, vars, d, q, v)
        } else {
            Err(EvalErrorView::UnexpectedEndOfInput)
        },
    }
}

/// `assign := IDENT '=' calc`: the value and the table with the new binding.
pub open spec fn assign(ts: Seq<TokenView>, vars: Map<Seq<char>, i64>) -> Result<
    (i64, Map<Seq<char>, i64>),
    EvalErrorView,
> {
    if ts.len() == 0 {
        Err(EvalErrorView::UnexpectedEndOfInput)
    } else if !(ts[0] is Ident) {
        Err(EvalErrorView::ExpectedIdentifier(ts[0]))
    } else if ts.len() < 2 {
        Err(EvalErrorView::UnexpectedEndOfInput)
    } else if ts[1] != TokenView::Equals {
        Err(EvalErrorView::UnexpectedToken { expected: TokenView::Equals, actual: ts[1] })
    } else {
        match parse_calc(ts, vars, 0, 2) {
            Err(e) => Err(e),
            Ok((v, _)) => Ok((v, vars.insert(ts[0]->Ident_0, v))),
        }
    }
}

/// Whether a line of tokens is an assignment: its second token is `=`.
pub open spec fn is_assignment(ts: Seq<TokenView>) -> bool {
    ts.len() > 1 && ts[1] == TokenView::Equals
}

/// The value of a line of tokens and the variable table after it.
pub open spec fn eval_tokens(ts: Seq<TokenView>, vars: Map<Seq<char>, i64>) -> Result<
    (i64, Map<Seq<char>, i64>),
    EvalErrorView,
> {
    if is_assignment(ts) {
        assign(ts, vars)
    } else {
        match parse_calc(ts, vars, 0, 0) {
            Err(e) => Err(e),
            Ok((v, _)) => Ok((v, vars)),
        }
    }
}

/// The value of a line of text and the variable table after it.
pub open spec fn run_line(s: Seq<char>, vars: Map<Seq<char>, i64>) -> Result<
    (i64, Map<Seq<char>, i64>),
    RunErrorView,
> {
    match lex(s) {
        Err(e) => Err(RunErrorView::Lex(e)),
        Ok(ts) => match eval_tokens(ts, vars) {
            Err(e) => Err(RunErrorView::Eval(e)),
            Ok(r) => Ok(r),
        },
    }
}

/// The variable table after a line: unchanged when the line fails.
pub open spec fn table_after(s: Seq<char>, vars: Map<Seq<char>, i64>) -> Map<Seq<char>, i64> {
    match run_line(s, vars) {
        Ok((_, m)) => m,
        Err(_) => vars,
    }
}


/// A line that is not an assignment leaves the variable table as it was, so evaluating
/// it a second time gives the same result and again leaves the table as it was.
pub proof fn lemma_pure_line_idempotent(s: Seq<char>, vars: Map<Seq<char>, i64>)
    requires
        lex(s) matches Ok(ts) ==> !is_assignment(ts),
    ensures
        table_after(s, vars) == vars,
        run_line(s, table_after(s, vars)) == run_line(s, vars),
        table_after(s, table_after(s, vars)) == vars,
{
}

pub proof fn lemma_term_rest_bounds(ts: Seq<TokenView>, vars: Map<Seq<char>, i64>, d: int, p: int, acc: i64)
    requires
        0 <= p <= ts.len(),
    ensures
        parse_term_rest(ts, vars, d, p, acc) matches Ok((_, q)) ==> p <= q <= ts.len(),
    decreases ts.len() - p,
{
    if 0 <= p < ts.len() && is_term_op(ts[p]) {
        if let Ok((v, q)) = parse_factor(ts, vars, d, p + 1) {
            if let Ok(acc2) = apply_op(ts[p], acc, v) {
                if p < q <= ts.len() {
                    lemma_term_rest_bounds(ts, vars, d, q, acc2);
                }
            }
        }
    }
}

pub proof fn lemma_calc_rest_bounds(ts: Seq<TokenView>, vars: Map<Seq<char>, i64>, d: int, p: int, acc: i64)
    requires
        0 <= p <= ts.len(),
    ensures
        parse_calc_rest(ts, vars, d, p, acc) matches Ok((_, q)) ==> p <= q <= ts.len(),
    decreases ts.len() - p,
{
    if 0 <= p < ts.len() && is_calc_op(ts[p]) {
        if let Ok((v, q)) = parse_term(ts, vars, d, p + 1) {
            if let Ok(acc2) = apply_op(ts[p], acc, v) {
                if p < q <= ts.len() {
                    lemma_calc_rest_bounds(ts, vars, d, q, acc2);
                }
            }
        }
    }
}

/// Each successful grammar step consumes at least one token and stays in the line.
pub proof fn lemma_step_bounds(ts: Seq<TokenView>, vars: Map<Seq<char>, i64>, d: int, p: int)
    requires
        0 <= p <= ts.len(),
    ensures
        parse_term(ts, vars, d, p) matches Ok((_, q)) ==> p < q <= ts.len(),
        parse_calc(ts, vars, d, p) matches Ok((_, q)) ==> p < q <= ts.len(),
        parse_factor(ts, vars, d, p) matches Ok((_, q)) ==> p < q <= ts.len(),
{
    if let Ok((v, q)) = parse_factor(ts, vars, d, p) {
        if p < q <= ts.len() {
            lemma_term_rest_bounds(ts, vars, d, q, v);
        }
    }
    if let Ok((v, q)) = parse_term(ts, vars, d, p) {
        if p < q <= ts.len() {
            lemma_calc_rest_bounds(ts, vars, d, q, v);
        }
    }
    if p < ts.len() && ts[p] is LParen {
        if let Ok((v, q)) = parse_calc(ts, vars, d + 1, p + 1) {
            if let Ok((w, q2)) = parse_term(ts, vars, d + 1, p + 1) {
                if p + 1 < q2 <= ts.len() {
                    lemma_calc_rest_bounds(ts, vars, d + 1, q2, w);
                }
            }
        }
    }
}

/// Applies an arithmetic operator token with overflow and division checks.
fn combine(op: &Token, a: i64, b: i64) -> (r: Result<i64, EvalError>)
    requires
        is_term_op(op@) || is_calc_op(op@),
    ensures
        match r {
            Ok(v) => apply_op(op@, a, b) == Ok::<i64, EvalErrorView>(v),
            Err(e) => apply_op(op@, a, b) == Err::<i64, EvalErrorView>(e@),
        },
{
    let r = match op {
        Token::OpPlus => a.checked_add(b),
        Token::OpMinus => a.checked_sub(b),
        Token::OpMult => a.checked_mul(b),
        _ => {
            if b == 0 {
                return Err(EvalError::DivisionByZero);
            }
            a.checked_div(b)
        },
    };
    match r {
        Some(v) => Ok(v),
        None => Err(EvalError::Overflow),
    }
}

/// Evaluates lines of calculator text against a persistent variable table.
pub struct Evaluator {
    tokens: Option<Vec<Token>>,
    vars: VarTable,
    cursor: usize,
}

impl Evaluator {
    /// The variable bindings.
    pub closed spec fn variables(&self) -> Map<Seq<char>, i64> {
        self.vars@
    }

    pub closed spec fn wf(&self) -> bool {
        self.vars.wf()
    }

    spec fn toks(&self) -> Seq<TokenView> {
        view_tokens(self.tokens->Some_0@)
    }

    spec fn cursor_ok(&self) -> bool {
        self.tokens is Some ==> self.cursor <= self.toks().len()
    }

    spec fn ready(&self) -> bool {
        &&& self.tokens is Some
        &&& self.vars.wf()
        &&& self.cursor_ok()
    }

    /// Whether a line of tokens has been loaded.
    pub closed spec fn has_tokens(&self) -> bool {
        self.tokens is Some
    }

    /// The position of the next token to read.
    pub closed spec fn cursor_position(&self) -> int {
        self.cursor as int
    }

    /// An evaluator with no tokens and no variables.
    pub fn new() -> (e: Evaluator)
        ensures
            e.wf(),
            e.variables() == Map::<Seq<char>, i64>::empty(),
            !e.has_tokens(),
            e.cursor_position() == 0,
    {
        Evaluator { tokens: None, vars: VarTable::new(), cursor: 0 }
    }

    fn peek_ahead(&self, count: usize) -> (r: Option<&Token>)
        requires
            self.cursor_ok(),
        ensures
            self.tokens is Some ==> self.toks().len() <= usize::MAX,
            match r {
                Some(t) => self.tokens is Some && self.cursor + count < self.toks().len() && t@
                    == self.toks()[self.cursor + count],
                None => self.tokens is None || self.cursor + count >= self.toks().len(),
            },
    {
        match &self.tokens {
            Some(ts) => {
                if count < ts.len() - self.cursor {
                    Some(&ts[self.cursor + count])
                } else {
                    None
                }
            },
            None => None,
        }
    }

    fn peek(&self) -> (r: Option<&Token>)
        requires
            self.cursor_ok(),
        ensures
            self.tokens is Some ==> self.toks().len() <= usize::MAX,
            match r {
                Some(t) => self.tokens is Some && self.cursor < self.toks().len() && t@
                    == self.toks()[self.cursor as int],
                None => self.tokens is None || self.cursor >= self.toks().len(),
            },
    {
        self.peek_ahead(0)
    }

    fn next(&mut self) -> (r: Result<Token, EvalError>)
        requires
            old(self).cursor_ok(),
        ensures
            final(self).cursor_ok(),
            final(self).tokens == old(self).tokens,
            final(self).vars == old(self).vars,
            match r {
                Ok(t) => old(self).tokens is Some && old(self).cursor < old(self).toks().len() && t@
                    == old(self).toks()[old(self).cursor as int] && final(self).cursor == old(
                    self,
                ).cursor + 1,
                Err(e) => (old(self).tokens is None || old(self).cursor >= old(self).toks().len())
                    && e is UnexpectedEndOfInput && final(self).cursor == old(self).cursor,
            },
    {
        let t = match self.peek() {
            Some(t) => copy_token(t),
            None => {
                return Err(EvalError::UnexpectedEndOfInput);
            },
        };
        self.cursor = self.cursor + 1;
        Ok(t)
    }

    fn consume(&mut self, token: &Token) -> (r: Result<(), EvalError>)
        requires
            old(self).ready(),
        ensures
            final(self).ready(),
            final(self).tokens == old(self).tokens,
            final(self).vars == old(self).vars,
            match r {
                Ok(_) => old(self).cursor < old(self).toks().len() && old(self).toks()[old(
                    self,
                ).cursor as int] == token@ && final(self).cursor == old(self).cursor + 1,
                Err(e) => if old(self).cursor < old(self).toks().len() {
                    &&& old(self).toks()[old(self).cursor as int] != token@
                    &&& e@ == EvalErrorView::UnexpectedToken {
                        expected: token@,
                        actual: old(self).toks()[old(self).cursor as int],
                    }
                    &&& final(self).cursor == old(self).cursor + 1
                } else {
                    e is UnexpectedEndOfInput && final(self).cursor == old(self).cursor
                },
            },
    {
        let actual = self.next()?;
        if !same_token(&actual, token) {
            return Err(EvalError::UnexpectedToken { expected: copy_token(token), actual });
        }
        Ok(())
    }

    fn get_ident(&mut self) -> (r: Result<String, EvalError>)
        requires
            old(self).ready(),
        ensures
            final(self).ready(),
            final(self).tokens == old(self).tokens,
            final(self).vars == old(self).vars,
            match r {
                Ok(name) => old(self).cursor < old(self).toks().len() && old(self).toks()[old(
                    self,
                ).cursor as int] == TokenView::Ident(name@) && final(self).cursor == old(
                    self,
                ).cursor + 1,
                Err(e) => if old(self).cursor < old(self).toks().len() {
                    &&& !(old(self).toks()[old(self).cursor as int] is Ident)
                    &&& e@ == EvalErrorView::ExpectedIdentifier(
                        old(self).toks()[old(self).cursor as int],
                    )
                    &&& final(self).cursor == old(self).cursor + 1
                } else {
                    e is UnexpectedEndOfInput && final(self).cursor == old(self).cursor
                },
            },
    {
        match self.next()? {
            Token::Ident(name) => Ok(name),
            t => Err(EvalError::ExpectedIdentifier(t)),
        }
    }

    fn eval_factor(&mut self, depth: usize) -> (r: Result<i64, EvalError>)
        requires
            old(self).ready(),
            depth <= MAX_NESTING,
        ensures
            final(self).ready(),
            final(self).tokens == old(self).tokens,
            final(self).vars == old(self).vars,
            match r {
                Ok(v) => parse_factor(old(self).toks(), old(self).vars@, depth as int, old(self).cursor as int) == Ok::<
                    _,
                    EvalErrorView,
                >((v, final(self).cursor as int)),
                Err(e) => parse_factor(old(self).toks(), old(self).vars@, depth as int, old(self).cursor as int)
                    == Err::<(i64, int), _>(e@),
            },
            old(self).cursor >= old(self).toks().len() ==> final(self).cursor == old(self).cursor,
            old(self).cursor < old(self).toks().len() && !(old(self).toks()[old(
                self,
            ).cursor as int] is LParen) ==> final(self).cursor == old(self).cursor + 1,
            old(self).cursor < old(self).toks().len() && old(self).toks()[old(
                self,
            ).cursor as int] is LParen && depth >= MAX_NESTING ==> final(self).cursor == old(
                self,
            ).cursor + 1,
        decreases old(self).toks().len() - old(self).cursor, 0int,
    {
        match self.peek() {
            None => {
                return Err(EvalError::UnexpectedEndOfInput);
            },
            Some(Token::LParen) => {},
            Some(Token::Value(n)) => {
                let v = *n;
                self.cursor = self.cursor + 1;
                return Ok(v);
            },
            Some(Token::Ident(name)) => {
                match self.vars.get(name) {
                    Some(v) => {
                        self.cursor = self.cursor + 1;
                        return Ok(v);
                    },
                    None => {
                        let err = EvalError::UnknownIdentifier(name.clone());
                        self.cursor = self.cursor + 1;
                        return Err(err);
                    },
                }
            },
            Some(t) => {
                let err = EvalError::ExpectedFactor(copy_token(t));
                self.cursor = self.cursor + 1;
                return Err(err);
            },
        };
        self.cursor = self.cursor + 1;
        if depth >= MAX_NESTING {
            return Err(EvalError::NestingTooDeep);
        }
        let result = self.eval_calc(depth + 1)?;
        proof {
            lemma_step_bounds(self.toks(), self.vars@, depth + 1, old(self).cursor + 1);
        }
        self.consume(&Token::RParen)?;
        Ok(result)
    }

    fn eval_term(&mut self, depth: usize) -> (r: Result<i64, EvalError>)
        requires
            old(self).ready(),
            depth <= MAX_NESTING,
        ensures
            final(self).ready(),
            final(self).tokens == old(self).tokens,
            final(self).vars == old(self).vars,
            match r {
                Ok(v) => parse_term(old(self).toks(), old(self).vars@, depth as int, old(self).cursor as int) == Ok::<
                    _,
                    EvalErrorView,
                >((v, final(self).cursor as int)),
                Err(e) => parse_term(old(self).toks(), old(self).vars@, depth as int, old(self).cursor as int)
                    == Err::<(i64, int), _>(e@),
            },
        decreases old(self).toks().len() - old(self).cursor, 2int,
    {
        let ghost ts = self.toks();
        let ghost vars = self.vars@;
        let ghost p0 = self.cursor as int;
        let mut result = self.eval_factor(depth)?;
        proof {
            lemma_step_bounds(ts, vars, depth as int, p0);
        }
        loop
            invariant
                self.ready(),
                self.tokens == old(self).tokens,
                self.vars == old(self).vars,
                ts == old(self).toks(),
                vars == old(self).vars@,
                p0 == old(self).cursor,
                p0 < self.cursor,
                depth <= MAX_NESTING,
                parse_term(ts, vars, depth as int, p0) == parse_term_rest(ts, vars, depth as int, self.cursor as int, result),
            decreases ts.len() - self.cursor,
        {
            let ghost p = self.cursor as int;
            let op = match self.peek() {
                Some(t) => {
                    if is_term_token(t) {
                        copy_token(t)
                    } else {
                        return Ok(result);
                    }
                },
                None => {
                    return Ok(result);
                },
            };
            self.cursor = self.cursor + 1;
            let v = self.eval_factor(depth)?;
            proof {
                lemma_step_bounds(ts, vars, depth as int, p + 1);
            }
            result = combine(&op, result, v)?;
        }
    }

    fn eval_calc(&mut self, depth: usize) -> (r: Result<i64, EvalError>)
        requires
            old(self).ready(),
            depth <= MAX_NESTING,
        ensures
            final(self).ready(),
            final(self).tokens == old(self).tokens,
            final(self).vars == old(self).vars,
            match r {
                Ok(v) => parse_calc(old(self).toks(), old(self).vars@, depth as int, old(self).cursor as int) == Ok::<
                    _,
                    EvalErrorView,
                >((v, final(self).cursor as int)),
                Err(e) => parse_calc(old(self).toks(), old(self).vars@, depth as int, old(self).cursor as int)
                    == Err::<(i64, int), _>(e@),
            },
        decreases old(self).toks().len() - old(self).cursor, 4int,
    {
        let ghost ts = self.toks();
        let ghost vars = self.vars@;
        let ghost p0 = self.cursor as int;
        let mut result = self.eval_term(depth)?;
        proof {
            lemma_step_bounds(ts, vars, depth as int, p0);
        }
        loop
            invariant
                self.ready(),
                self.tokens == old(self).tokens,
                self.vars == old(self).vars,
                ts == old(self).toks(),
                vars == old(self).vars@,
                p0 == old(self).cursor,
                p0 < self.cursor,
                depth <= MAX_NESTING,
                parse_calc(ts, vars, depth as int, p0) == parse_calc_rest(ts, vars, depth as int, self.cursor as int, result),
            decreases ts.len() - self.cursor,
        {
            let ghost p = self.cursor as int;
            let op = match self.peek() {
                Some(t) => {
                    if is_calc_token(t) {
                        copy_token(t)
                    } else {
                        return Ok(result);
                    }
                },
                None => {
                    return Ok(result);
                },
            };
            self.cursor = self.cursor + 1;
            let v = self.eval_term(depth)?;
            proof {
                lemma_step_bounds(ts, vars, depth as int, p + 1);
            }
            result = combine(&op, result, v)?;
        }
    }

    fn eval_assign(&mut self) -> (r: Result<i64, EvalError>)
        requires
            old(self).ready(),
            old(self).cursor == 0,
        ensures
            final(self).ready(),
            final(self).tokens == old(self).tokens,
            match r {
                Ok(v) => assign(old(self).toks(), old(self).vars@) == Ok::<_, EvalErrorView>(
                    (v, final(self).vars@),
                ),
                Err(e) => assign(old(self).toks(), old(self).vars@) == Err::<
                    (i64, Map<Seq<char>, i64>),
                    _,
                >(e@) && final(self).vars@ == old(self).vars@,
            },
    {
        let ident = self.get_ident()?;
        self.consume(&Token::Equals)?;
        let result = self.eval_calc(0)?;
        self.vars.set(ident, result);
        Ok(result)
    }

    fn eval(&mut self) -> (r: Result<i64, EvalError>)
        requires
            old(self).tokens is Some,
            old(self).vars.wf(),
        ensures
            final(self).ready(),
            final(self).tokens == old(self).tokens,
            match r {
                Ok(v) => eval_tokens(old(self).toks(), old(self).vars@) == Ok::<_, EvalErrorView>(
                    (v, final(self).vars@),
                ),
                Err(e) => eval_tokens(old(self).toks(), old(self).vars@) == Err::<
                    (i64, Map<Seq<char>, i64>),
                    _,
                >(e@) && final(self).vars@ == old(self).vars@,
            },
    {
        self.cursor = 0;
        let assignment = match self.peek_ahead(1) {
            Some(Token::Equals) => true,
            _ => false,
        };
        if assignment {
            self.eval_assign()
        } else {
            let v = self.eval_calc(0)?;
            Ok(v)
        }
    }

    /// Evaluates a line of tokens, which replace any earlier ones. The variable table
    /// changes only through a successful assignment.
    pub fn evaluate(&mut self, tokens: Vec<Token>) -> (r: Result<i64, EvalError>)
        requires
            old(self).wf(),
        ensures
            final(self).wf(),
            match r {
                Ok(v) => eval_tokens(view_tokens(tokens@), old(self).variables()) == Ok::<
                    _,
                    EvalErrorView,
                >((v, final(self).variables())),
                Err(e) => eval_tokens(view_tokens(tokens@), old(self).variables()) == Err::<
                    (i64, Map<Seq<char>, i64>),
                    _,
                >(e@) && final(self).variables() == old(self).variables(),
            },
    {
        self.tokens = Some(tokens);
        self.eval()
    }

    /// Tokenizes and evaluates one line: its value, or why it failed. The variable
    /// table changes only through a successful assignment.
    pub fn run(&mut self, content: &str) -> (r: Result<i64, RunError>)
        requires
            old(self).wf(),
        ensures
            final(self).wf(),
            final(self).variables() == table_after(content@, old(self).variables()),
            match r {
                Ok(v) => run_line(content@, old(self).variables()) == Ok::<_, RunErrorView>(
                    (v, final(self).variables()),
                ),
                Err(e) => run_line(content@, old(self).variables()) == Err::<
                    (i64, Map<Seq<char>, i64>),
                    _,
                >(e@),
            },
    {
        let mut tokenizer = Tokenizer::new(content);
        let tokens = match tokenizer.run() {
            Ok(tokens) => tokens,
            Err(e) => {
                return Err(RunError::Lex(e));
            },
        };
        match self.evaluate(tokens) {
            Ok(v) => Ok(v),
            Err(e) => Err(RunError::Eval(e)),
        }
    }
}

fn is_term_token(t: &Token) -> (r: bool)
    ensures
        r == is_term_op(t@),
{
    match t {
        Token::OpMult => true,
        Token::OpDiv => true,
        _ => false,
    }
}

fn is_calc_token(t: &Token) -> (r: bool)
    ensures
        r == is_calc_op(t@),
{
    match t {
        Token::OpPlus => true,
        Token::OpMinus => true,
        _ => false,
    }
}

} // verus!
