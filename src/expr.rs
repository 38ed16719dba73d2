use vstd::prelude::*;

use crate::eval::{
    apply_op, eval_tokens, fits, is_term_op, parse_calc, parse_calc_rest,
    parse_factor, parse_term, parse_term_rest, trunc_div, EvalErrorView, MAX_NESTING,
};
use crate::tokenizer::TokenView;

verus! {

/// An integer expression over literals, variables, `+ - * /` and parentheses.
pub enum ArithExpr {
    Lit(i64),
    Var(String),
    Group(Box<ArithExpr>),
    Add(Box<ArithExpr>, Box<ArithExpr>),
    Sub(Box<ArithExpr>, Box<ArithExpr>),
    Mul(Box<ArithExpr>, Box<ArithExpr>),
    Div(Box<ArithExpr>, Box<ArithExpr>),
}

/// A literal or a parenthesized expression.
pub open spec fn is_factor_expr(e: ArithExpr) -> bool
    decreases e,
{
    match e {
        ArithExpr::Lit(_) => true,
        ArithExpr::Var(_) => true,
        ArithExpr::Group(c) => is_calc_expr(*c),
        _ => false,
    }
}

/// A product or quotient chain whose shape follows left associativity.
pub open spec fn is_term_expr(e: ArithExpr) -> bool
    decreases e,
{
    match e {
        ArithExpr::Lit(_) => true,
        ArithExpr::Var(_) => true,
        ArithExpr::Group(c) => is_calc_expr(*c),
        ArithExpr::Mul(l, r) => is_term_expr(*l) && is_factor_expr(*r),
        ArithExpr::Div(l, r) => is_term_expr(*l) && is_factor_expr(*r),
        _ => false,
    }
}

/// An expression whose tree is the one that precedence and left associativity give
/// to its written form.
pub open spec fn is_calc_expr(e: ArithExpr) -> bool
    decreases e,
{
    match e {
        ArithExpr::Lit(_) => true,
        ArithExpr::Var(_) => true,
        ArithExpr::Group(c) => is_calc_expr(*c),
        ArithExpr::Mul(l, r) => is_term_expr(*l) && is_factor_expr(*r),
        ArithExpr::Div(l, r) => is_term_expr(*l) && is_factor_expr(*r),
        ArithExpr::Add(l, r) => is_calc_expr(*l) && is_term_expr(*r),
        ArithExpr::Sub(l, r) => is_calc_expr(*l) && is_term_expr(*r),
    }
}

/// The written form of an expression, as tokens.
pub open spec fn render(e: ArithExpr) -> Seq<TokenView>
    decreases e,
{
    match e {
        ArithExpr::Lit(n) => seq![TokenView::Value(n)],
        ArithExpr::Var(name) => seq![TokenView::Ident(name@)],
        ArithExpr::Group(c) => seq![TokenView::LParen] + render(*c) + seq![TokenView::RParen],
        ArithExpr::Add(l, r) => render(*l) + seq![TokenView::OpPlus] + render(*r),
        ArithExpr::Sub(l, r) => render(*l) + seq![TokenView::OpMinus] + render(*r),
        ArithExpr::Mul(l, r) => render(*l) + seq![TokenView::OpMult] + render(*r),
        ArithExpr::Div(l, r) => render(*l) + seq![TokenView::OpDiv] + render(*r),
    }
}

/// The value in integer arithmetic with the variables bound as in `vars`, division
/// truncating; none on a zero divisor or an unbound variable.
pub open spec fn value(e: ArithExpr, vars: Map<Seq<char>, i64>) -> Option<int>
    decreases e,
{
    match e {
        ArithExpr::Lit(n) => Some(n as int),
        ArithExpr::Var(name) => if vars.contains_key(name@) {
            Some(vars[name@] as int)
        } else {
            None
        },
        ArithExpr::Group(c) => value(*c, vars),
        ArithExpr::Add(l, r) => match (value(*l, vars), value(*r, vars)) {
            (Some(a), Some(b)) => Some(a + b),
            _ => None,
        },
        ArithExpr::Sub(l, r) => match (value(*l, vars), value(*r, vars)) {
            (Some(a), Some(b)) => Some(a - b),
            _ => None,
        },
        ArithExpr::Mul(l, r) => match (value(*l, vars), value(*r, vars)) {
            (Some(a), Some(b)) => Some(a * b),
            _ => None,
        },
        ArithExpr::Div(l, r) => match (value(*l, vars), value(*r, vars)) {
            (Some(a), Some(b)) => if b == 0 {
                None
            } else {
                Some(trunc_div(a, b))
            },
            _ => None,
        },
    }
}

/// Every subexpression has a value, and each value fits in 64 signed bits.
pub open spec fn in_range(e: ArithExpr, vars: Map<Seq<char>, i64>) -> bool
    decreases e,
{
    &&& value(e, vars) is Some
    &&& fits(value(e, vars)->0)
    &&& match e {
        ArithExpr::Lit(_) => true,
        ArithExpr::Var(_) => true,
        ArithExpr::Group(c) => in_range(*c, vars),
        ArithExpr::Add(l, r) => in_range(*l, vars) && in_range(*r, vars),
        ArithExpr::Sub(l, r) => in_range(*l, vars) && in_range(*r, vars),
        ArithExpr::Mul(l, r) => in_range(*l, vars) && in_range(*r, vars),
        ArithExpr::Div(l, r) => in_range(*l, vars) && in_range(*r, vars),
    }
}

/// How deeply parentheses nest in an expression.
pub open spec fn nesting(e: ArithExpr) -> nat
    decreases e,
{
    match e {
        ArithExpr::Lit(_) => 0,
        ArithExpr::Var(_) => 0,
        ArithExpr::Group(c) => 1 + nesting(*c),
        ArithExpr::Add(l, r) => larger(nesting(*l), nesting(*r)),
        ArithExpr::Sub(l, r) => larger(nesting(*l), nesting(*r)),
        ArithExpr::Mul(l, r) => larger(nesting(*l), nesting(*r)),
        ArithExpr::Div(l, r) => larger(nesting(*l), nesting(*r)),
    }
}

pub open spec fn larger(a: nat, b: nat) -> nat {
    if a >= b {
        a
    } else {
        b
    }
}

pub open spec fn occurs_at(ts: Seq<TokenView>, p: int, e: ArithExpr) -> bool {
    0 <= p && p + render(e).len() <= ts.len() && ts.subrange(p, p + render(e).len()) == render(e)
}

proof fn lemma_split(ts: Seq<TokenView>, p: int, l: Seq<TokenView>, m: Seq<TokenView>, r: Seq<TokenView>)
    requires
        0 <= p,
        p + (l + m + r).len() <= ts.len(),
        ts.subrange(p, p + (l + m + r).len()) == l + m + r,
    ensures
        ts.subrange(p, p + l.len()) == l,
        ts.subrange(p + l.len(), p + l.len() + m.len()) == m,
        ts.subrange(p + l.len() + m.len(), p + l.len() + m.len() + r.len()) == r,
{
    let whole = l + m + r;
    assert(forall|i: int| 0 <= i < whole.len() ==> ts[p + i] == #[trigger] whole[i]) by {
        assert forall|i: int| 0 <= i < whole.len() implies ts[p + i] == #[trigger] whole[i] by {
            assert(ts.subrange(p, p + whole.len())[i] == ts[p + i]);
        }
    }
    assert(ts.subrange(p, p + l.len()) =~= l) by {
        assert forall|i: int| 0 <= i < l.len() implies ts.subrange(p, p + l.len())[i] == l[i] by {
            assert(whole[i] == l[i]);
        }
    }
    assert(ts.subrange(p + l.len(), p + l.len() + m.len()) =~= m) by {
        assert forall|i: int| 0 <= i < m.len() implies ts.subrange(
            p + l.len(),
            p + l.len() + m.len(),
        )[i] == m[i] by {
            assert(whole[l.len() + i] == m[i]);
        }
    }
    assert(ts.subrange(p + l.len() + m.len(), p + l.len() + m.len() + r.len()) =~= r) by {
        assert forall|i: int| 0 <= i < r.len() implies ts.subrange(
            p + l.len() + m.len(),
            p + l.len() + m.len() + r.len(),
        )[i] == r[i] by {
            assert(whole[l.len() + m.len() + i] == r[i]);
        }
    }
}

proof fn lemma_factor(ts: Seq<TokenView>, vars: Map<Seq<char>, i64>, d: int, p: int, e: ArithExpr)
    requires
        is_factor_expr(e),
        in_range(e, vars),
        occurs_at(ts, p, e),
        0 <= d,
        d + nesting(e) <= MAX_NESTING,
    ensures
        parse_factor(ts, vars, d, p) == Ok::<_, EvalErrorView>(
            (value(e, vars)->0 as i64, p + render(e).len()),
        ),
    decreases e, 0int,
{
    assert(ts[p] == render(e)[0]) by {
        assert(ts.subrange(p, p + render(e).len())[0] == ts[p]);
    }
    match e {
        ArithExpr::Lit(_) => {},
        ArithExpr::Var(_) => {},
        ArithExpr::Group(c) => {
            let open_p = seq![TokenView::LParen];
            let close_p = seq![TokenView::RParen];
            lemma_split(ts, p, open_p, render(*c), close_p);
            let q = p + 1 + render(*c).len();
            assert(ts[q] == TokenView::RParen) by {
                assert(ts.subrange(q, q + 1)[0] == ts[q]);
            }
            lemma_calc(ts, vars, d + 1, p + 1, *c);
            assert(parse_calc_rest(ts, vars, d + 1, q, value(*c, vars)->0 as i64) == Ok::<_, EvalErrorView>(
                (value(*c, vars)->0 as i64, q),
            ));
        },
        _ => {},
    }
}

proof fn lemma_term(ts: Seq<TokenView>, vars: Map<Seq<char>, i64>, d: int, p: int, e: ArithExpr)
    requires
        is_term_expr(e),
        in_range(e, vars),
        occurs_at(ts, p, e),
        0 <= d,
        d + nesting(e) <= MAX_NESTING,
    ensures
        parse_term(ts, vars, d, p) == parse_term_rest(ts, vars, d, p + render(e).len(), value(e, vars)->0 as i64),
    decreases e, 1int,
{
    match e {
        ArithExpr::Mul(_, _) => {
            lemma_term_step(ts, vars, d, p, e);
        },
        ArithExpr::Div(_, _) => {
            lemma_term_step(ts, vars, d, p, e);
        },
        _ => {
            lemma_factor(ts, vars, d, p, e);
        },
    }
}

proof fn lemma_term_step(ts: Seq<TokenView>, vars: Map<Seq<char>, i64>, d: int, p: int, e: ArithExpr)
    requires
        e is Mul || e is Div,
        is_term_expr(e),
        in_range(e, vars),
        occurs_at(ts, p, e),
        0 <= d,
        d + nesting(e) <= MAX_NESTING,
    ensures
        parse_term(ts, vars, d, p) == parse_term_rest(ts, vars, d, p + render(e).len(), value(e, vars)->0 as i64),
    decreases e, 0int,
{
    let (l, r, op) = match e {
        ArithExpr::Mul(l, r) => (*l, *r, TokenView::OpMult),
        ArithExpr::Div(l, r) => (*l, *r, TokenView::OpDiv),
        _ => (e, e, TokenView::OpMult),
    };
    lemma_split(ts, p, render(l), seq![op], render(r));
    let m = p + render(l).len();
    assert(ts[m] == op) by {
        assert(ts.subrange(m, m + 1)[0] == ts[m]);
    }
    assert(in_range(l, vars) && in_range(r, vars));
    assert(value(l, vars) is Some && fits(value(l, vars)->0) && value(r, vars) is Some && fits(value(r, vars)->0));
    lemma_term(ts, vars, d, p, l);
    lemma_factor(ts, vars, d, m + 1, r);
    let end = m + 1 + render(r).len();
    assert(apply_op(op, value(l, vars)->0 as i64, value(r, vars)->0 as i64) == Ok::<_, EvalErrorView>(
        value(e, vars)->0 as i64,
    ));
    assert(parse_term_rest(ts, vars, d, m, value(l, vars)->0 as i64) == parse_term_rest(
        ts,
        vars,
        d,
        end,
        value(e, vars)->0 as i64,
    ));
}

proof fn lemma_calc(ts: Seq<TokenView>, vars: Map<Seq<char>, i64>, d: int, p: int, e: ArithExpr)
    requires
        is_calc_expr(e),
        in_range(e, vars),
        occurs_at(ts, p, e),
        0 <= d,
        d + nesting(e) <= MAX_NESTING,
        p + render(e).len() < ts.len() ==> !is_term_op(ts[p + render(e).len()]),
    ensures
        parse_calc(ts, vars, d, p) == parse_calc_rest(ts, vars, d, p + render(e).len(), value(e, vars)->0 as i64),
    decreases e, 3int,
{
    match e {
        ArithExpr::Add(_, _) => {
            lemma_calc_step(ts, vars, d, p, e);
        },
        ArithExpr::Sub(_, _) => {
            lemma_calc_step(ts, vars, d, p, e);
        },
        _ => {
            lemma_term(ts, vars, d, p, e);
            let v = value(e, vars)->0 as i64;
            let end = p + render(e).len();
            assert(parse_term_rest(ts, vars, d, end, v) == Ok::<_, EvalErrorView>((v, end)));
        },
    }
}

proof fn lemma_calc_step(ts: Seq<TokenView>, vars: Map<Seq<char>, i64>, d: int, p: int, e: ArithExpr)
    requires
        e is Add || e is Sub,
        is_calc_expr(e),
        in_range(e, vars),
        occurs_at(ts, p, e),
        0 <= d,
        d + nesting(e) <= MAX_NESTING,
        p + render(e).len() < ts.len() ==> !is_term_op(ts[p + render(e).len()]),
    ensures
        parse_calc(ts, vars, d, p) == parse_calc_rest(ts, vars, d, p + render(e).len(), value(e, vars)->0 as i64),
    decreases e, 2int,
{
    let (l, r, op) = match e {
        ArithExpr::Add(l, r) => (*l, *r, TokenView::OpPlus),
        ArithExpr::Sub(l, r) => (*l, *r, TokenView::OpMinus),
        _ => (e, e, TokenView::OpPlus),
    };
    lemma_split(ts, p, render(l), seq![op], render(r));
    let m = p + render(l).len();
    assert(ts[m] == op) by {
        assert(ts.subrange(m, m + 1)[0] == ts[m]);
    }
    assert(in_range(l, vars) && in_range(r, vars));
    assert(value(l, vars) is Some && fits(value(l, vars)->0) && value(r, vars) is Some && fits(value(r, vars)->0));
    lemma_calc(ts, vars, d, p, l);
    lemma_term(ts, vars, d, m + 1, r);
    let end = m + 1 + render(r).len();
    let vr = value(r, vars)->0 as i64;
    assert(parse_term_rest(ts, vars, d, end, vr) == Ok::<_, EvalErrorView>((vr, end)));
    assert(apply_op(op, value(l, vars)->0 as i64, vr) == Ok::<_, EvalErrorView>(value(e, vars)->0 as i64));
    assert(parse_calc_rest(ts, vars, d, m, value(l, vars)->0 as i64) == parse_calc_rest(
        ts,
        vars,
        d,
        end,
        value(e, vars)->0 as i64,
    ));
}

proof fn lemma_render_has_no_equals(e: ArithExpr)
    ensures
        forall|i: int| 0 <= i < render(e).len() ==> render(e)[i] != TokenView::Equals,
    decreases e,
{
    match e {
        ArithExpr::Lit(_) => {},
        ArithExpr::Var(_) => {},
        ArithExpr::Group(c) => {
            lemma_render_has_no_equals(*c);
        },
        ArithExpr::Add(l, r) => {
            lemma_render_has_no_equals(*l);
            lemma_render_has_no_equals(*r);
        },
        ArithExpr::Sub(l, r) => {
            lemma_render_has_no_equals(*l);
            lemma_render_has_no_equals(*r);
        },
        ArithExpr::Mul(l, r) => {
            lemma_render_has_no_equals(*l);
            lemma_render_has_no_equals(*r);
        },
        ArithExpr::Div(l, r) => {
            lemma_render_has_no_equals(*l);
            lemma_render_has_no_equals(*r);
        },
    }
}

/// Evaluating the written form of an expression against a variable table gives its
/// value in ordinary integer
/// arithmetic (precedence, left associativity, division truncating toward zero),
/// whenever every intermediate value fits in 64 signed bits and parentheses nest no
/// deeper than `MAX_NESTING`; the variables are unchanged.
pub proof fn lemma_evaluates_to_value(e: ArithExpr, vars: Map<Seq<char>, i64>)
    requires
        is_calc_expr(e),
        in_range(e, vars),
        nesting(e) <= MAX_NESTING,
    ensures
        eval_tokens(render(e), vars) == Ok::<_, EvalErrorView>((value(e, vars)->0 as i64, vars)),
{
    let ts = render(e);
    assert(ts.subrange(0, ts.len() as int) =~= ts);
    lemma_calc(ts, vars, 0, 0, e);
    lemma_render_has_no_equals(e);
    let v = value(e, vars)->0 as i64;
    assert(parse_calc_rest(ts, vars, 0, ts.len() as int, v) == Ok::<_, EvalErrorView>((v, ts.len() as int)));
}

/// Evaluating the written form of a quotient whose divisor evaluates to zero fails
/// with a division-by-zero error (and so leaves the variable table as it was).
pub proof fn lemma_zero_divisor_fails(l: ArithExpr, r: ArithExpr, vars: Map<Seq<char>, i64>)
    requires
        is_term_expr(l),
        is_factor_expr(r),
        in_range(l, vars),
        in_range(r, vars),
        value(r, vars) == Some(0int),
        nesting(l) <= MAX_NESTING,
        nesting(r) <= MAX_NESTING,
    ensures
        eval_tokens(
            render(ArithExpr::Div(Box::new(l), Box::new(r))),
            vars,
        ) == Err::<(i64, Map<Seq<char>, i64>), _>(EvalErrorView::DivisionByZero),
{
    let e = ArithExpr::Div(Box::new(l), Box::new(r));
    let ts = render(e);
    assert(ts.subrange(0, ts.len() as int) =~= ts);
    lemma_split(ts, 0, render(l), seq![TokenView::OpDiv], render(r));
    let m = render(l).len() as int;
    assert(ts[m] == TokenView::OpDiv) by {
        assert(ts.subrange(m, m + 1)[0] == ts[m]);
    }
    lemma_term(ts, vars, 0, 0, l);
    lemma_factor(ts, vars, 0, m + 1, r);
    lemma_render_has_no_equals(e);
    assert(parse_term(ts, vars, 0, 0) == Err::<(i64, int), _>(EvalErrorView::DivisionByZero));
}

} // verus!
