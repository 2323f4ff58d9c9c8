use vstd::prelude::*;
use crate::ast::{
    Precedence, SpecExpr, SpecStmt, rank, render_args, render_expr, render_stmt, render_stmts,
    token_precedence,
};
use crate::environment::{SpecEnv, fresh_env};
use crate::evaluator::{eval_block, run_program, spec_infix};
use crate::lexer::{
    string_end,
    digit_value, digits_end, digits_value, is_digit, is_letter, is_space, lemma_digits_value_push,
    lemma_lex_step_progress, letters_end, lex_step, number_end, number_token, punct_token,
    skip_spaces,
};
use crate::object::{SpecValue, kind_name, mismatch_message};
use crate::parser::{
    PState, advance, initial_state, is_infix_operator, lemma_advance_measure, measure, p_expr,
    p_expr_stmt, p_grouped, p_infix, p_infix_loop, p_prefix, p_prefix_op, p_program_acc, p_stmt,
    parse_text, skip_semicolon, within,
};
use crate::text::{decimal, digit_char, nat_decimal};
use crate::token::{SpecToken, operator_text, word_token};

verus! {

/// Comparing two values of different runtime types with `==`, `<` or `>` is a
/// type-mismatch error, not a value.
pub proof fn lemma_mixed_comparison_fails(a: SpecValue, b: SpecValue)
    requires
        kind_name(a) != kind_name(b),
    ensures
        spec_infix(SpecToken::Eq, a, b) == Err::<SpecValue, Seq<char>>(mismatch_message(a, b)),
        spec_infix(SpecToken::LT, a, b) == Err::<SpecValue, Seq<char>>(mismatch_message(a, b)),
        spec_infix(SpecToken::GT, a, b) == Err::<SpecValue, Seq<char>>(mismatch_message(a, b)),
{
}

/// A `return` statement ends a sequence of statements: whatever follows it is not
/// evaluated.
pub proof fn lemma_return_skips_rest(
    e: crate::ast::SpecExpr,
    rest: Seq<SpecStmt>,
    env: SpecEnv,
    sc: nat,
    fuel: nat,
)
    ensures
        eval_block(seq![SpecStmt::Return(e)] + rest, env, sc, fuel) == eval_block(
            seq![SpecStmt::Return(e)],
            env,
            sc,
            fuel,
        ),
        run_program(seq![SpecStmt::Return(e)] + rest, env) == run_program(
            seq![SpecStmt::Return(e)],
            env,
        ),
{
    lemma_return_skips_rest_in_block(e, rest, env, sc, fuel);
    lemma_return_skips_rest_in_block(e, rest, env, 0, crate::evaluator::MAX_CALL_DEPTH as nat);
}

proof fn lemma_return_skips_rest_in_block(
    e: crate::ast::SpecExpr,
    rest: Seq<SpecStmt>,
    env: SpecEnv,
    sc: nat,
    fuel: nat,
)
    ensures
        eval_block(seq![SpecStmt::Return(e)] + rest, env, sc, fuel) == eval_block(
            seq![SpecStmt::Return(e)],
            env,
            sc,
            fuel,
        ),
{
    let ss = seq![SpecStmt::Return(e)] + rest;
    let one = seq![SpecStmt::Return(e)];
    assert(ss[0] == SpecStmt::Return(e));
    assert(one[0] == SpecStmt::Return(e));
    let (r, env1) = crate::evaluator::eval_stmt(SpecStmt::Return(e), env, sc, fuel);
    assert(r is Ok ==> r->Ok_0 is Return);
    assert(eval_block(ss, env, sc, fuel) == match r {
        Err(m) => (Err(m), env1),
        Ok(v) => (Ok(v), env1),
    });
    assert(eval_block(one, env, sc, fuel) == match r {
        Err(m) => (Err(m), env1),
        Ok(v) => (Ok(v), env1),
    });
}

proof fn lemma_nat_decimal_digits(n: nat)
    ensures
        nat_decimal(n).len() >= 1,
        forall|k: int| 0 <= k < nat_decimal(n).len() ==> is_digit(#[trigger] nat_decimal(n)[k]),
        digits_value(nat_decimal(n)) == n,
    decreases n,
{
    if n < 10 {
        let s = nat_decimal(n);
        assert(s == seq![digit_char(n as int)]);
        assert(s.drop_last() =~= Seq::<char>::empty());
        assert(digits_value(Seq::<char>::empty()) == 0);
        assert(s.last() == digit_char(n as int));
        assert(digit_value(digit_char(n as int)) == n);
        assert(digits_value(s) == digits_value(s.drop_last()) * 10 + digit_value(s.last()));
    } else {
        lemma_nat_decimal_digits(n / 10);
        let d = digit_char((n % 10) as int);
        lemma_digits_value_push(nat_decimal(n / 10), d);
        assert(digit_value(d) == n % 10);
        assert(nat_decimal(n) == nat_decimal(n / 10).push(d));
        assert((n / 10) * 10 + n % 10 == n) by (nonlinear_arith);
        assert(digits_value(nat_decimal(n)) == digits_value(nat_decimal(n / 10)) * 10 + digit_value(
            d,
        ));
    }
}

proof fn lemma_digits_run(s: Seq<char>, p: int)
    requires
        0 <= p <= s.len(),
        forall|k: int| 0 <= k < s.len() ==> is_digit(#[trigger] s[k]),
    ensures
        digits_end(s, p) == s.len(),
    decreases s.len() - p,
{
    if p < s.len() {
        lemma_digits_run(s, p + 1);
    }
}

/// Every integer literal evaluates to itself: the decimal writing of a
/// non-negative `n` parses to the single statement `n`, and running that program
/// gives the integer `n`.
pub proof fn lemma_integer_literal_evaluates_to_itself(n: i64)
    requires
        n >= 0,
    ensures
        parse_text(decimal(n as int)) == Some(seq![SpecStmt::Expr(SpecExpr::Int(n))]),
        run_program(seq![SpecStmt::Expr(SpecExpr::Int(n))], fresh_env()).0 == SpecValue::Int(n),
{
    reveal(lex_step);
    let s = decimal(n as int);
    assert(s == nat_decimal(n as nat));
    lemma_nat_decimal_digits(n as nat);
    let len = s.len() as int;
    assert(is_digit(s[0]));
    assert(!is_space(s[0]));
    assert(skip_spaces(s, 0) == 0);
    lemma_digits_run(s, 0);
    assert(number_end(s, 0) == len);
    assert(s.subrange(0, len) =~= s);
    assert(number_token(s, 0) == (SpecToken::Int(n), len));
    assert(lex_step(s, 0) == (SpecToken::Int(n), len));
    assert(skip_spaces(s, len) == len);
    assert(lex_step(s, len) == (SpecToken::EOF, len));
    let st = PState { pos: len, cur: SpecToken::Int(n), peek: SpecToken::EOF };
    assert(initial_state(s, 0) == st);
    assert(p_prefix(s, st) == Some((SpecExpr::Int(n), st)));
    assert(rank(token_precedence(SpecToken::EOF)) == 0);
    assert(p_infix_loop(s, st, Precedence::Lowest, SpecExpr::Int(n)) == Some((SpecExpr::Int(n), st)));
    assert(p_expr(s, st, Precedence::Lowest) == Some((SpecExpr::Int(n), st)));
    assert(skip_semicolon(s, st) == st);
    let stmt = SpecStmt::Expr(SpecExpr::Int(n));
    assert(p_expr_stmt(s, st) == Some((stmt, st)));
    assert(p_stmt(s, st) == Some((stmt, st)));
    let st2 = PState { pos: len, cur: SpecToken::EOF, peek: SpecToken::EOF };
    assert(advance(s, st) == st2);
    assert(measure(s, st2) < measure(s, st));
    assert(Seq::<SpecStmt>::empty().push(stmt) =~= seq![stmt]);
    assert(p_program_acc(s, st2, seq![stmt]) == Some(seq![stmt]));
    assert(p_program_acc(s, st, Seq::empty()) == Some(seq![stmt]));
    let prog = seq![stmt];
    let fuel = crate::evaluator::MAX_CALL_DEPTH as nat;
    assert(prog[0] == stmt);
    assert(crate::evaluator::eval_expr(SpecExpr::Int(n), fresh_env(), 0, fuel) == (
        Ok::<SpecValue, Seq<char>>(SpecValue::Int(n)),
        fresh_env(),
    ));
    assert(crate::evaluator::eval_stmt(stmt, fresh_env(), 0, fuel) == (
        Ok::<SpecValue, Seq<char>>(SpecValue::Int(n)),
        fresh_env(),
    ));
    assert(eval_block(prog, fresh_env(), 0, crate::evaluator::MAX_CALL_DEPTH as nat) == (
        Ok::<SpecValue, Seq<char>>(SpecValue::Int(n)),
        fresh_env(),
    ));
}

/// The text of a string literal that, written between quotes, is read back whole:
/// the scan for the closing quote stops at the quote that follows it.
pub open spec fn closes_cleanly(t: Seq<char>) -> bool {
    string_end(t.push('"'), 0) == t.len()
}

/// A name made of letters that is not a keyword.
pub open spec fn is_plain_name(x: Seq<char>) -> bool {
    &&& x.len() > 0
    &&& forall|k: int| 0 <= k < x.len() ==> is_letter(#[trigger] x[k])
    &&& word_token(x) == SpecToken::Ident(x)
}

/// Expressions built from non-negative integer literals, boolean literals, string
/// literals whose text closes cleanly, plain names, prefix `!` and `-`, infix
/// operators, calls, and conditionals and function literals whose blocks hold
/// such statements.
pub open spec fn in_fragment(e: SpecExpr) -> bool
    decreases e,
{
    match e {
        SpecExpr::Int(n) => n >= 0,
        SpecExpr::Bool(_) => true,
        SpecExpr::Str(t) => closes_cleanly(t),
        SpecExpr::Ident(x) => is_plain_name(x),
        SpecExpr::Prefix(op, r) => (op is Bang || op is Minus) && in_fragment(*r),
        SpecExpr::Infix(l, op, r) => is_infix_operator(op) && in_fragment(*l) && in_fragment(*r),
        SpecExpr::If(c, cons, alt) => in_fragment(*c) && block_in_fragment(cons)
            && block_in_fragment(alt),
        SpecExpr::Function(ps, body) => (forall|i: int|
            0 <= i < ps.len() ==> is_plain_name(#[trigger] ps[i])) && block_in_fragment(body),
        SpecExpr::Call(f, args) => in_fragment(*f) && forall|i: int|
            0 <= i < args.len() ==> in_fragment(#[trigger] args[i]),
    }
}

/// The innermost callee of a chain of calls; any other expression is its own head.
pub open spec fn head(e: SpecExpr) -> SpecExpr
    decreases e,
{
    match e {
        SpecExpr::Call(f, _) => head(*f),
        _ => e,
    }
}

/// Statements whose expressions are in the fragment, and whose `let` binds a plain
/// name.
pub open spec fn stmt_in_fragment(st: SpecStmt) -> bool
    decreases st,
{
    match st {
        SpecStmt::Let(n, e) => is_plain_name(n) && in_fragment(e),
        SpecStmt::Return(e) => in_fragment(e),
        SpecStmt::Expr(e) => in_fragment(e),
    }
}

/// Blocks and programs whose statements are all in the fragment.
pub open spec fn block_in_fragment(ss: Seq<SpecStmt>) -> bool
    decreases ss,
{
    forall|i: int| 0 <= i < ss.len() ==> stmt_in_fragment(#[trigger] ss[i])
}

/// The parser state whose current token is the one scanned from position `p`.
pub open spec fn state_at(s: Seq<char>, p: int) -> PState {
    let (t1, q1) = lex_step(s, p);
    let (t2, q2) = lex_step(s, q1);
    PState { pos: q2, cur: t1, peek: t2 }
}

/// Position `q` ends a token cleanly: the text ends there, or a space, a
/// parenthesis, a comma or a semicolon follows.
pub open spec fn clean_end(s: Seq<char>, q: int) -> bool {
    q == s.len() || (0 <= q < s.len() && (s[q] == ' ' || s[q] == ')' || s[q] == ';' || s[q]
        == '(' || s[q] == ','))
}

/// Where the last token of the writing of `e` starts, the writing starting at `p`.
pub open spec fn last_start(e: SpecExpr, p: int) -> int {
    match e {
        SpecExpr::Int(_) => p,
        SpecExpr::Bool(_) => p,
        SpecExpr::Str(_) => p,
        SpecExpr::Ident(_) => p,
        _ => p + render_expr(e).len() - 1,
    }
}

/// `s` holds `w` at position `p`.
pub open spec fn holds_at(s: Seq<char>, p: int, w: Seq<char>) -> bool {
    0 <= p && p + w.len() <= s.len() && s.subrange(p, p + w.len()) == w
}

proof fn lemma_holds_index(s: Seq<char>, p: int, w: Seq<char>, k: int)
    requires
        holds_at(s, p, w),
        0 <= k < w.len(),
    ensures
        s[p + k] == w[k],
{
    assert(s.subrange(p, p + w.len())[k] == s[p + k]);
}

proof fn lemma_holds_part(s: Seq<char>, p: int, w: Seq<char>, a: int, b: int)
    requires
        holds_at(s, p, w),
        0 <= a <= b <= w.len(),
    ensures
        holds_at(s, p + a, w.subrange(a, b)),
{
    assert(s.subrange(p + a, p + b) =~= w.subrange(a, b)) by {
        assert forall|k: int| 0 <= k < b - a implies s.subrange(p + a, p + b)[k] == w.subrange(
            a,
            b,
        )[k] by {
            lemma_holds_index(s, p, w, a + k);
        }
    }
}

proof fn lemma_advance_state_at(s: Seq<char>, p: int)
    ensures
        advance(s, state_at(s, p)) == state_at(s, lex_step(s, p).1),
{
}

proof fn lemma_state_at_within(s: Seq<char>, p: int)
    requires
        0 <= p <= s.len(),
    ensures
        within(s, state_at(s, p)),
        0 <= lex_step(s, p).1 <= s.len(),
{
    lemma_lex_step_progress(s, p);
    lemma_lex_step_progress(s, lex_step(s, p).1);
}

proof fn lemma_lex_punct(s: Seq<char>, p: int)
    requires
        0 <= p < s.len(),
        punct_token(s[p]) is Some,
    ensures
        lex_step(s, p) == (punct_token(s[p])->0, p + 1),
{
    reveal(lex_step);
}

proof fn lemma_lex_space(s: Seq<char>, p: int)
    requires
        0 <= p,
        p < s.len(),
        s[p] == ' ',
    ensures
        lex_step(s, p) == lex_step(s, p + 1),
{
    reveal(lex_step);
}

proof fn lemma_lex_operator(s: Seq<char>, p: int, op: SpecToken)
    requires
        is_infix_operator(op),
        holds_at(s, p, operator_text(op)),
        p + operator_text(op).len() < s.len(),
        s[p + operator_text(op).len()] == ' ',
    ensures
        lex_step(s, p) == (op, p + operator_text(op).len()),
{
    reveal(lex_step);
    let w = operator_text(op);
    lemma_holds_index(s, p, w, 0);
    if w.len() == 2 {
        lemma_holds_index(s, p, w, 1);
    }
}

proof fn lemma_digit_run(s: Seq<char>, p: int, q: int)
    requires
        0 <= p <= q <= s.len(),
        forall|k: int| p <= k < q ==> is_digit(#[trigger] s[k]),
        q == s.len() || !is_digit(s[q]),
    ensures
        digits_end(s, p) == q,
    decreases q - p,
{
    if p < q {
        lemma_digit_run(s, p + 1, q);
    }
}

proof fn lemma_letter_run(s: Seq<char>, p: int, q: int)
    requires
        0 <= p <= q <= s.len(),
        forall|k: int| p <= k < q ==> is_letter(#[trigger] s[k]),
        q == s.len() || !is_letter(s[q]),
    ensures
        letters_end(s, p) == q,
    decreases q - p,
{
    if p < q {
        lemma_letter_run(s, p + 1, q);
    }
}

/// Scanning a string's text held in `s` at `q` stops where it stops in the text
/// itself, when that is at its closing quote.
proof fn lemma_string_scan(s: Seq<char>, q: int, w: Seq<char>, i: int)
    requires
        holds_at(s, q, w),
        w.len() >= 1,
        w.last() == '"',
        0 <= i <= w.len() - 1,
        string_end(w, i) == w.len() - 1,
    ensures
        string_end(s, q + i) == q + w.len() - 1,
    decreases w.len() - i,
{
    lemma_holds_index(s, q, w, i);
    if w[i] == '\\' && i + 1 < w.len() && w[i + 1] == '"' {
        lemma_holds_index(s, q, w, i + 1);
        assert(string_end(w, i + 2) == w.len() - 1);
        lemma_string_scan(s, q, w, i + 2);
    } else if w[i] == '"' {
    } else {
        lemma_string_scan(s, q, w, i + 1);
    }
}

proof fn lemma_lex_atom(s: Seq<char>, p: int, e: SpecExpr)
    requires
        in_fragment(e),
        e is Int || e is Bool || e is Str || e is Ident,
        holds_at(s, p, render_expr(e)),
        clean_end(s, p + render_expr(e).len()),
        !(lex_step(s, p + render_expr(e).len()).0 is Else),
    ensures
        lex_step(s, p) == (match e {
            SpecExpr::Int(n) => SpecToken::Int(n),
            SpecExpr::Bool(b) => SpecToken::Bool(b),
            SpecExpr::Str(t) => SpecToken::Str(t),
            SpecExpr::Ident(x) => SpecToken::Ident(x),
            _ => SpecToken::EOF,
        }, p + render_expr(e).len()),
{
    reveal(lex_step);
    let w = render_expr(e);
    let q = p + w.len();
    match e {
        SpecExpr::Int(n) => {
            lemma_nat_decimal_digits(n as nat);
            assert(w == nat_decimal(n as nat));
            assert forall|k: int| p <= k < q implies is_digit(#[trigger] s[k]) by {
                lemma_holds_index(s, p, w, k - p);
            }
            lemma_holds_index(s, p, w, 0);
            lemma_digit_run(s, p, q);
            assert(s.subrange(p, q) == w);
            assert(skip_spaces(s, p) == p);
        },
        SpecExpr::Ident(x) => {
            assert(w == x);
            assert forall|k: int| p <= k < q implies is_letter(#[trigger] s[k]) by {
                lemma_holds_index(s, p, w, k - p);
            }
            lemma_holds_index(s, p, w, 0);
            lemma_letter_run(s, p, q);
            assert(s.subrange(p, q) == w);
            assert(skip_spaces(s, p) == p);
        },
        SpecExpr::Str(t) => {
            let v = t.push('"');
            assert(w =~= seq!['"'] + v);
            lemma_holds_part(s, p, w, 1, w.len() as int);
            assert(w.subrange(1, w.len() as int) =~= v);
            lemma_holds_index(s, p, w, 0);
            lemma_string_scan(s, p + 1, v, 0);
            lemma_holds_part(s, p, w, 1, w.len() - 1);
            assert(w.subrange(1, w.len() - 1) =~= t);
            assert(skip_spaces(s, p) == p);
        },
        SpecExpr::Bool(b) => {
            assert(w == crate::ast::bool_text(b));
            assert forall|k: int| p <= k < q implies is_letter(#[trigger] s[k]) by {
                lemma_holds_index(s, p, w, k - p);
            }
            lemma_holds_index(s, p, w, 0);
            lemma_letter_run(s, p, q);
            assert(s.subrange(p, q) == w);
            assert(skip_spaces(s, p) == p);
            assert(word_token(w) == SpecToken::Bool(b));
        },
        _ => {},
    }
}

proof fn lemma_first_char(e: SpecExpr)
    requires
        in_fragment(e),
    ensures
        render_expr(e).len() > 0,
        !is_space(render_expr(e)[0]),
        render_expr(e)[0] != '=',
    decreases e,
{
    match e {
        SpecExpr::Int(n) => {
            lemma_nat_decimal_digits(n as nat);
            assert(render_expr(e) == nat_decimal(n as nat));
        },
        SpecExpr::Ident(x) => {
            assert(is_letter(x[0]));
        },
        SpecExpr::Bool(b) => {
            assert(is_letter(crate::ast::bool_text(b)[0]));
        },
        SpecExpr::Call(f, args) => {
            lemma_first_char(*f);
        },
        _ => {},
    }
}

proof fn lemma_lex_bang(s: Seq<char>, p: int)
    requires
        0 <= p,
        p + 1 < s.len(),
        s[p] == '!',
        s[p + 1] != '=',
    ensures
        lex_step(s, p) == (SpecToken::Bang, p + 1),
{
    reveal(lex_step);
}

proof fn lemma_lex_end(s: Seq<char>)
    ensures
        lex_step(s, s.len() as int) == (SpecToken::EOF, s.len() as int),
{
    reveal(lex_step);
}

/// The writing of `e` at `p`, with a closing parenthesis after it, parses back to
/// `e` at any precedence.
proof fn lemma_fragment_operand(s: Seq<char>, p: int, e: SpecExpr, prec: Precedence)
    requires
        in_fragment(e),
        holds_at(s, p, render_expr(e)),
        p + render_expr(e).len() < s.len(),
        s[p + render_expr(e).len()] == ')' || s[p + render_expr(e).len()] == ',',
        rank(prec) < 6,
    ensures
        p_expr(s, state_at(s, p), prec) == Some((e, state_at(s, last_start(e, p)))),
        lex_step(s, last_start(e, p)).1 == p + render_expr(e).len(),
        measure(s, state_at(s, last_start(e, p))) <= measure(s, state_at(s, p)),
        !(state_at(s, last_start(e, p)).cur is EOF),
        !(state_at(s, p).cur is RParen),
    decreases e, 3nat,
{
    let q = p + render_expr(e).len();
    lemma_lex_punct(s, q);
    lemma_fragment_prefix(s, p, e);
    lemma_fragment_spine(s, p, e, prec);
    let st1 = state_at(s, last_start(e, p));
    assert(st1.peek == SpecToken::RParen || st1.peek == SpecToken::Comma);
    assert(p_infix_loop(s, st1, prec, e) == Some((e, st1)));
}

/// The writing of `e` at `p`, cleanly ended, gives the head of `e` as the prefix
/// expression that starts there, ending on the head's last token.
proof fn lemma_fragment_prefix(s: Seq<char>, p: int, e: SpecExpr)
    requires
        in_fragment(e),
        holds_at(s, p, render_expr(e)),
        clean_end(s, p + render_expr(e).len()),
        !(lex_step(s, p + render_expr(e).len()).0 is Else),
    ensures
        p_prefix(s, state_at(s, p)) == Some((head(e), state_at(s, last_start(head(e), p)))),
        lex_step(s, last_start(head(e), p)).1 == p + render_expr(head(e)).len(),
        measure(s, state_at(s, last_start(head(e), p))) <= measure(s, state_at(s, p)),
        !(state_at(s, last_start(head(e), p)).cur is EOF),
        !(state_at(s, p).cur is Let) && !(state_at(s, p).cur is Return) && !(state_at(
            s,
            p,
        ).cur is EOF),
        !(state_at(s, p).cur is RBrace),
        in_fragment(head(e)),
    decreases e, 1nat,
{
    lemma_first_char(e);
    match e {
        SpecExpr::Int(n) => {
            lemma_lex_atom(s, p, e);
        },
        SpecExpr::Ident(x) => {
            lemma_lex_atom(s, p, e);
        },
        SpecExpr::Bool(_) => {
            lemma_lex_atom(s, p, e);
        },
        SpecExpr::Str(_) => {
            lemma_lex_atom(s, p, e);
        },
        SpecExpr::Prefix(_, _) => {
            lemma_fragment_prefix_operation(s, p, e);
        },
        SpecExpr::Infix(_, _, _) => {
            lemma_fragment_infix_operation(s, p, e);
        },
        SpecExpr::If(_, _, _) => {
            lemma_fragment_if(s, p, e);
        },
        SpecExpr::Function(_, _) => {
            lemma_fragment_function(s, p, e);
        },
        SpecExpr::Call(f, args) => {
            let fw = render_expr(*f);
            assert(render_expr(e) == fw + seq!['('] + render_args(args) + seq![')']);
            lemma_holds_part(s, p, render_expr(e), 0, fw.len() as int);
            assert(render_expr(e).subrange(0, fw.len() as int) =~= fw);
            lemma_holds_index(s, p, render_expr(e), fw.len() as int);
            lemma_lex_punct(s, p + fw.len());
            lemma_fragment_prefix(s, p, *f);
        },
    }
}

#[verifier::rlimit(50)]
proof fn lemma_fragment_prefix_operation(s: Seq<char>, p: int, e: SpecExpr)
    requires
        in_fragment(e),
        holds_at(s, p, render_expr(e)),
        clean_end(s, p + render_expr(e).len()),
        !(lex_step(s, p + render_expr(e).len()).0 is Else),
        e is Prefix,
    ensures
        p_prefix(s, state_at(s, p)) == Some((e, state_at(s, last_start(e, p)))),
        lex_step(s, last_start(e, p)).1 == p + render_expr(e).len(),
        measure(s, state_at(s, last_start(e, p))) <= measure(s, state_at(s, p)),
        !(state_at(s, last_start(e, p)).cur is EOF),
        !(state_at(s, p).cur is Let) && !(state_at(s, p).cur is Return) && !(state_at(
            s,
            p,
        ).cur is EOF),
        !(state_at(s, p).cur is RBrace),
    decreases e, 0nat,
{
    let w = render_expr(e);
    let len = w.len() as int;
    let op = e->Prefix_0;
    let r = e->Prefix_1;
    let rw = render_expr(*r);
    let a = p + 1;
    let b = p + 2;
    let g = b + rw.len();
    assert(w == seq!['('] + operator_text(op) + rw + seq![')']);
    assert(operator_text(op).len() == 1);
    assert(len == rw.len() + 3);
    lemma_holds_index(s, p, w, 0);
    lemma_holds_index(s, p, w, 1);
    lemma_holds_index(s, p, w, len - 1);
    lemma_holds_part(s, p, w, 2, 2 + rw.len() as int);
    assert(w.subrange(2, 2 + rw.len() as int) =~= rw);
    lemma_first_char(*r);
    lemma_holds_index(s, b, rw, 0);
    lemma_fragment_operand(s, b, *r, Precedence::Prefix);
    let lr = last_start(*r, b);
    lemma_lex_punct(s, p);
    if op is Bang {
        lemma_lex_bang(s, a);
    } else {
        lemma_lex_punct(s, a);
    }
    assert(state_at(s, a).cur == op);
    lemma_lex_punct(s, g);
    lemma_state_at_within(s, p);
    lemma_state_at_within(s, a);
    lemma_state_at_within(s, lr);
    lemma_advance_state_at(s, p);
    lemma_advance_state_at(s, a);
    lemma_advance_state_at(s, lr);
    lemma_advance_measure(s, state_at(s, p));
    lemma_advance_measure(s, state_at(s, a));
    lemma_advance_measure(s, state_at(s, lr));
    assert(p_prefix_op(s, state_at(s, a)) == Some((e, state_at(s, lr))));
    assert(p_prefix(s, state_at(s, a)) == Some((e, state_at(s, lr))));
    assert(state_at(s, lr).peek == SpecToken::RParen);
    assert(p_infix_loop(s, state_at(s, lr), Precedence::Lowest, e) == Some(
        (e, state_at(s, lr)),
    ));
    assert(p_expr(s, state_at(s, a), Precedence::Lowest) == Some((e, state_at(s, lr))));
    assert(p_grouped(s, state_at(s, p)) == Some((e, state_at(s, g))));
}

#[verifier::rlimit(100)]
proof fn lemma_fragment_infix_operation(s: Seq<char>, p: int, e: SpecExpr)
    requires
        in_fragment(e),
        holds_at(s, p, render_expr(e)),
        clean_end(s, p + render_expr(e).len()),
        !(lex_step(s, p + render_expr(e).len()).0 is Else),
        e is Infix,
    ensures
        p_prefix(s, state_at(s, p)) == Some((e, state_at(s, last_start(e, p)))),
        lex_step(s, last_start(e, p)).1 == p + render_expr(e).len(),
        measure(s, state_at(s, last_start(e, p))) <= measure(s, state_at(s, p)),
        !(state_at(s, last_start(e, p)).cur is EOF),
        !(state_at(s, p).cur is Let) && !(state_at(s, p).cur is Return) && !(state_at(
            s,
            p,
        ).cur is EOF),
        !(state_at(s, p).cur is RBrace),
    decreases e, 0nat,
{
    let w = render_expr(e);
    let len = w.len() as int;
    let l = e->Infix_0;
    let op = e->Infix_1;
    let r = e->Infix_2;
    let lw = render_expr(*l);
    let ot = operator_text(op);
    let rw = render_expr(*r);
    let a = p + 1;
    let b = a + lw.len();
    let c = b + 1;
    let d = c + ot.len();
    let f = d + 1;
    let g = f + rw.len();
    assert(w == seq!['('] + lw + seq![' '] + ot + seq![' '] + rw + seq![')']);
    assert(ot.len() == 1 || ot.len() == 2);
    assert(len == g + 1 - p);
    lemma_holds_index(s, p, w, 0);
    lemma_holds_index(s, p, w, b - p);
    lemma_holds_index(s, p, w, d - p);
    lemma_holds_index(s, p, w, len - 1);
    lemma_holds_part(s, p, w, 1, 1 + lw.len() as int);
    assert(w.subrange(1, 1 + lw.len() as int) =~= lw);
    lemma_holds_part(s, p, w, c - p, d - p);
    assert(w.subrange(c - p, d - p) =~= ot);
    lemma_holds_part(s, p, w, f - p, g - p);
    assert(w.subrange(f - p, g - p) =~= rw);
    lemma_holds_index(s, c, ot, 0);
    lemma_first_char(*r);
    lemma_holds_index(s, f, rw, 0);
    lemma_lex_punct(s, p);
    lemma_lex_space(s, b);
    lemma_lex_operator(s, c, op);
    lemma_lex_space(s, d);
    lemma_lex_punct(s, g);
    lemma_fragment_prefix(s, a, *l);
    lemma_fragment_spine(s, a, *l, Precedence::Lowest);
    let ll = last_start(*l, a);
    let hl = last_start(head(*l), a);
    lemma_fragment_operand(s, f, *r, token_precedence(op));
    let rl = last_start(*r, f);
    assert(state_at(s, d) == state_at(s, f));
    lemma_state_at_within(s, p);
    lemma_state_at_within(s, ll);
    lemma_state_at_within(s, b);
    lemma_state_at_within(s, rl);
    lemma_advance_state_at(s, p);
    lemma_advance_state_at(s, ll);
    lemma_advance_state_at(s, b);
    lemma_advance_state_at(s, rl);
    lemma_advance_measure(s, state_at(s, p));
    lemma_advance_measure(s, state_at(s, ll));
    lemma_advance_measure(s, state_at(s, b));
    lemma_advance_measure(s, state_at(s, rl));
    assert(state_at(s, b).cur == op);
    assert(rank(token_precedence(op)) > 0);
    assert(p_infix(s, state_at(s, b), *l) == Some((e, state_at(s, rl))));
    assert(state_at(s, rl).peek == SpecToken::RParen);
    assert(p_infix_loop(s, state_at(s, rl), Precedence::Lowest, e) == Some(
        (e, state_at(s, rl)),
    ));
    assert(state_at(s, ll).peek == op);
    assert(p_infix_loop(s, state_at(s, ll), Precedence::Lowest, *l) == Some(
        (e, state_at(s, rl)),
    ));
    assert(p_infix_loop(s, state_at(s, hl), Precedence::Lowest, head(*l)) == Some(
        (e, state_at(s, rl)),
    ));
    assert(p_expr(s, state_at(s, a), Precedence::Lowest) == Some((e, state_at(s, rl))));
    assert(p_grouped(s, state_at(s, p)) == Some((e, state_at(s, g))));
}

/// Evaluating a name that nothing binds, alone in a fresh environment, gives the
/// error value `identifier not found: <name>`.
pub proof fn lemma_unbound_name_reports_error(x: Seq<char>)
    requires
        is_plain_name(x),
    ensures
        parse_text(x) == Some(seq![SpecStmt::Expr(SpecExpr::Ident(x))]),
        run_program(seq![SpecStmt::Expr(SpecExpr::Ident(x))], fresh_env()).0 == SpecValue::Error(
            crate::evaluator::not_found_message(x),
        ),
{
    let e = SpecExpr::Ident(x);
    let prog = seq![SpecStmt::Expr(e)];
    assert(stmt_in_fragment(prog[0]));
    lemma_program_round_trip(prog);
    assert(render_stmts(prog) == render_stmt(prog[0]));
    assert(render_stmts(prog) =~= x);
    let env = fresh_env();
    assert(crate::environment::find_binding(env.bindings, 0, x) is None);
    assert(crate::environment::lookup(env, 0, x) is None);
    let fuel = crate::evaluator::MAX_CALL_DEPTH as nat;
    let msg = crate::evaluator::not_found_message(x);
    assert(crate::evaluator::eval_expr(e, env, 0, fuel) == (Err::<SpecValue, Seq<char>>(msg), env));
    assert(crate::evaluator::eval_stmt(SpecStmt::Expr(e), env, 0, fuel) == (
        Err::<SpecValue, Seq<char>>(msg),
        env,
    ));
    assert(prog[0] == SpecStmt::Expr(e));
    assert(eval_block(prog, env, 0, fuel) == (Err::<SpecValue, Seq<char>>(msg), env));
}

proof fn lemma_lex_word(s: Seq<char>, p: int, w: Seq<char>)
    requires
        holds_at(s, p, w),
        w.len() > 0,
        forall|k: int| 0 <= k < w.len() ==> is_letter(#[trigger] w[k]),
        p + w.len() < s.len(),
        !is_letter(s[p + w.len()]),
    ensures
        lex_step(s, p) == (word_token(w), p + w.len()),
{
    reveal(lex_step);
    let q = p + w.len();
    assert forall|k: int| p <= k < q implies is_letter(#[trigger] s[k]) by {
        lemma_holds_index(s, p, w, k - p);
    }
    lemma_holds_index(s, p, w, 0);
    lemma_letter_run(s, p, q);
    assert(s.subrange(p, q) == w);
    assert(skip_spaces(s, p) == p);
}

proof fn lemma_lex_assign(s: Seq<char>, p: int)
    requires
        0 <= p,
        p + 1 < s.len(),
        s[p] == '=',
        s[p + 1] != '=',
    ensures
        lex_step(s, p) == (SpecToken::Assign, p + 1),
{
    reveal(lex_step);
}

/// What may follow a statement: the end of the text, `"; "` before the next
/// statement, or `" }"` closing a block.
pub open spec fn stmt_follow(s: Seq<char>, q: int) -> bool {
    q == s.len() || (0 <= q && q + 2 <= s.len() && ((s[q] == ';' && s[q + 1] == ' ') || (s[q]
        == ' ' && s[q + 1] == '}')))
}

proof fn lemma_lex_follow(s: Seq<char>, q: int)
    requires
        0 <= q,
        stmt_follow(s, q),
    ensures
        q == s.len() ==> lex_step(s, q) == (SpecToken::EOF, q),
        q < s.len() && s[q] == ';' ==> lex_step(s, q) == (SpecToken::Semicolon, q + 1),
        q < s.len() && s[q] == ' ' ==> lex_step(s, q) == (SpecToken::RBrace, q + 2),
        !(lex_step(s, q).0 is Else),
        token_precedence(lex_step(s, q).0) == Precedence::Lowest,
{
    if q == s.len() {
        lemma_lex_end(s);
    } else if s[q] == ';' {
        lemma_lex_punct(s, q);
    } else {
        lemma_lex_space(s, q);
        lemma_lex_punct(s, q + 1);
    }
}

/// The writing of `e` at `p`, followed by what may follow a statement, parses back
/// to `e` as the expression of a statement.
proof fn lemma_fragment_statement_expr(s: Seq<char>, p: int, e: SpecExpr)
    requires
        in_fragment(e),
        holds_at(s, p, render_expr(e)),
        stmt_follow(s, p + render_expr(e).len()),
    ensures
        p_expr(s, state_at(s, p), Precedence::Lowest) == Some((e, state_at(s, last_start(e, p)))),
        lex_step(s, last_start(e, p)).1 == p + render_expr(e).len(),
        measure(s, state_at(s, last_start(e, p))) <= measure(s, state_at(s, p)),
        !(state_at(s, last_start(e, p)).cur is EOF),
        !(state_at(s, p).cur is EOF),
        !(state_at(s, p).cur is Let) && !(state_at(s, p).cur is Return),
        !(state_at(s, p).cur is RBrace),
    decreases e, 3nat,
{
    let q = p + render_expr(e).len();
    lemma_lex_follow(s, q);
    lemma_fragment_prefix(s, p, e);
    lemma_fragment_spine(s, p, e, Precedence::Lowest);
    let st1 = state_at(s, last_start(e, p));
    assert(p_infix_loop(s, st1, Precedence::Lowest, e) == Some((e, st1)));
}

/// Where parsing stands after a statement whose writing ends at `q`: on the
/// semicolon that follows it, or else on its last token.
pub open spec fn after_stmt(s: Seq<char>, q: int, last: int) -> PState {
    if q < s.len() && s[q] == ';' {
        state_at(s, q)
    } else {
        state_at(s, last)
    }
}

/// The writing of a statement at `p`, followed by what may follow a statement,
/// parses back to the statement.
proof fn lemma_fragment_statement(s: Seq<char>, p: int, st: SpecStmt) -> (last: int)
    requires
        stmt_in_fragment(st),
        holds_at(s, p, render_stmt(st)),
        stmt_follow(s, p + render_stmt(st).len()),
    ensures
        p_stmt(s, state_at(s, p)) == Some((st, after_stmt(s, p + render_stmt(st).len(), last))),
        lex_step(s, last).1 == p + render_stmt(st).len(),
        0 <= last < p + render_stmt(st).len(),
        measure(s, after_stmt(s, p + render_stmt(st).len(), last)) <= measure(s, state_at(s, p)),
        !(after_stmt(s, p + render_stmt(st).len(), last).cur is EOF),
        !(state_at(s, p).cur is EOF),
        !(state_at(s, p).cur is RBrace),
    decreases st, 1nat,
{
    match st {
        SpecStmt::Let(_, _) => lemma_let_statement(s, p, st),
        SpecStmt::Return(_) => lemma_return_statement(s, p, st),
        SpecStmt::Expr(_) => lemma_expression_statement(s, p, st),
    }
}

#[verifier::spinoff_prover]
#[verifier::rlimit(100)]
proof fn lemma_expression_statement(s: Seq<char>, p: int, st: SpecStmt) -> (last: int)
    requires
        stmt_in_fragment(st),
        st is Expr,
        holds_at(s, p, render_stmt(st)),
        stmt_follow(s, p + render_stmt(st).len()),
    ensures
        p_stmt(s, state_at(s, p)) == Some((st, after_stmt(s, p + render_stmt(st).len(), last))),
        lex_step(s, last).1 == p + render_stmt(st).len(),
        0 <= last < p + render_stmt(st).len(),
        measure(s, after_stmt(s, p + render_stmt(st).len(), last)) <= measure(s, state_at(s, p)),
        !(after_stmt(s, p + render_stmt(st).len(), last).cur is EOF),
        !(state_at(s, p).cur is EOF),
        !(state_at(s, p).cur is RBrace),
    decreases st, 0nat,
{
    let e = st->Expr_0;
    let w = render_stmt(st);
    let q = p + w.len();
    assert(w == render_expr(e));
    lemma_fragment_statement_expr(s, p, e);
    let last = last_start(e, p);
    lemma_state_at_within(s, last);
    lemma_advance_state_at(s, last);
    lemma_advance_measure(s, state_at(s, last));
    lemma_lex_follow(s, q);
    assert(skip_semicolon(s, state_at(s, last)) == after_stmt(s, q, last));
    assert(p_expr_stmt(s, state_at(s, p)) == Some((st, after_stmt(s, q, last))));
    last
}

#[verifier::rlimit(60)]
proof fn lemma_let_statement(s: Seq<char>, p: int, st: SpecStmt) -> (last: int)
    requires
        stmt_in_fragment(st),
        st is Let,
        holds_at(s, p, render_stmt(st)),
        stmt_follow(s, p + render_stmt(st).len()),
    ensures
        p_stmt(s, state_at(s, p)) == Some((st, after_stmt(s, p + render_stmt(st).len(), last))),
        lex_step(s, last).1 == p + render_stmt(st).len(),
        0 <= last < p + render_stmt(st).len(),
        measure(s, after_stmt(s, p + render_stmt(st).len(), last)) <= measure(s, state_at(s, p)),
        !(after_stmt(s, p + render_stmt(st).len(), last).cur is EOF),
        !(state_at(s, p).cur is EOF),
        !(state_at(s, p).cur is RBrace),
    decreases st, 0nat,
{
    let w = render_stmt(st);
    let q = p + w.len();
    let n = st->Let_0;
    let e = st->Let_1;
    let ew = render_expr(e);
    let a = p + 4 + n.len();
    let f = a + 3;
    assert(w == seq!['l', 'e', 't', ' '] + n + seq![' ', '=', ' '] + ew);
    lemma_holds_part(s, p, w, 0, 3);
    assert(w.subrange(0, 3) =~= seq!['l', 'e', 't']);
    lemma_holds_index(s, p, w, 3);
    lemma_holds_part(s, p, w, 4, 4 + n.len() as int);
    assert(w.subrange(4, 4 + n.len() as int) =~= n);
    lemma_holds_index(s, p, w, a - p);
    lemma_holds_index(s, p, w, a + 1 - p);
    lemma_holds_index(s, p, w, a + 2 - p);
    lemma_holds_part(s, p, w, f - p, w.len() as int);
    assert(w.subrange(f - p, w.len() as int) =~= ew);
    lemma_first_char(e);
    lemma_holds_index(s, f, ew, 0);
    assert(is_letter(n[0]));
    lemma_lex_word(s, p, seq!['l', 'e', 't']);
    assert(word_token(seq!['l', 'e', 't']) == SpecToken::Let);
    lemma_lex_space(s, p + 3);
    lemma_lex_word(s, p + 4, n);
    lemma_lex_space(s, a);
    lemma_lex_assign(s, a + 1);
    lemma_lex_space(s, a + 2);
    lemma_fragment_statement_expr(s, f, e);
    let last = last_start(e, f);
    lemma_state_at_within(s, p);
    lemma_state_at_within(s, p + 3);
    lemma_state_at_within(s, a);
    lemma_state_at_within(s, last);
    lemma_advance_state_at(s, p);
    lemma_advance_state_at(s, p + 3);
    lemma_advance_state_at(s, a);
    lemma_advance_state_at(s, last);
    lemma_advance_measure(s, state_at(s, p));
    lemma_advance_measure(s, state_at(s, p + 3));
    lemma_advance_measure(s, state_at(s, a));
    lemma_advance_measure(s, state_at(s, last));
    assert(state_at(s, a + 2) == state_at(s, f));
    lemma_lex_follow(s, q);
    assert(skip_semicolon(s, state_at(s, last)) == after_stmt(s, q, last));
    assert(crate::parser::p_let(s, state_at(s, p)) == Some((st, after_stmt(s, q, last))));
    last
}

#[verifier::rlimit(60)]
proof fn lemma_return_statement(s: Seq<char>, p: int, st: SpecStmt) -> (last: int)
    requires
        stmt_in_fragment(st),
        st is Return,
        holds_at(s, p, render_stmt(st)),
        stmt_follow(s, p + render_stmt(st).len()),
    ensures
        p_stmt(s, state_at(s, p)) == Some((st, after_stmt(s, p + render_stmt(st).len(), last))),
        lex_step(s, last).1 == p + render_stmt(st).len(),
        0 <= last < p + render_stmt(st).len(),
        measure(s, after_stmt(s, p + render_stmt(st).len(), last)) <= measure(s, state_at(s, p)),
        !(after_stmt(s, p + render_stmt(st).len(), last).cur is EOF),
        !(state_at(s, p).cur is EOF),
        !(state_at(s, p).cur is RBrace),
    decreases st, 0nat,
{
    let w = render_stmt(st);
    let q = p + w.len();
    let e = st->Return_0;
    let ew = render_expr(e);
    let f = p + 7;
    let kw = seq!['r', 'e', 't', 'u', 'r', 'n'];
    assert(w == seq!['r', 'e', 't', 'u', 'r', 'n', ' '] + ew);
    lemma_holds_part(s, p, w, 0, 6);
    assert(w.subrange(0, 6) =~= kw);
    lemma_holds_index(s, p, w, 6);
    lemma_holds_part(s, p, w, 7, w.len() as int);
    assert(w.subrange(7, w.len() as int) =~= ew);
    lemma_first_char(e);
    lemma_holds_index(s, f, ew, 0);
    lemma_lex_word(s, p, kw);
    assert(word_token(kw) == SpecToken::Return);
    lemma_lex_space(s, p + 6);
    lemma_fragment_statement_expr(s, f, e);
    let last = last_start(e, f);
    lemma_state_at_within(s, p);
    lemma_state_at_within(s, last);
    lemma_advance_state_at(s, p);
    lemma_advance_state_at(s, last);
    lemma_advance_measure(s, state_at(s, p));
    lemma_advance_measure(s, state_at(s, last));
    assert(state_at(s, p + 6) == state_at(s, f));
    lemma_lex_follow(s, q);
    assert(skip_semicolon(s, state_at(s, last)) == after_stmt(s, q, last));
    assert(crate::parser::p_return(s, state_at(s, p)) == Some(
        (st, after_stmt(s, q, last)),
    ));
    last
}

/// Where the writing of statement `k` of `ss` starts; for `k` at the end, the end
/// of the writing.
pub open spec fn stmt_start(ss: Seq<SpecStmt>, k: int) -> int {
    if k == 0 {
        0
    } else if k == ss.len() {
        render_stmts(ss).len() as int
    } else {
        render_stmts(ss.subrange(0, k)).len() + 2int
    }
}

proof fn lemma_render_step(ss: Seq<SpecStmt>, k: int)
    requires
        0 <= k < ss.len(),
    ensures
        k == 0 ==> render_stmts(ss.subrange(0, 1)) == render_stmt(ss[0]),
        k > 0 ==> render_stmts(ss.subrange(0, k + 1)) == render_stmts(ss.subrange(0, k)) + seq![
            ';',
            ' ',
        ] + render_stmt(ss[k]),
{
    let sub = ss.subrange(0, k + 1);
    assert(sub.drop_last() =~= ss.subrange(0, k));
    assert(sub.last() == ss[k]);
    assert(sub[0] == ss[0]);
}

proof fn lemma_render_prefix(ss: Seq<SpecStmt>, k: int)
    requires
        1 <= k <= ss.len(),
    ensures
        holds_at(render_stmts(ss), 0, render_stmts(ss.subrange(0, k))),
    decreases ss.len() - k,
{
    let s = render_stmts(ss);
    if k == ss.len() {
        assert(ss.subrange(0, k) =~= ss);
        assert(s.subrange(0, s.len() as int) =~= s);
    } else {
        lemma_render_prefix(ss, k + 1);
        lemma_render_step(ss, k);
        let big = render_stmts(ss.subrange(0, k + 1));
        let small = render_stmts(ss.subrange(0, k));
        lemma_holds_part(s, 0, big, 0, small.len() as int);
        assert(big.subrange(0, small.len() as int) =~= small);
    }
}

proof fn lemma_stmt_first_char(st: SpecStmt)
    requires
        stmt_in_fragment(st),
    ensures
        render_stmt(st).len() > 0,
        !is_space(render_stmt(st)[0]),
{
    match st {
        SpecStmt::Let(n, e) => {},
        SpecStmt::Return(e) => {},
        SpecStmt::Expr(e) => {
            lemma_first_char(e);
        },
    }
}

/// The writing of statement `k` of `ss` stands at its start, followed by `"; "`
/// or by the end of the writing.
proof fn lemma_stmt_placed(ss: Seq<SpecStmt>, k: int)
    requires
        0 <= k < ss.len(),
    ensures
        holds_at(render_stmts(ss), stmt_start(ss, k), render_stmt(ss[k])),
        k + 1 == ss.len() ==> stmt_start(ss, k) + render_stmt(ss[k]).len() == render_stmts(
            ss,
        ).len(),
        k + 1 < ss.len() ==> stmt_start(ss, k) + render_stmt(ss[k]).len() + 2 == stmt_start(
            ss,
            k + 1,
        ) && stmt_start(ss, k + 1) <= render_stmts(ss).len() && render_stmts(ss)[stmt_start(
            ss,
            k,
        ) + render_stmt(ss[k]).len()] == ';' && render_stmts(ss)[stmt_start(ss, k)
            + render_stmt(ss[k]).len() + 1] == ' ',
{
    let s = render_stmts(ss);
    let n = ss.len() as int;
    lemma_render_step(ss, k);
    lemma_render_prefix(ss, k + 1);
    let big = render_stmts(ss.subrange(0, k + 1));
    let w = render_stmt(ss[k]);
    let st = stmt_start(ss, k);
    assert(big.len() == st + w.len());
    lemma_holds_part(s, 0, big, st, big.len() as int);
    assert(big.subrange(st, big.len() as int) =~= w);
    if k + 1 == n {
        assert(ss.subrange(0, n) =~= ss);
    } else {
        lemma_render_step(ss, k + 1);
        lemma_render_prefix(ss, k + 2);
        let next = render_stmts(ss.subrange(0, k + 2));
        lemma_holds_index(s, 0, next, big.len() as int);
        lemma_holds_index(s, 0, next, big.len() + 1int);
    }
}

proof fn lemma_program_from(ss: Seq<SpecStmt>, k: int)
    requires
        forall|i: int| 0 <= i < ss.len() ==> stmt_in_fragment(#[trigger] ss[i]),
        0 <= k <= ss.len(),
    ensures
        p_program_acc(
            render_stmts(ss),
            state_at(render_stmts(ss), stmt_start(ss, k)),
            ss.subrange(0, k),
        ) == Some(ss),
    decreases ss.len() - k,
{
    let s = render_stmts(ss);
    let n = ss.len() as int;
    if k == n {
        lemma_lex_end(s);
        if n == 0 {
            assert(s == Seq::<char>::empty());
        }
        assert(stmt_start(ss, k) == s.len());
        assert(ss.subrange(0, k) =~= ss);
    } else {
        lemma_stmt_placed(ss, k);
        let p = stmt_start(ss, k);
        let w = render_stmt(ss[k]);
        let q = p + w.len();
        let last = lemma_fragment_statement(s, p, ss[k]);
        let after = after_stmt(s, q, last);
        lemma_state_at_within(s, p);
        if k + 1 < n {
            lemma_stmt_first_char(ss[k + 1]);
            lemma_stmt_placed(ss, k + 1);
            lemma_holds_index(s, q + 2, render_stmt(ss[k + 1]), 0);
            lemma_lex_punct(s, q);
            lemma_lex_space(s, q + 1);
            lemma_state_at_within(s, q);
            lemma_advance_state_at(s, q);
            assert(advance(s, after) == state_at(s, stmt_start(ss, k + 1)));
        } else {
            lemma_lex_step_progress(s, last);
            lemma_state_at_within(s, last);
            lemma_advance_state_at(s, last);
            assert(advance(s, after) == state_at(s, stmt_start(ss, k + 1)));
        }
        lemma_advance_measure(s, after);
        lemma_program_from(ss, k + 1);
        assert(ss.subrange(0, k).push(ss[k]) =~= ss.subrange(0, k + 1));
    }
}

/// Re-parsing the writing of a program gives the same program back, so it
/// evaluates to the same result. This holds for every program whose integer
/// literals are non-negative, whose names are plain names and whose string texts
/// close cleanly, which is what parsing produces.
pub proof fn lemma_program_round_trip(ss: Seq<SpecStmt>)
    requires
        forall|i: int| 0 <= i < ss.len() ==> stmt_in_fragment(#[trigger] ss[i]),
    ensures
        parse_text(render_stmts(ss)) == Some(ss),
        run_program(parse_text(render_stmts(ss))->0, fresh_env()) == run_program(ss, fresh_env()),
{
    let s = render_stmts(ss);
    lemma_program_from(ss, 0);
    assert(initial_state(s, 0) == state_at(s, 0));
    assert(ss.subrange(0, 0) =~= Seq::<SpecStmt>::empty());
}

proof fn lemma_holds_compose(s: Seq<char>, a: int, x: Seq<char>, b: int, y: Seq<char>)
    requires
        holds_at(s, a, x),
        holds_at(x, b, y),
    ensures
        holds_at(s, a + b, y),
{
    assert(s.subrange(a + b, a + b + y.len()) =~= y) by {
        assert forall|k: int| 0 <= k < y.len() implies s.subrange(a + b, a + b + y.len())[k]
            == y[k] by {
            lemma_holds_index(x, b, y, k);
            lemma_holds_index(s, a, x, b + k);
        }
    }
}

/// The statements of a block written at `p`, from statement `k` on, parse back,
/// ending on the closing brace.
#[verifier::rlimit(100)]
proof fn lemma_block_from(s: Seq<char>, p: int, ss: Seq<SpecStmt>, k: int)
    requires
        block_in_fragment(ss),
        holds_at(s, p, crate::ast::render_block(ss)),
        0 <= k <= ss.len(),
    ensures
        crate::parser::p_block_acc(
            s,
            state_at(s, p + 2 + stmt_start(ss, k)),
            ss.subrange(0, k),
        ) == Some((ss, state_at(s, p + crate::ast::render_block(ss).len() - 1))),
        measure(s, state_at(s, p + crate::ast::render_block(ss).len() - 1)) <= measure(
            s,
            state_at(s, p + 2 + stmt_start(ss, k)),
        ),
    decreases ss, (ss.len() - k) as nat,
{
    let w = crate::ast::render_block(ss);
    let x = render_stmts(ss);
    let n = ss.len() as int;
    assert(w == seq!['{', ' '] + x + seq![' ', '}']);
    lemma_holds_part(s, p, w, 2, 2 + x.len() as int);
    assert(w.subrange(2, 2 + x.len() as int) =~= x);
    lemma_holds_index(s, p, w, 2 + x.len() as int);
    lemma_holds_index(s, p, w, 3 + x.len() as int);
    let bs = p + 2 + stmt_start(ss, k);
    let close = p + w.len() - 1;
    if k == n {
        if n == 0 {
            assert(x == Seq::<char>::empty());
        }
        assert(bs == p + 2 + x.len());
        lemma_lex_space(s, bs);
        lemma_lex_punct(s, bs + 1);
        assert(state_at(s, bs) == state_at(s, close));
        assert(ss.subrange(0, k) =~= ss);
    } else {
        lemma_stmt_placed(ss, k);
        let r = render_stmt(ss[k]);
        lemma_holds_compose(s, p + 2, x, stmt_start(ss, k), r);
        let q = bs + r.len();
        if k + 1 < n {
            lemma_holds_index(s, p + 2, x, stmt_start(ss, k) + r.len());
            lemma_holds_index(s, p + 2, x, stmt_start(ss, k) + r.len() + 1);
        } else {
            assert(q == p + 2 + x.len());
        }
        assert(stmt_follow(s, q));
        assert(stmt_in_fragment(ss[k]));
        let last = lemma_fragment_statement(s, bs, ss[k]);
        let after = after_stmt(s, q, last);
        lemma_state_at_within(s, bs);
        lemma_lex_follow(s, q);
        if k + 1 < n {
            lemma_lex_space(s, q + 1);
            lemma_state_at_within(s, q);
            lemma_advance_state_at(s, q);
            assert(advance(s, after) == state_at(s, p + 2 + stmt_start(ss, k + 1)));
        } else {
            lemma_lex_step_progress(s, last);
            lemma_state_at_within(s, last);
            lemma_advance_state_at(s, last);
            assert(advance(s, after) == state_at(s, p + 2 + stmt_start(ss, k + 1)));
        }
        lemma_advance_measure(s, after);
        lemma_block_from(s, p, ss, k + 1);
        assert(ss.subrange(0, k).push(ss[k]) =~= ss.subrange(0, k + 1));
    }
}

/// A block written at `p` parses back to its statements, ending on its closing
/// brace.
proof fn lemma_fragment_block(s: Seq<char>, p: int, ss: Seq<SpecStmt>)
    requires
        block_in_fragment(ss),
        holds_at(s, p, crate::ast::render_block(ss)),
    ensures
        crate::parser::p_block(s, state_at(s, p)) == Some(
            (ss, state_at(s, p + crate::ast::render_block(ss).len() - 1)),
        ),
        lex_step(s, p + crate::ast::render_block(ss).len() - 1) == (
            SpecToken::RBrace,
            p + crate::ast::render_block(ss).len(),
        ),
        measure(s, state_at(s, p + crate::ast::render_block(ss).len() - 1)) < measure(
            s,
            state_at(s, p),
        ),
        state_at(s, p).cur is LBrace,
    decreases ss, (ss.len() + 1) as nat,
{
    let w = crate::ast::render_block(ss);
    let x = render_stmts(ss);
    assert(w == seq!['{', ' '] + x + seq![' ', '}']);
    lemma_holds_index(s, p, w, 0);
    lemma_holds_index(s, p, w, 1);
    lemma_holds_index(s, p, w, w.len() - 1);
    lemma_lex_punct(s, p);
    lemma_lex_space(s, p + 1);
    lemma_lex_punct(s, p + w.len() - 1);
    lemma_state_at_within(s, p);
    lemma_advance_state_at(s, p);
    lemma_advance_measure(s, state_at(s, p));
    assert(state_at(s, p + 1) == state_at(s, p + 2 + stmt_start(ss, 0)));
    lemma_block_from(s, p, ss, 0);
    assert(ss.subrange(0, 0) =~= Seq::<SpecStmt>::empty());
}

#[verifier::spinoff_prover]
#[verifier::rlimit(100)]
proof fn lemma_fragment_if(s: Seq<char>, p: int, e: SpecExpr)
    requires
        in_fragment(e),
        holds_at(s, p, render_expr(e)),
        clean_end(s, p + render_expr(e).len()),
        !(lex_step(s, p + render_expr(e).len()).0 is Else),
        e is If,
    ensures
        p_prefix(s, state_at(s, p)) == Some((e, state_at(s, last_start(e, p)))),
        lex_step(s, last_start(e, p)).1 == p + render_expr(e).len(),
        measure(s, state_at(s, last_start(e, p))) <= measure(s, state_at(s, p)),
        !(state_at(s, last_start(e, p)).cur is EOF),
        !(state_at(s, p).cur is Let) && !(state_at(s, p).cur is Return) && !(state_at(
            s,
            p,
        ).cur is EOF),
        !(state_at(s, p).cur is RBrace),
    decreases e, 0nat,
{
    let w = render_expr(e);
    let c = *e->If_0;
    let cons = e->If_1;
    let alt = e->If_2;
    let cw = render_expr(c);
    let b1 = crate::ast::render_block(cons);
    let b2 = crate::ast::render_block(alt);
    let tail: Seq<char> = if alt.len() == 0 {
        Seq::empty()
    } else {
        seq![' ', 'e', 'l', 's', 'e', ' '] + b2
    };
    assert(w == seq!['i', 'f', ' ', '('] + cw + seq![')', ' '] + b1 + tail);
    let g = p + 4 + cw.len();
    let b = g + 2;
    let e1 = b + b1.len();
    lemma_holds_part(s, p, w, 0, 2);
    assert(w.subrange(0, 2) =~= seq!['i', 'f']);
    lemma_holds_index(s, p, w, 2);
    lemma_holds_index(s, p, w, 3);
    lemma_holds_part(s, p, w, 4, 4 + cw.len() as int);
    assert(w.subrange(4, 4 + cw.len() as int) =~= cw);
    lemma_holds_index(s, p, w, g - p);
    lemma_holds_index(s, p, w, g + 1 - p);
    lemma_holds_part(s, p, w, b - p, e1 - p);
    assert(w.subrange(b - p, e1 - p) =~= b1);
    lemma_lex_word(s, p, seq!['i', 'f']);
    assert(word_token(seq!['i', 'f']) == SpecToken::If);
    lemma_lex_space(s, p + 2);
    lemma_lex_punct(s, p + 3);
    lemma_lex_punct(s, g);
    lemma_fragment_operand(s, p + 4, c, Precedence::Lowest);
    let cl = last_start(c, p + 4);
    lemma_lex_space(s, g + 1);
    lemma_holds_index(s, b, b1, 0);
    assert(b1[0] == '{');
    lemma_lex_punct(s, b);
    lemma_fragment_block(s, b, cons);
    let st6 = state_at(s, e1 - 1);
    lemma_state_at_within(s, p);
    lemma_state_at_within(s, p + 2);
    lemma_state_at_within(s, cl);
    lemma_state_at_within(s, g);
    lemma_state_at_within(s, e1 - 1);
    lemma_advance_state_at(s, p);
    lemma_advance_state_at(s, p + 2);
    lemma_advance_state_at(s, cl);
    lemma_advance_state_at(s, g);
    lemma_advance_state_at(s, e1 - 1);
    lemma_advance_measure(s, state_at(s, p));
    lemma_advance_measure(s, state_at(s, p + 2));
    lemma_advance_measure(s, state_at(s, cl));
    lemma_advance_measure(s, state_at(s, g));
    lemma_advance_measure(s, st6);
    assert(state_at(s, g + 1) == state_at(s, b));
    if alt.len() == 0 {
        assert(alt =~= Seq::<SpecStmt>::empty());
        assert(e1 == p + w.len());
        assert(crate::parser::p_if(s, state_at(s, p)) == Some((e, st6)));
    } else {
        let b2s = e1 + 6;
        lemma_holds_index(s, p, w, e1 - p);
        lemma_holds_part(s, p, w, e1 + 1 - p, e1 + 5 - p);
        assert(w.subrange(e1 + 1 - p, e1 + 5 - p) =~= seq!['e', 'l', 's', 'e']);
        lemma_holds_index(s, p, w, e1 + 5 - p);
        lemma_holds_part(s, p, w, b2s - p, w.len() as int);
        assert(w.subrange(b2s - p, w.len() as int) =~= b2);
        lemma_lex_space(s, e1);
        lemma_lex_word(s, e1 + 1, seq!['e', 'l', 's', 'e']);
        assert(word_token(seq!['e', 'l', 's', 'e']) == SpecToken::Else);
        lemma_lex_space(s, e1 + 5);
        lemma_holds_index(s, b2s, b2, 0);
        assert(b2[0] == '{');
        lemma_lex_punct(s, b2s);
        lemma_fragment_block(s, b2s, alt);
        lemma_state_at_within(s, e1);
        lemma_advance_state_at(s, e1);
        lemma_advance_measure(s, state_at(s, e1));
        assert(state_at(s, e1 + 5) == state_at(s, b2s));
        assert(crate::parser::p_if(s, state_at(s, p)) == Some(
            (e, state_at(s, b2s + b2.len() - 1)),
        ));
    }
}

/// Where parameter name `k` of `ps` starts in their writing.
pub open spec fn name_start(ps: Seq<Seq<char>>, k: int) -> int {
    if k == 0 {
        0
    } else {
        crate::ast::render_names(ps.subrange(0, k)).len() + 2int
    }
}

proof fn lemma_names_placed(ps: Seq<Seq<char>>, k: int)
    requires
        0 <= k < ps.len(),
    ensures
        holds_at(crate::ast::render_names(ps), name_start(ps, k), ps[k]),
        k + 1 == ps.len() ==> name_start(ps, k) + ps[k].len() == crate::ast::render_names(
            ps,
        ).len(),
        k + 1 < ps.len() ==> name_start(ps, k) + ps[k].len() + 2 == name_start(ps, k + 1)
            && name_start(ps, k) + ps[k].len() + 2 <= crate::ast::render_names(ps).len()
            && crate::ast::render_names(ps)[name_start(ps, k) + ps[k].len()] == ','
            && crate::ast::render_names(ps)[name_start(ps, k) + ps[k].len() + 1] == ' ',
    decreases ps.len() - k,
{
    let x = crate::ast::render_names(ps);
    let sub = ps.subrange(0, k + 1);
    assert(sub.drop_last() =~= ps.subrange(0, k));
    assert(sub.last() == ps[k]);
    assert(sub[0] == ps[0]);
    let big = crate::ast::render_names(sub);
    assert(big.len() == name_start(ps, k) + ps[k].len());
    lemma_names_prefix(ps, k + 1);
    lemma_holds_part(x, 0, big, name_start(ps, k), big.len() as int);
    assert(big.subrange(name_start(ps, k), big.len() as int) =~= ps[k]);
    lemma_holds_compose(x, 0, big, name_start(ps, k), ps[k]);
    if k + 1 == ps.len() {
        assert(sub =~= ps);
    } else {
        let sub2 = ps.subrange(0, k + 2);
        assert(sub2.drop_last() =~= sub);
        lemma_names_prefix(ps, k + 2);
        let next = crate::ast::render_names(sub2);
        lemma_holds_index(x, 0, next, big.len() as int);
        lemma_holds_index(x, 0, next, big.len() + 1int);
    }
}

proof fn lemma_names_prefix(ps: Seq<Seq<char>>, k: int)
    requires
        1 <= k <= ps.len(),
    ensures
        holds_at(crate::ast::render_names(ps), 0, crate::ast::render_names(ps.subrange(0, k))),
    decreases ps.len() - k,
{
    let x = crate::ast::render_names(ps);
    if k == ps.len() {
        assert(ps.subrange(0, k) =~= ps);
        assert(x.subrange(0, x.len() as int) =~= x);
    } else {
        lemma_names_prefix(ps, k + 1);
        let sub = ps.subrange(0, k + 1);
        assert(sub.drop_last() =~= ps.subrange(0, k));
        let big = crate::ast::render_names(sub);
        let small = crate::ast::render_names(ps.subrange(0, k));
        lemma_holds_part(x, 0, big, 0, small.len() as int);
        assert(big.subrange(0, small.len() as int) =~= small);
    }
}

/// Parameter names written at `base`, from name `k` on, parse back, ending on the
/// closing parenthesis that follows them.
proof fn lemma_names_from(s: Seq<char>, base: int, ps: Seq<Seq<char>>, k: int)
    requires
        forall|i: int| 0 <= i < ps.len() ==> is_plain_name(#[trigger] ps[i]),
        holds_at(s, base, crate::ast::render_names(ps)),
        base + crate::ast::render_names(ps).len() < s.len(),
        s[base + crate::ast::render_names(ps).len()] == ')',
        0 <= k < ps.len(),
    ensures
        crate::parser::p_params_acc(
            s,
            state_at(s, base + name_start(ps, k)),
            ps.subrange(0, k),
        ) == Some((ps, state_at(s, base + crate::ast::render_names(ps).len()))),
        measure(s, state_at(s, base + crate::ast::render_names(ps).len())) < measure(
            s,
            state_at(s, base + name_start(ps, k)),
        ),
    decreases ps.len() - k,
{
    let x = crate::ast::render_names(ps);
    let n = ps[k];
    let pos = base + name_start(ps, k);
    lemma_names_placed(ps, k);
    lemma_holds_compose(s, base, x, name_start(ps, k), n);
    let q = pos + n.len();
    assert(is_plain_name(n));
    if k + 1 < ps.len() {
        lemma_holds_index(s, base, x, name_start(ps, k) + n.len());
        lemma_holds_index(s, base, x, name_start(ps, k) + n.len() + 1);
    }
    lemma_lex_word(s, pos, n);
    lemma_lex_punct(s, q);
    lemma_state_at_within(s, pos);
    lemma_state_at_within(s, q);
    lemma_advance_state_at(s, pos);
    lemma_advance_state_at(s, q);
    lemma_advance_measure(s, state_at(s, pos));
    lemma_advance_measure(s, state_at(s, q));
    if k + 1 < ps.len() {
        lemma_lex_space(s, q + 1);
        assert(state_at(s, q + 1) == state_at(s, base + name_start(ps, k + 1)));
        lemma_names_from(s, base, ps, k + 1);
        assert(ps.subrange(0, k).push(n) =~= ps.subrange(0, k + 1));
    } else {
        assert(ps.subrange(0, k).push(n) =~= ps);
    }
}

#[verifier::spinoff_prover]
#[verifier::rlimit(100)]
proof fn lemma_fragment_function(s: Seq<char>, p: int, e: SpecExpr)
    requires
        in_fragment(e),
        holds_at(s, p, render_expr(e)),
        clean_end(s, p + render_expr(e).len()),
        !(lex_step(s, p + render_expr(e).len()).0 is Else),
        e is Function,
    ensures
        p_prefix(s, state_at(s, p)) == Some((e, state_at(s, last_start(e, p)))),
        lex_step(s, last_start(e, p)).1 == p + render_expr(e).len(),
        measure(s, state_at(s, last_start(e, p))) <= measure(s, state_at(s, p)),
        !(state_at(s, last_start(e, p)).cur is EOF),
        !(state_at(s, p).cur is Let) && !(state_at(s, p).cur is Return) && !(state_at(
            s,
            p,
        ).cur is EOF),
        !(state_at(s, p).cur is RBrace),
    decreases e, 0nat,
{
    let w = render_expr(e);
    let ps = e->Function_0;
    let body = e->Function_1;
    let nw = crate::ast::render_names(ps);
    let bw = crate::ast::render_block(body);
    assert(w == seq!['f', 'n', '('] + nw + seq![')', ' '] + bw);
    let close = p + 3 + nw.len();
    let b = close + 2;
    lemma_holds_part(s, p, w, 0, 2);
    assert(w.subrange(0, 2) =~= seq!['f', 'n']);
    lemma_holds_index(s, p, w, 2);
    lemma_holds_part(s, p, w, 3, 3 + nw.len() as int);
    assert(w.subrange(3, 3 + nw.len() as int) =~= nw);
    lemma_holds_index(s, p, w, close - p);
    lemma_holds_index(s, p, w, close + 1 - p);
    lemma_holds_part(s, p, w, b - p, w.len() as int);
    assert(w.subrange(b - p, w.len() as int) =~= bw);
    lemma_lex_word(s, p, seq!['f', 'n']);
    assert(word_token(seq!['f', 'n']) == SpecToken::Function);
    lemma_lex_punct(s, p + 2);
    lemma_lex_punct(s, close);
    lemma_lex_space(s, close + 1);
    lemma_holds_index(s, b, bw, 0);
    assert(bw[0] == '{');
    lemma_lex_punct(s, b);
    lemma_fragment_block(s, b, body);
    lemma_state_at_within(s, p);
    lemma_state_at_within(s, p + 2);
    lemma_state_at_within(s, close);
    lemma_advance_state_at(s, p);
    lemma_advance_state_at(s, p + 2);
    lemma_advance_state_at(s, close);
    lemma_advance_measure(s, state_at(s, p));
    lemma_advance_measure(s, state_at(s, p + 2));
    lemma_advance_measure(s, state_at(s, close));
    assert(state_at(s, close + 1) == state_at(s, b));
    if ps.len() == 0 {
        assert(nw == Seq::<char>::empty());
        assert(crate::parser::p_params(s, state_at(s, p + 2)) == Some(
            (Seq::<Seq<char>>::empty(), state_at(s, close)),
        ));
        assert(ps =~= Seq::<Seq<char>>::empty());
    } else {
        lemma_names_placed(ps, 0);
        lemma_holds_compose(s, p + 3, nw, 0, ps[0]);
        assert(is_plain_name(ps[0]));
        lemma_lex_word(s, p + 3, ps[0]);
        lemma_names_from(s, p + 3, ps, 0);
        assert(ps.subrange(0, 0) =~= Seq::<Seq<char>>::empty());
        assert(crate::parser::p_params(s, state_at(s, p + 2)) == Some((ps, state_at(s, close))));
    }
    assert(crate::parser::p_function(s, state_at(s, p)) == Some(
        (e, state_at(s, b + bw.len() - 1)),
    ));
}

/// The call suffixes of `e` are consumed by the operator loop that follows its
/// head: the loop after the head continues as the loop after `e`.
proof fn lemma_fragment_spine(s: Seq<char>, p: int, e: SpecExpr, prec: Precedence)
    requires
        in_fragment(e),
        holds_at(s, p, render_expr(e)),
        rank(prec) < 6,
        lex_step(s, last_start(head(e), p)).1 == p + render_expr(head(e)).len(),
        !(state_at(s, last_start(head(e), p)).cur is EOF),
    ensures
        p_infix_loop(s, state_at(s, last_start(head(e), p)), prec, head(e)) == p_infix_loop(
            s,
            state_at(s, last_start(e, p)),
            prec,
            e,
        ),
        lex_step(s, last_start(e, p)).1 == p + render_expr(e).len(),
        measure(s, state_at(s, last_start(e, p))) <= measure(
            s,
            state_at(s, last_start(head(e), p)),
        ),
        !(state_at(s, last_start(e, p)).cur is EOF),
    decreases e, 2nat,
{
    match e {
        SpecExpr::Call(f, args) => {
            let fw = render_expr(*f);
            let aw = render_args(args);
            let w = render_expr(e);
            assert(w == fw + seq!['('] + aw + seq![')']);
            let lp = p + fw.len();
            let close = lp + 1 + aw.len();
            lemma_holds_part(s, p, w, 0, fw.len() as int);
            assert(w.subrange(0, fw.len() as int) =~= fw);
            lemma_holds_index(s, p, w, fw.len() as int);
            lemma_holds_index(s, p, w, w.len() - 1);
            lemma_fragment_spine(s, p, *f, prec);
            let lf = last_start(*f, p);
            lemma_lex_punct(s, lp);
            lemma_lex_punct(s, close);
            lemma_state_at_within(s, lf);
            lemma_state_at_within(s, lp);
            lemma_advance_state_at(s, lf);
            lemma_advance_state_at(s, lp);
            lemma_advance_measure(s, state_at(s, lf));
            lemma_advance_measure(s, state_at(s, lp));
            if args.len() == 0 {
                assert(aw == Seq::<char>::empty());
                assert(args =~= Seq::<SpecExpr>::empty());
                assert(crate::parser::p_call(s, state_at(s, lp), *f) == Some(
                    (e, state_at(s, close)),
                ));
            } else {
                lemma_holds_part(s, p, w, fw.len() + 1int, w.len() - 1);
                assert(w.subrange(fw.len() + 1int, w.len() - 1) =~= aw);
                lemma_args_from(s, lp + 1, args, 0);
                assert(arg_start(args, 0) == 0);
                assert(args.subrange(0, 0) =~= Seq::<SpecExpr>::empty());
                assert(crate::parser::p_call(s, state_at(s, lp), *f) == Some(
                    (e, state_at(s, close)),
                ));
            }
            assert(p_infix_loop(s, state_at(s, lf), prec, *f) == p_infix_loop(
                s,
                state_at(s, close),
                prec,
                e,
            ));
        },
        _ => {},
    }
}

/// Where argument `k` of `args` starts in their writing.
pub open spec fn arg_start(args: Seq<SpecExpr>, k: int) -> int {
    if k == 0 {
        0
    } else {
        render_args(args.subrange(0, k)).len() + 2int
    }
}

proof fn lemma_args_prefix(args: Seq<SpecExpr>, k: int)
    requires
        1 <= k <= args.len(),
    ensures
        holds_at(render_args(args), 0, render_args(args.subrange(0, k))),
    decreases args.len() - k,
{
    let x = render_args(args);
    if k == args.len() {
        assert(args.subrange(0, k) =~= args);
        assert(x.subrange(0, x.len() as int) =~= x);
    } else {
        lemma_args_prefix(args, k + 1);
        let sub = args.subrange(0, k + 1);
        assert(sub.drop_last() =~= args.subrange(0, k));
        let big = render_args(sub);
        let small = render_args(args.subrange(0, k));
        lemma_holds_part(x, 0, big, 0, small.len() as int);
        assert(big.subrange(0, small.len() as int) =~= small);
    }
}

proof fn lemma_args_placed(args: Seq<SpecExpr>, k: int)
    requires
        0 <= k < args.len(),
    ensures
        holds_at(render_args(args), arg_start(args, k), render_expr(args[k])),
        k + 1 == args.len() ==> arg_start(args, k) + render_expr(args[k]).len() == render_args(
            args,
        ).len(),
        k + 1 < args.len() ==> arg_start(args, k) + render_expr(args[k]).len() + 2 == arg_start(
            args,
            k + 1,
        ) && arg_start(args, k) + render_expr(args[k]).len() + 2 <= render_args(args).len()
            && render_args(args)[arg_start(args, k) + render_expr(args[k]).len()] == ','
            && render_args(args)[arg_start(args, k) + render_expr(args[k]).len() + 1] == ' ',
{
    let x = render_args(args);
    let sub = args.subrange(0, k + 1);
    assert(sub.drop_last() =~= args.subrange(0, k));
    assert(sub.last() == args[k]);
    assert(sub[0] == args[0]);
    let big = render_args(sub);
    let ek = render_expr(args[k]);
    assert(big.len() == arg_start(args, k) + ek.len());
    lemma_args_prefix(args, k + 1);
    assert(big.subrange(arg_start(args, k), big.len() as int) =~= ek);
    assert(holds_at(big, arg_start(args, k), ek));
    lemma_holds_compose(x, 0, big, arg_start(args, k), ek);
    if k + 1 == args.len() {
        assert(sub =~= args);
    } else {
        let sub2 = args.subrange(0, k + 2);
        assert(sub2.drop_last() =~= sub);
        lemma_args_prefix(args, k + 2);
        let next = render_args(sub2);
        lemma_holds_index(x, 0, next, big.len() as int);
        lemma_holds_index(x, 0, next, big.len() + 1int);
    }
}

/// Arguments written at `base`, from argument `k` on, parse back, ending on the
/// closing parenthesis that follows them.
proof fn lemma_args_from(s: Seq<char>, base: int, args: Seq<SpecExpr>, k: int)
    requires
        forall|i: int| 0 <= i < args.len() ==> in_fragment(#[trigger] args[i]),
        holds_at(s, base, render_args(args)),
        base + render_args(args).len() < s.len(),
        s[base + render_args(args).len()] == ')',
        0 <= k < args.len(),
    ensures
        crate::parser::p_args_acc(
            s,
            state_at(s, base + arg_start(args, k)),
            args.subrange(0, k),
        ) == Some((args, state_at(s, base + render_args(args).len()))),
        measure(s, state_at(s, base + render_args(args).len())) < measure(
            s,
            state_at(s, base + arg_start(args, k)),
        ),
        !(state_at(s, base + arg_start(args, k)).cur is RParen),
    decreases args, (args.len() - k) as nat,
{
    let x = render_args(args);
    let ek = args[k];
    let w = render_expr(ek);
    let pos = base + arg_start(args, k);
    lemma_args_placed(args, k);
    lemma_holds_compose(s, base, x, arg_start(args, k), w);
    let q = pos + w.len();
    if k + 1 < args.len() {
        lemma_holds_index(s, base, x, arg_start(args, k) + w.len());
        lemma_holds_index(s, base, x, arg_start(args, k) + w.len() + 1);
    }
    lemma_fragment_operand(s, pos, ek, Precedence::Lowest);
    let lk = last_start(ek, pos);
    lemma_lex_punct(s, q);
    lemma_state_at_within(s, lk);
    lemma_state_at_within(s, q);
    lemma_advance_state_at(s, lk);
    lemma_advance_state_at(s, q);
    lemma_advance_measure(s, state_at(s, lk));
    lemma_advance_measure(s, state_at(s, q));
    if k + 1 < args.len() {
        lemma_lex_space(s, q + 1);
        assert(state_at(s, q + 1) == state_at(s, base + arg_start(args, k + 1)));
        lemma_args_from(s, base, args, k + 1);
        assert(args.subrange(0, k).push(ek) =~= args.subrange(0, k + 1));
    } else {
        assert(args.subrange(0, k).push(ek) =~= args);
    }
}

/// A token of the kind that scanning produces: names are plain names, integers
/// are non-negative, and string texts close cleanly.
pub open spec fn token_ok(t: SpecToken) -> bool {
    match t {
        SpecToken::Ident(x) => is_plain_name(x),
        SpecToken::Int(n) => n >= 0,
        SpecToken::Str(u) => closes_cleanly(u),
        _ => true,
    }
}

pub open spec fn state_ok(s: Seq<char>, st: PState) -> bool {
    within(s, st) && token_ok(st.cur) && token_ok(st.peek)
}

proof fn lemma_letters_all(s: Seq<char>, p: int)
    requires
        0 <= p <= s.len(),
    ensures
        forall|k: int| p <= k < letters_end(s, p) ==> is_letter(#[trigger] s[k]),
    decreases s.len() - p,
{
    if p < s.len() && is_letter(s[p]) {
        lemma_letters_all(s, p + 1);
    }
}

proof fn lemma_digits_all(s: Seq<char>, p: int)
    requires
        0 <= p <= s.len(),
    ensures
        forall|k: int| p <= k < digits_end(s, p) ==> is_digit(#[trigger] s[k]),
    decreases s.len() - p,
{
    if p < s.len() && is_digit(s[p]) {
        lemma_digits_all(s, p + 1);
    }
}

/// Scanning a string in `s` from `a + i` to its closing quote at `e` stops at the
/// same place in the text from `a` up to that quote.
proof fn lemma_string_scan_back(s: Seq<char>, a: int, i: int, e: int)
    requires
        0 <= a,
        0 <= i,
        a + i <= e < s.len(),
        string_end(s, a + i) == e,
    ensures
        string_end(s.subrange(a, e + 1), i) == e - a,
        s[e] == '"',
    decreases e - (a + i),
{
    let w = s.subrange(a, e + 1);
    let j = a + i;
    if s[j] == '\\' && j + 1 < s.len() && s[j + 1] == '"' {
        crate::lexer::lemma_string_end_bounds(s, j + 2);
        assert(w[i] == s[j]);
        assert(w[i + 1] == s[j + 1]);
        lemma_string_scan_back(s, a, i + 2, e);
    } else if s[j] == '"' {
        assert(w[i] == s[j]);
    } else {
        crate::lexer::lemma_string_end_bounds(s, j + 1);
        assert(w[i] == s[j]);
        lemma_string_scan_back(s, a, i + 1, e);
    }
}

proof fn lemma_lex_token_ok(s: Seq<char>, p: int)
    requires
        0 <= p <= s.len(),
    ensures
        token_ok(lex_step(s, p).0),
{
    reveal(lex_step);
    crate::lexer::lemma_skip_spaces_bounds(s, p);
    let q = skip_spaces(s, p);
    if q < s.len() {
        let c = s[q];
        if c == '"' {
            crate::lexer::lemma_string_end_bounds(s, q + 1);
            let e = string_end(s, q + 1);
            if e < s.len() {
                let t = s.subrange(q + 1, e);
                lemma_string_scan_back(s, q + 1, 0, e);
                assert(s[e] == '"');
                assert(t.push('"') =~= s.subrange(q + 1, e + 1));
                assert(closes_cleanly(t));
            }
        } else if is_letter(c) {
            crate::lexer::lemma_letters_end_bounds(s, q);
            lemma_letters_all(s, q);
            let w = s.subrange(q, letters_end(s, q));
            assert forall|k: int| 0 <= k < w.len() implies is_letter(#[trigger] w[k]) by {
                assert(w[k] == s[q + k]);
            }
            assert(token_ok(word_token(w)));
        } else if is_digit(c) {
            crate::lexer::lemma_digits_end_bounds(s, q);
            lemma_digits_all(s, q);
            let d = digits_end(s, q);
            if 0 <= d < s.len() && s[d] == '.' {
                crate::lexer::lemma_digits_end_bounds(s, d + 1);
            }
            let e = number_end(s, q);
            if e == digits_end(s, q) {
                let ds = s.subrange(q, e);
                assert forall|k: int| 0 <= k < ds.len() implies is_digit(#[trigger] ds[k]) by {
                    assert(ds[k] == s[q + k]);
                }
                crate::lexer::lemma_digits_value_nonneg(ds);
            }
            assert(token_ok(number_token(s, q).0));
        }
    }
}

proof fn lemma_advance_ok(s: Seq<char>, st: PState)
    requires
        state_ok(s, st),
    ensures
        state_ok(s, advance(s, st)),
{
    lemma_lex_token_ok(s, st.pos);
    lemma_advance_measure(s, st);
}

pub open spec fn expr_result_ok(s: Seq<char>, r: Option<(SpecExpr, PState)>) -> bool {
    match r {
        Some((e, st)) => in_fragment(e) && state_ok(s, st),
        None => true,
    }
}

pub open spec fn stmt_result_ok(s: Seq<char>, r: Option<(SpecStmt, PState)>) -> bool {
    match r {
        Some((x, st)) => stmt_in_fragment(x) && state_ok(s, st),
        None => true,
    }
}

pub open spec fn block_result_ok(s: Seq<char>, r: Option<(Seq<SpecStmt>, PState)>) -> bool {
    match r {
        Some((ss, st)) => block_in_fragment(ss) && state_ok(s, st),
        None => true,
    }
}

pub open spec fn args_ok(args: Seq<SpecExpr>) -> bool {
    forall|i: int| 0 <= i < args.len() ==> in_fragment(#[trigger] args[i])
}

pub open spec fn names_ok(ps: Seq<Seq<char>>) -> bool {
    forall|i: int| 0 <= i < ps.len() ==> is_plain_name(#[trigger] ps[i])
}

proof fn lemma_ok_program_acc(s: Seq<char>, st: PState, acc: Seq<SpecStmt>)
    requires
        state_ok(s, st),
        block_in_fragment(acc),
    ensures
        match p_program_acc(s, st, acc) {
            Some(ss) => block_in_fragment(ss),
            None => true,
        },
    decreases measure(s, st), 7nat,
{
    if !(st.cur is EOF) {
        lemma_ok_stmt(s, st);
        match p_stmt(s, st) {
            Some((x, st1)) => {
                lemma_advance_ok(s, st1);
                let st2 = advance(s, st1);
                if crate::parser::smaller(s, st2, st) {
                    assert(block_in_fragment(acc.push(x)));
                    lemma_ok_program_acc(s, st2, acc.push(x));
                }
            },
            None => {},
        }
    }
}

proof fn lemma_ok_block_acc(s: Seq<char>, st: PState, acc: Seq<SpecStmt>)
    requires
        state_ok(s, st),
        block_in_fragment(acc),
    ensures
        block_result_ok(s, crate::parser::p_block_acc(s, st, acc)),
    decreases measure(s, st), 7nat,
{
    if !(st.cur is RBrace) && !(st.cur is EOF) {
        lemma_ok_stmt(s, st);
        match p_stmt(s, st) {
            Some((x, st1)) => {
                lemma_advance_ok(s, st1);
                let st2 = advance(s, st1);
                if crate::parser::smaller(s, st2, st) {
                    assert(block_in_fragment(acc.push(x)));
                    lemma_ok_block_acc(s, st2, acc.push(x));
                }
            },
            None => {},
        }
    }
}

proof fn lemma_ok_stmt(s: Seq<char>, st: PState)
    requires
        state_ok(s, st),
    ensures
        stmt_result_ok(s, p_stmt(s, st)),
    decreases measure(s, st), 6nat,
{
    match st.cur {
        SpecToken::Let => lemma_ok_let(s, st),
        SpecToken::Return => lemma_ok_return(s, st),
        _ => lemma_ok_expr_stmt(s, st),
    }
}

proof fn lemma_ok_semicolon(s: Seq<char>, st: PState)
    requires
        state_ok(s, st),
    ensures
        state_ok(s, skip_semicolon(s, st)),
{
    lemma_advance_ok(s, st);
}

proof fn lemma_ok_let(s: Seq<char>, st: PState)
    requires
        state_ok(s, st),
    ensures
        stmt_result_ok(s, crate::parser::p_let(s, st)),
    decreases measure(s, st), 5nat,
{
    if st.peek is Ident {
        lemma_advance_ok(s, st);
        let st1 = advance(s, st);
        if st1.peek is Assign {
            lemma_advance_ok(s, st1);
            lemma_advance_ok(s, advance(s, st1));
            let st3 = advance(s, advance(s, st1));
            if crate::parser::smaller(s, st3, st) {
                lemma_ok_expr(s, st3, Precedence::Lowest);
                match p_expr(s, st3, Precedence::Lowest) {
                    Some((e, st4)) => lemma_ok_semicolon(s, st4),
                    None => {},
                }
            }
        }
    }
}

proof fn lemma_ok_return(s: Seq<char>, st: PState)
    requires
        state_ok(s, st),
    ensures
        stmt_result_ok(s, crate::parser::p_return(s, st)),
    decreases measure(s, st), 5nat,
{
    lemma_advance_ok(s, st);
    let st1 = advance(s, st);
    if crate::parser::smaller(s, st1, st) {
        lemma_ok_expr(s, st1, Precedence::Lowest);
        match p_expr(s, st1, Precedence::Lowest) {
            Some((e, st2)) => lemma_ok_semicolon(s, st2),
            None => {},
        }
    }
}

proof fn lemma_ok_expr_stmt(s: Seq<char>, st: PState)
    requires
        state_ok(s, st),
    ensures
        stmt_result_ok(s, p_expr_stmt(s, st)),
    decreases measure(s, st), 5nat,
{
    lemma_ok_expr(s, st, Precedence::Lowest);
    match p_expr(s, st, Precedence::Lowest) {
        Some((e, st1)) => lemma_ok_semicolon(s, st1),
        None => {},
    }
}

proof fn lemma_ok_expr(s: Seq<char>, st: PState, prec: Precedence)
    requires
        state_ok(s, st),
    ensures
        expr_result_ok(s, p_expr(s, st, prec)),
    decreases measure(s, st), 4nat,
{
    lemma_ok_prefix(s, st);
    match p_prefix(s, st) {
        Some((left, st1)) => {
            if measure(s, st1) <= measure(s, st) {
                lemma_ok_infix_loop(s, st1, prec, left);
            }
        },
        None => {},
    }
}

proof fn lemma_ok_infix_loop(s: Seq<char>, st: PState, prec: Precedence, left: SpecExpr)
    requires
        state_ok(s, st),
        in_fragment(left),
    ensures
        expr_result_ok(s, p_infix_loop(s, st, prec, left)),
    decreases measure(s, st), 3nat,
{
    if rank(prec) < rank(token_precedence(st.peek)) {
        lemma_advance_ok(s, st);
        let st1 = advance(s, st);
        if crate::parser::smaller(s, st1, st) {
            if is_infix_operator(st1.cur) {
                lemma_ok_infix(s, st1, left);
                match p_infix(s, st1, left) {
                    Some((e, st2)) => {
                        if crate::parser::smaller(s, st2, st) {
                            lemma_ok_infix_loop(s, st2, prec, e);
                        }
                    },
                    None => {},
                }
            } else {
                lemma_ok_call(s, st1, left);
                match crate::parser::p_call(s, st1, left) {
                    Some((e, st2)) => {
                        if crate::parser::smaller(s, st2, st) {
                            lemma_ok_infix_loop(s, st2, prec, e);
                        }
                    },
                    None => {},
                }
            }
        }
    }
}

proof fn lemma_ok_infix(s: Seq<char>, st: PState, left: SpecExpr)
    requires
        state_ok(s, st),
        in_fragment(left),
        is_infix_operator(st.cur),
    ensures
        expr_result_ok(s, p_infix(s, st, left)),
    decreases measure(s, st), 2nat,
{
    lemma_advance_ok(s, st);
    let st1 = advance(s, st);
    if crate::parser::smaller(s, st1, st) {
        lemma_ok_expr(s, st1, token_precedence(st.cur));
    }
}

proof fn lemma_ok_call(s: Seq<char>, st: PState, callee: SpecExpr)
    requires
        state_ok(s, st),
        in_fragment(callee),
    ensures
        expr_result_ok(s, crate::parser::p_call(s, st, callee)),
    decreases measure(s, st), 2nat,
{
    lemma_advance_ok(s, st);
    if !(st.peek is RParen) {
        let st1 = advance(s, st);
        if crate::parser::smaller(s, st1, st) {
            lemma_ok_args_acc(s, st1, Seq::empty());
            match crate::parser::p_args_acc(s, st1, Seq::empty()) {
                Some((args, st2)) => {
                    assert(in_fragment(SpecExpr::Call(Box::new(callee), args)));
                },
                None => {},
            }
        }
    } else {
        assert(in_fragment(SpecExpr::Call(Box::new(callee), Seq::empty())));
    }
}

proof fn lemma_ok_args_acc(s: Seq<char>, st: PState, acc: Seq<SpecExpr>)
    requires
        state_ok(s, st),
        args_ok(acc),
    ensures
        match crate::parser::p_args_acc(s, st, acc) {
            Some((args, st2)) => args_ok(args) && state_ok(s, st2),
            None => true,
        },
    decreases measure(s, st), 5nat,
{
    lemma_ok_expr(s, st, Precedence::Lowest);
    match p_expr(s, st, Precedence::Lowest) {
        Some((e, st1)) => {
            assert(args_ok(acc.push(e)));
            lemma_advance_ok(s, st1);
            if st1.peek is Comma {
                lemma_advance_ok(s, advance(s, st1));
                let st2 = advance(s, advance(s, st1));
                if crate::parser::smaller(s, st2, st) {
                    lemma_ok_args_acc(s, st2, acc.push(e));
                }
            }
        },
        None => {},
    }
}

proof fn lemma_ok_prefix(s: Seq<char>, st: PState)
    requires
        state_ok(s, st),
    ensures
        expr_result_ok(s, p_prefix(s, st)),
    decreases measure(s, st), 3nat,
{
    match st.cur {
        SpecToken::Bang => lemma_ok_prefix_op(s, st),
        SpecToken::Minus => lemma_ok_prefix_op(s, st),
        SpecToken::LParen => lemma_ok_grouped(s, st),
        SpecToken::If => lemma_ok_if(s, st),
        SpecToken::Function => lemma_ok_function(s, st),
        _ => {},
    }
}

proof fn lemma_ok_prefix_op(s: Seq<char>, st: PState)
    requires
        state_ok(s, st),
        st.cur is Bang || st.cur is Minus,
    ensures
        expr_result_ok(s, p_prefix_op(s, st)),
    decreases measure(s, st), 2nat,
{
    lemma_advance_ok(s, st);
    let st1 = advance(s, st);
    if crate::parser::smaller(s, st1, st) {
        lemma_ok_expr(s, st1, Precedence::Prefix);
    }
}

proof fn lemma_ok_grouped(s: Seq<char>, st: PState)
    requires
        state_ok(s, st),
    ensures
        expr_result_ok(s, p_grouped(s, st)),
    decreases measure(s, st), 2nat,
{
    lemma_advance_ok(s, st);
    let st1 = advance(s, st);
    if crate::parser::smaller(s, st1, st) {
        lemma_ok_expr(s, st1, Precedence::Lowest);
        match p_expr(s, st1, Precedence::Lowest) {
            Some((e, st2)) => lemma_advance_ok(s, st2),
            None => {},
        }
    }
}

proof fn lemma_ok_block(s: Seq<char>, st: PState)
    requires
        state_ok(s, st),
    ensures
        block_result_ok(s, crate::parser::p_block(s, st)),
    decreases measure(s, st), 2nat,
{
    lemma_advance_ok(s, st);
    let st1 = advance(s, st);
    if crate::parser::smaller(s, st1, st) {
        lemma_ok_block_acc(s, st1, Seq::empty());
    }
}

#[verifier::rlimit(50)]
proof fn lemma_ok_if(s: Seq<char>, st: PState)
    requires
        state_ok(s, st),
    ensures
        expr_result_ok(s, crate::parser::p_if(s, st)),
    decreases measure(s, st), 2nat,
{
    if st.peek is LParen {
        lemma_advance_ok(s, st);
        lemma_advance_ok(s, advance(s, st));
        let st2 = advance(s, advance(s, st));
        if crate::parser::smaller(s, st2, st) {
            lemma_ok_expr(s, st2, Precedence::Lowest);
            match p_expr(s, st2, Precedence::Lowest) {
                Some((c, st3)) => {
                    lemma_advance_ok(s, st3);
                    let st4 = advance(s, st3);
                    lemma_advance_ok(s, st4);
                    let st5 = advance(s, st4);
                    if st3.peek is RParen && st4.peek is LBrace && crate::parser::smaller(
                        s,
                        st5,
                        st,
                    ) {
                        lemma_ok_block(s, st5);
                        match crate::parser::p_block(s, st5) {
                            Some((cons, st6)) => {
                                lemma_advance_ok(s, st6);
                                let st7 = advance(s, st6);
                                lemma_advance_ok(s, st7);
                                let st8 = advance(s, st7);
                                assert(block_in_fragment(Seq::<SpecStmt>::empty()));
                                if st6.peek is Else && st7.peek is LBrace
                                    && crate::parser::smaller(s, st8, st) {
                                    lemma_ok_block(s, st8);
                                }
                            },
                            None => {},
                        }
                    }
                },
                None => {},
            }
        }
    }
}

proof fn lemma_ok_function(s: Seq<char>, st: PState)
    requires
        state_ok(s, st),
    ensures
        expr_result_ok(s, crate::parser::p_function(s, st)),
    decreases measure(s, st), 2nat,
{
    if st.peek is LParen {
        lemma_advance_ok(s, st);
        let st1 = advance(s, st);
        lemma_ok_params(s, st1);
        match crate::parser::p_params(s, st1) {
            Some((ps, st2)) => {
                lemma_advance_ok(s, st2);
                let st3 = advance(s, st2);
                if st2.peek is LBrace && crate::parser::smaller(s, st3, st) {
                    lemma_ok_block(s, st3);
                }
            },
            None => {},
        }
    }
}

proof fn lemma_ok_params(s: Seq<char>, st: PState)
    requires
        state_ok(s, st),
    ensures
        match crate::parser::p_params(s, st) {
            Some((ps, st2)) => names_ok(ps) && state_ok(s, st2),
            None => true,
        },
{
    lemma_advance_ok(s, st);
    let st1 = advance(s, st);
    if !(st1.cur is RParen) {
        lemma_ok_params_acc(s, st1, Seq::empty());
    }
}

proof fn lemma_ok_params_acc(s: Seq<char>, st: PState, acc: Seq<Seq<char>>)
    requires
        state_ok(s, st),
        names_ok(acc),
    ensures
        match crate::parser::p_params_acc(s, st, acc) {
            Some((ps, st2)) => names_ok(ps) && state_ok(s, st2),
            None => true,
        },
    decreases measure(s, st),
{
    match st.cur {
        SpecToken::Ident(n) => {
            assert(names_ok(acc.push(n)));
            lemma_advance_ok(s, st);
            if st.peek is Comma {
                lemma_advance_ok(s, advance(s, st));
                let st2 = advance(s, advance(s, st));
                if crate::parser::smaller(s, st2, st) {
                    lemma_ok_params_acc(s, st2, acc.push(n));
                }
            }
        },
        _ => {},
    }
}

/// For every program that parses, re-parsing its fully parenthesized writing gives
/// the same program back: the writing parses, writing it again gives the same
/// text, and it evaluates to the same result.
pub proof fn lemma_parsed_program_round_trip(src: Seq<char>)
    requires
        parse_text(src) is Some,
    ensures
        parse_text(render_stmts(parse_text(src)->0)) == parse_text(src),
        parse_text(render_stmts(parse_text(src)->0)) is Some,
        render_stmts(parse_text(render_stmts(parse_text(src)->0))->0) == render_stmts(
            parse_text(src)->0,
        ),
        run_program(parse_text(render_stmts(parse_text(src)->0))->0, fresh_env()) == run_program(
            parse_text(src)->0,
            fresh_env(),
        ),
{
    let st0 = PState { pos: 0, cur: SpecToken::EOF, peek: SpecToken::EOF };
    lemma_advance_ok(src, st0);
    lemma_advance_ok(src, advance(src, st0));
    assert(block_in_fragment(Seq::<SpecStmt>::empty()));
    lemma_ok_program_acc(src, initial_state(src, 0), Seq::empty());
    let ss = parse_text(src)->0;
    lemma_program_round_trip(ss);
}

} // verus!
