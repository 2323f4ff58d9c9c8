use vstd::prelude::*;
use crate::ast::{
    Expression, Ident, SpecExpr, SpecStmt, Statement, copy_idents, copy_stmts, exprs_view,
    idents_view, lemma_exprs_view_len, lemma_stmts_view_len, stmts_view,
};
use crate::builtins::{Builtin, Builtins, builtin_named, builtin_result};
use crate::environment::{Environment, SpecEnv, bind, global_scope, lookup, open_scope};
use crate::object::{
    ObjectWrapper, SpecValue, fits_i64, kind_name, outcome_view, overflow_message, spec_add,
    spec_eq, spec_greater, spec_less, spec_multi, spec_not_eq, values_view,
};
use crate::parser::ParseError;
use crate::text::{nat_decimal, push_text, usize_to_decimal};
use crate::token::{SpecToken, Token};

verus! {

broadcast use vstd::std_specs::vec::group_vec_axioms, vstd::seq::group_seq_axioms;

/// How deeply function calls may nest before evaluation stops with an error. The
/// bound is the largest machine integer, so a program is not limited by it in
/// practice: deep recursion runs until the host's stack is exhausted.
pub const MAX_CALL_DEPTH: usize = usize::MAX;

/// An evaluation's outcome: a value, or a runtime error's message.
pub type Outcome = Result<SpecValue, Seq<char>>;

pub open spec fn not_found_message(name: Seq<char>) -> Seq<char> {
    "identifier not found: "@ + name
}

pub open spec fn depth_message() -> Seq<char> {
    "call depth limit exceeded"@
}

pub open spec fn arity_message(expected: nat, got: nat) -> Seq<char> {
    "Invalid params, expect "@ + nat_decimal(expected) + " got "@ + nat_decimal(got)
}

/// A prefix operator applied to a value: `!` negates a boolean and tests an
/// integer for zero (anything else gives `false`); `-` negates an integer.
pub open spec fn spec_prefix(op: SpecToken, v: SpecValue) -> Outcome {
    match op {
        SpecToken::Bang => match v {
            SpecValue::Bool(b) => Ok(SpecValue::Bool(!b)),
            SpecValue::Int(i) => Ok(SpecValue::Bool(i == 0)),
            _ => Ok(SpecValue::Bool(false)),
        },
        SpecToken::Minus => match v {
            SpecValue::Int(i) => if fits_i64(-i) {
                Ok(SpecValue::Int((-i) as i64))
            } else {
                Err(overflow_message())
            },
            _ => Err("cannot eval type "@ + kind_name(v) + " after '-'."@),
        },
        _ => Ok(SpecValue::Null),
    }
}

/// An infix operator applied to two values. `-` and `/` have no value-level
/// operation and give null.
pub open spec fn spec_infix(op: SpecToken, a: SpecValue, b: SpecValue) -> Outcome {
    match op {
        SpecToken::Plus => spec_add(a, b),
        SpecToken::Eq => spec_eq(a, b),
        SpecToken::NotEq => spec_not_eq(a, b),
        SpecToken::GT => spec_greater(a, b),
        SpecToken::LT => spec_less(a, b),
        SpecToken::Asterisk => spec_multi(a, b),
        _ => Ok(SpecValue::Null),
    }
}

/// What a call expression calls.
pub enum SpecCallee {
    Closure(Seq<Seq<char>>, Seq<SpecStmt>, nat),
    Native(Builtin),
    Fail(Seq<char>),
}

/// The callee of a call: a name looked up in scope `sc` (falling back to the native
/// functions when it is unbound), or a function literal, which closes over `sc`.
pub open spec fn resolve_callee(f: SpecExpr, env: SpecEnv, sc: nat) -> SpecCallee {
    match f {
        SpecExpr::Ident(n) => match lookup(env, sc, n) {
            Some(SpecValue::Function(ps, body, fsc)) => SpecCallee::Closure(ps, body, fsc),
            Some(_) => SpecCallee::Fail("not a function: "@ + n),
            None => match builtin_named(n) {
                Some(b) => SpecCallee::Native(b),
                None => SpecCallee::Fail("function not found: "@ + n),
            },
        },
        SpecExpr::Function(ps, body) => SpecCallee::Closure(ps, body, sc),
        _ => SpecCallee::Fail("invalid call expression."@),
    }
}

/// The environment after binding each parameter to its argument in scope `sc`.
pub open spec fn bind_all(env: SpecEnv, sc: nat, ps: Seq<Seq<char>>, vals: Seq<SpecValue>) -> SpecEnv
    decreases ps.len(),
{
    if ps.len() == 0 || vals.len() == 0 {
        env
    } else {
        bind(bind_all(env, sc, ps.drop_last(), vals.drop_last()), sc, ps.last(), vals.last())
    }
}

/// A function body's outcome seen from its caller: a return signal is unwrapped.
pub open spec fn unwrap_return(r: Outcome) -> Outcome {
    match r {
        Ok(SpecValue::Return(v)) => Ok(*v),
        other => other,
    }
}

/// Evaluates `e` in scope `sc`, with `fuel` further nested calls allowed.
pub open spec fn eval_expr(e: SpecExpr, env: SpecEnv, sc: nat, fuel: nat) -> (Outcome, SpecEnv)
    decreases fuel, e,
{
    match e {
        SpecExpr::Ident(n) => match lookup(env, sc, n) {
            Some(v) => (Ok(v), env),
            None => (Err(not_found_message(n)), env),
        },
        SpecExpr::Int(i) => (Ok(SpecValue::Int(i)), env),
        SpecExpr::Bool(b) => (Ok(SpecValue::Bool(b)), env),
        SpecExpr::Str(s) => (Ok(SpecValue::Str(s)), env),
        SpecExpr::Prefix(op, r) => {
            let (rv, env1) = eval_expr(*r, env, sc, fuel);
            match rv {
                Ok(v) => (spec_prefix(op, v), env1),
                Err(m) => (Err(m), env1),
            }
        },
        SpecExpr::Infix(l, op, r) => {
            let (lv, env1) = eval_expr(*l, env, sc, fuel);
            match lv {
                Ok(a) => {
                    let (rv, env2) = eval_expr(*r, env1, sc, fuel);
                    match rv {
                        Ok(b) => (spec_infix(op, a, b), env2),
                        Err(m) => (Err(m), env2),
                    }
                },
                Err(m) => (Err(m), env1),
            }
        },
        SpecExpr::If(c, cons, alt) => {
            let (cv, env1) = eval_expr(*c, env, sc, fuel);
            match cv {
                Ok(SpecValue::Bool(true)) => eval_block(cons, env1, sc, fuel),
                Ok(SpecValue::Bool(false)) => eval_block(alt, env1, sc, fuel),
                Ok(_) => (Err("Invalid 'if' condition."@), env1),
                Err(m) => (Err(m), env1),
            }
        },
        SpecExpr::Function(ps, body) => (Ok(SpecValue::Function(ps, body, sc)), env),
        SpecExpr::Call(f, args) => {
            let (ar, env1) = eval_args(args, env, sc, fuel);
            match ar {
                Err(m) => (Err(m), env1),
                Ok(vals) => match resolve_callee(*f, env1, sc) {
                    SpecCallee::Fail(m) => (Err(m), env1),
                    SpecCallee::Native(b) => (builtin_result(b, vals), env1),
                    SpecCallee::Closure(ps, body, fsc) => if ps.len() != vals.len() {
                        (Err(arity_message(ps.len(), vals.len())), env1)
                    } else if fuel == 0 {
                        (Err(depth_message()), env1)
                    } else {
                        let nsc = env1.parents.len();
                        let env2 = bind_all(open_scope(env1, fsc), nsc, ps, vals);
                        let (r, env3) = eval_block(body, env2, nsc, (fuel - 1) as nat);
                        (unwrap_return(r), env3)
                    },
                },
            }
        },
    }
}

/// Evaluates arguments left to right; the first error stops the rest.
pub open spec fn eval_args(args: Seq<SpecExpr>, env: SpecEnv, sc: nat, fuel: nat) -> (
    Result<Seq<SpecValue>, Seq<char>>,
    SpecEnv,
)
    decreases fuel, args,
{
    if args.len() == 0 {
        (Ok(Seq::empty()), env)
    } else {
        let (r, env1) = eval_expr(args[0], env, sc, fuel);
        match r {
            Err(m) => (Err(m), env1),
            Ok(v) => {
                let (rest, env2) = eval_args(args.subrange(1, args.len() as int), env1, sc, fuel);
                (
                    match rest {
                        Ok(vs) => Ok(seq![v] + vs),
                        Err(m) => Err(m),
                    },
                    env2,
                )
            },
        }
    }
}

/// Evaluates a statement: `let` binds in scope `sc` and gives null, `return` wraps
/// its value in a return signal.
pub open spec fn eval_stmt(s: SpecStmt, env: SpecEnv, sc: nat, fuel: nat) -> (Outcome, SpecEnv)
    decreases fuel, s,
{
    match s {
        SpecStmt::Let(n, e) => {
            let (r, env1) = eval_expr(e, env, sc, fuel);
            match r {
                Ok(v) => (Ok(SpecValue::Null), bind(env1, sc, n, v)),
                Err(m) => (Err(m), env1),
            }
        },
        SpecStmt::Return(e) => {
            let (r, env1) = eval_expr(e, env, sc, fuel);
            match r {
                Ok(v) => (Ok(SpecValue::Return(Box::new(v))), env1),
                Err(m) => (Err(m), env1),
            }
        },
        SpecStmt::Expr(e) => eval_expr(e, env, sc, fuel),
    }
}

/// Evaluates statements in order; the outcome is the last statement's, and a
/// return signal or an error stops the rest (the signal is passed on as it is).
/// No statements give null.
pub open spec fn eval_block(ss: Seq<SpecStmt>, env: SpecEnv, sc: nat, fuel: nat) -> (Outcome, SpecEnv)
    decreases fuel, ss,
{
    if ss.len() == 0 {
        (Ok(SpecValue::Null), env)
    } else {
        let (r, env1) = eval_stmt(ss[0], env, sc, fuel);
        match r {
            Err(m) => (Err(m), env1),
            Ok(v) => if v is Return || ss.len() == 1 {
                (Ok(v), env1)
            } else {
                eval_block(ss.subrange(1, ss.len() as int), env1, sc, fuel)
            },
        }
    }
}

/// Runs a program in the outermost scope: a return signal is unwrapped and ends the
/// run, and a runtime error becomes an error value.
pub open spec fn run_program(ss: Seq<SpecStmt>, env: SpecEnv) -> (SpecValue, SpecEnv) {
    let (r, env1) = eval_block(ss, env, global_scope(), MAX_CALL_DEPTH as nat);
    (
        match r {
            Ok(SpecValue::Return(v)) => *v,
            Ok(v) => v,
            Err(m) => SpecValue::Error(m),
        },
        env1,
    )
}

/// What a call expression calls, in executable form.
enum Callee {
    Closure(Vec<Ident>, Vec<Statement>, usize),
    Native(Builtin),
    Fail(String),
}

spec fn callee_view(c: Callee) -> SpecCallee {
    match c {
        Callee::Closure(ps, body, fsc) => SpecCallee::Closure(
            idents_view(ps@),
            stmts_view(body@),
            fsc as nat,
        ),
        Callee::Native(b) => SpecCallee::Native(b),
        Callee::Fail(m) => SpecCallee::Fail(m@),
    }
}

fn message(prefix: &str, name: &str) -> (r: String)
    ensures
        r@ == prefix@ + name@,
{
    let mut m = String::new();
    push_text(&mut m, prefix);
    push_text(&mut m, name);
    assert(m@ =~= prefix@ + name@);
    m
}

fn resolve(env: &Environment, f: &Expression, sc: usize) -> (r: Callee)
    ensures
        callee_view(r) == resolve_callee(f@, env@, sc as nat),
{
    match f {
        Expression::Identifier(id) => {
            let name = id.0.as_str();
            match env.lookup(sc, name) {
                Some(ObjectWrapper::FunctionObject(ps, body, fsc)) => Callee::Closure(
                    copy_idents(ps),
                    copy_stmts(body),
                    *fsc,
                ),
                Some(_) => Callee::Fail(message("not a function: ", name)),
                None => match Builtins::instance_ref().get(name) {
                    Some(b) => Callee::Native(b),
                    None => Callee::Fail(message("function not found: ", name)),
                },
            }
        },
        Expression::FunctionExpression(ps, body) => Callee::Closure(
            copy_idents(ps),
            copy_stmts(body),
            sc,
        ),
        _ => Callee::Fail("invalid call expression.".to_owned()),
    }
}

fn prefix_value(op: &Token, v: ObjectWrapper) -> (r: Result<ObjectWrapper, String>)
    ensures
        outcome_view(r) == spec_prefix(op@, v@),
{
    match op {
        Token::Bang => match v {
            ObjectWrapper::Boolean(b) => Ok(ObjectWrapper::Boolean(!b)),
            ObjectWrapper::Integer(i) => Ok(ObjectWrapper::Boolean(i == 0)),
            _ => Ok(ObjectWrapper::Boolean(false)),
        },
        Token::Minus => match v {
            ObjectWrapper::Integer(i) => if i == i64::MIN {
                Err("integer overflow".to_owned())
            } else {
                Ok(ObjectWrapper::Integer(-i))
            },
            _ => {
                let mut m = String::new();
                push_text(&mut m, "cannot eval type ");
                push_text(&mut m, v.type_str());
                push_text(&mut m, " after '-'.");
                assert(m@ =~= "cannot eval type "@ + kind_name(v@) + " after '-'."@);
                Err(m)
            },
        },
        _ => Ok(ObjectWrapper::Null),
    }
}

fn infix_value(op: &Token, a: &ObjectWrapper, b: &ObjectWrapper) -> (r: Result<ObjectWrapper, String>)
    ensures
        outcome_view(r) == spec_infix(op@, a@, b@),
{
    match op {
        Token::Plus => a.add(b),
        Token::Eq => a.eq(b),
        Token::NotEq => a.not_eq(b),
        Token::GT => a.great_than(b),
        Token::LT => a.less_than(b),
        Token::Asterisk => a.multi(b),
        _ => Ok(ObjectWrapper::Null),
    }
}

proof fn lemma_exprs_view_index(v: Seq<Expression>, i: int)
    requires
        0 <= i < v.len(),
    ensures
        exprs_view(v)[i] == v[i]@,
        exprs_view(v).len() == v.len(),
    decreases v.len(),
{
    lemma_exprs_view_len(v);
    if i < v.len() - 1 {
        lemma_exprs_view_index(v.drop_last(), i);
    }
}

proof fn lemma_stmts_view_index(v: Seq<Statement>, i: int)
    requires
        0 <= i < v.len(),
    ensures
        stmts_view(v)[i] == v[i]@,
        stmts_view(v).len() == v.len(),
    decreases v.len(),
{
    lemma_stmts_view_len(v);
    if i < v.len() - 1 {
        lemma_stmts_view_index(v.drop_last(), i);
    }
}

/// Prepends values already computed to the outcome of evaluating the remaining
/// arguments.
spec fn prepend(
    acc: Seq<SpecValue>,
    x: (Result<Seq<SpecValue>, Seq<char>>, SpecEnv),
) -> (Result<Seq<SpecValue>, Seq<char>>, SpecEnv) {
    (
        match x.0 {
            Ok(vs) => Ok(acc + vs),
            Err(m) => Err(m),
        },
        x.1,
    )
}

proof fn lemma_prepend_push(
    acc: Seq<SpecValue>,
    v: SpecValue,
    x: (Result<Seq<SpecValue>, Seq<char>>, SpecEnv),
)
    ensures
        prepend(acc, prepend(seq![v], x)) == prepend(acc.push(v), x),
{
    match x.0 {
        Ok(vs) => {
            assert(acc + (seq![v] + vs) =~= acc.push(v) + vs);
        },
        Err(m) => {},
    }
}

fn eval_arguments(env: &mut Environment, args: &Vec<Expression>, sc: usize, fuel: usize) -> (r:
    Result<Vec<ObjectWrapper>, String>)
    ensures
        ({
            let (sr, senv) = eval_args(exprs_view(args@), old(env)@, sc as nat, fuel as nat);
            &&& final(env)@ == senv
            &&& match (r, sr) {
                (Ok(vs), Ok(svs)) => values_view(vs@) == svs,
                (Err(m), Err(sm)) => m@ == sm,
                _ => false,
            }
        }),
    decreases fuel, args,
{
    let ghost ev = exprs_view(args@);
    let ghost env0 = env@;
    proof {
        lemma_exprs_view_len(args@);
        assert(ev.subrange(0, ev.len() as int) =~= ev);
        assert(prepend(Seq::empty(), eval_args(ev, env0, sc as nat, fuel as nat)) == eval_args(
            ev,
            env0,
            sc as nat,
            fuel as nat,
        )) by {
            let x = eval_args(ev, env0, sc as nat, fuel as nat);
            match x.0 {
                Ok(vs) => {
                    assert(Seq::<SpecValue>::empty() + vs =~= vs);
                },
                Err(m) => {},
            }
        }
    }
    let mut vals: Vec<ObjectWrapper> = Vec::new();
    let mut i: usize = 0;
    while i < args.len()
        invariant
            i <= args@.len(),
            env0 == old(env)@,
            ev == exprs_view(args@),
            ev.len() == args@.len(),
            eval_args(ev, env0, sc as nat, fuel as nat) == prepend(
                values_view(vals@),
                eval_args(ev.subrange(i as int, ev.len() as int), env@, sc as nat, fuel as nat),
            ),
        decreases args@.len() - i,
    {
        let ghost rest = ev.subrange(i as int, ev.len() as int);
        proof {
            lemma_exprs_view_index(args@, i as int);
            assert(rest[0] == ev[i as int]);
            assert(rest.subrange(1, rest.len() as int) =~= ev.subrange(i + 1, ev.len() as int));
            assert(decreases_to!(*args => args@));
            assert(decreases_to!(args@ => args@[i as int]));
        }
        let ghost env_i = env@;
        let r = eval_expression(env, &args[i], sc, fuel);
        match r {
            Err(m) => {
                assert(eval_args(rest, env_i, sc as nat, fuel as nat) == (
                    Err::<Seq<SpecValue>, Seq<char>>(m@),
                    env@,
                ));
                return Err(m);
            },
            Ok(v) => {
                proof {
                    lemma_prepend_push(
                        values_view(vals@),
                        v@,
                        eval_args(ev.subrange(i + 1, ev.len() as int), env@, sc as nat, fuel as nat),
                    );
                    assert(values_view(vals@.push(v)) =~= values_view(vals@).push(v@));
                }
                vals.push(v);
            },
        }
        i = i + 1;
    }
    proof {
        assert(ev.subrange(i as int, ev.len() as int) =~= Seq::<SpecExpr>::empty());
        assert(values_view(vals@) + Seq::<SpecValue>::empty() =~= values_view(vals@));
    }
    Ok(vals)
}

fn eval_statement(env: &mut Environment, st: &Statement, sc: usize, fuel: usize) -> (r: Result<
    ObjectWrapper,
    String,
>)
    ensures
        (outcome_view(r), final(env)@) == eval_stmt(st@, old(env)@, sc as nat, fuel as nat),
    decreases fuel, st,
{
    match st {
        Statement::LetStatement(id, e) => {
            let v = eval_expression(env, e, sc, fuel)?;
            env.bind(sc, id.0.clone(), v);
            Ok(ObjectWrapper::Null)
        },
        Statement::ReturnStatement(e) => {
            let v = eval_expression(env, e, sc, fuel)?;
            Ok(ObjectWrapper::ReturnValue(Box::new(v)))
        },
        Statement::ExpressionStatement(e) => eval_expression(env, e, sc, fuel),
    }
}

fn eval_statements(env: &mut Environment, ss: &Vec<Statement>, sc: usize, fuel: usize) -> (r:
    Result<ObjectWrapper, String>)
    ensures
        (outcome_view(r), final(env)@) == eval_block(
            stmts_view(ss@),
            old(env)@,
            sc as nat,
            fuel as nat,
        ),
    decreases fuel, ss,
{
    let ghost sv = stmts_view(ss@);
    let ghost env0 = env@;
    proof {
        lemma_stmts_view_len(ss@);
        assert(sv.subrange(0, sv.len() as int) =~= sv);
    }
    if ss.len() == 0 {
        return Ok(ObjectWrapper::Null);
    }
    let mut i: usize = 0;
    loop
        invariant
            i < ss@.len(),
            env0 == old(env)@,
            sv == stmts_view(ss@),
            sv.len() == ss@.len(),
            eval_block(sv, env0, sc as nat, fuel as nat) == eval_block(
                sv.subrange(i as int, sv.len() as int),
                env@,
                sc as nat,
                fuel as nat,
            ),
        decreases ss@.len() - i,
    {
        let ghost rest = sv.subrange(i as int, sv.len() as int);
        proof {
            lemma_stmts_view_index(ss@, i as int);
            assert(rest[0] == sv[i as int]);
            assert(rest.subrange(1, rest.len() as int) =~= sv.subrange(i + 1, sv.len() as int));
            assert(decreases_to!(*ss => ss@));
            assert(decreases_to!(ss@ => ss@[i as int]));
        }
        let ghost env_i = env@;
        let r = eval_statement(env, &ss[i], sc, fuel);
        match r {
            Err(m) => {
                assert(eval_block(rest, env_i, sc as nat, fuel as nat) == (
                    Err::<SpecValue, Seq<char>>(m@),
                    env@,
                ));
                return Err(m);
            },
            Ok(v) => {
                if matches!(v, ObjectWrapper::ReturnValue(_)) || i == ss.len() - 1 {
                    assert(eval_block(rest, env_i, sc as nat, fuel as nat) == (
                        Ok::<SpecValue, Seq<char>>(v@),
                        env@,
                    ));
                    return Ok(v);
                }
            },
        }
        i = i + 1;
    }
}

fn bind_parameters(
    env: &mut Environment,
    sc: usize,
    ps: &Vec<Ident>,
    vals: Vec<ObjectWrapper>,
)
    requires
        ps@.len() == vals@.len(),
    ensures
        final(env)@ == bind_all(old(env)@, sc as nat, idents_view(ps@), values_view(vals@)),
{
    let ghost env0 = env@;
    let ghost pv = idents_view(ps@);
    let ghost vv = values_view(vals@);
    let mut rest = vals;
    let mut taken: Vec<ObjectWrapper> = Vec::new();
    let mut i: usize = 0;
    proof {
        assert(rest@ =~= vals@.subrange(0, vals@.len() as int));
    }
    while i < ps.len()
        invariant
            ps@.len() == vals@.len(),
            i <= ps@.len(),
            pv == idents_view(ps@),
            vv == values_view(vals@),
            rest@ == vals@.subrange(i as int, vals@.len() as int),
            env@ == bind_all(
                env0,
                sc as nat,
                pv.subrange(0, i as int),
                vv.subrange(0, i as int),
            ),
        decreases ps@.len() - i,
    {
        let v = rest.remove(0);
        proof {
            assert(v == vals@[i as int]);
            assert(rest@ =~= vals@.subrange(i + 1, vals@.len() as int));
            let names = pv.subrange(0, i + 1);
            let values = vv.subrange(0, i + 1);
            assert(names.drop_last() =~= pv.subrange(0, i as int));
            assert(values.drop_last() =~= vv.subrange(0, i as int));
            assert(names.last() == ps@[i as int].0@);
            assert(values.last() == v@);
        }
        env.bind(sc, ps[i].0.clone(), v);
        i = i + 1;
    }
    proof {
        assert(pv.subrange(0, i as int) =~= pv);
        assert(vv.subrange(0, i as int) =~= vv);
    }
}

/// Evaluates `e` in scope `sc` of `env`, with `fuel` further nested calls allowed.
pub fn eval_expression(env: &mut Environment, e: &Expression, sc: usize, fuel: usize) -> (r: Result<
    ObjectWrapper,
    String,
>)
    ensures
        (outcome_view(r), final(env)@) == eval_expr(e@, old(env)@, sc as nat, fuel as nat),
    decreases fuel, e,
{
    match e {
        Expression::Identifier(id) => match env.lookup(sc, id.0.as_str()) {
            Some(v) => Ok(v.duplicate()),
            None => Err(message("identifier not found: ", id.0.as_str())),
        },
        Expression::IntLiteral(i) => Ok(ObjectWrapper::Integer(*i)),
        Expression::BoolLiteral(b) => Ok(ObjectWrapper::Boolean(*b)),
        Expression::StringLiteral(s) => Ok(ObjectWrapper::String(s.clone())),
        Expression::PrefixExpression(op, r) => {
            let v = eval_expression(env, r, sc, fuel)?;
            prefix_value(op, v)
        },
        Expression::InfixExpression(l, op, r) => {
            let a = eval_expression(env, l, sc, fuel)?;
            let b = eval_expression(env, r, sc, fuel)?;
            infix_value(op, &a, &b)
        },
        Expression::IfExpression(c, cons, alt) => {
            let cv = eval_expression(env, c, sc, fuel)?;
            match cv {
                ObjectWrapper::Boolean(true) => eval_statements(env, cons, sc, fuel),
                ObjectWrapper::Boolean(false) => eval_statements(env, alt, sc, fuel),
                _ => Err("Invalid 'if' condition.".to_owned()),
            }
        },
        Expression::FunctionExpression(ps, body) => Ok(
            ObjectWrapper::FunctionObject(copy_idents(ps), copy_stmts(body), sc),
        ),
        Expression::CallExpression(f, args) => {
            let vals = eval_arguments(env, args, sc, fuel)?;
            match resolve(env, f, sc) {
                Callee::Fail(m) => Err(m),
                Callee::Native(b) => b.call(&vals),
                Callee::Closure(ps, body, fsc) => {
                    if ps.len() != vals.len() {
                        let mut m = String::new();
                        push_text(&mut m, "Invalid params, expect ");
                        let a = usize_to_decimal(ps.len());
                        push_text(&mut m, a.as_str());
                        push_text(&mut m, " got ");
                        let b = usize_to_decimal(vals.len());
                        push_text(&mut m, b.as_str());
                        proof {
                            lemma_values_view_len(vals@);
                        }
                        assert(m@ =~= arity_message(
                            idents_view(ps@).len(),
                            values_view(vals@).len(),
                        ));
                        return Err(m);
                    }
                    if fuel == 0 {
                        return Err("call depth limit exceeded".to_owned());
                    }
                    let nsc = env.open_scope(fsc);
                    proof {
                        lemma_values_view_len(vals@);
                    }
                    bind_parameters(env, nsc, &ps, vals);
                    let r = eval_statements(env, &body, nsc, fuel - 1);
                    match r {
                        Ok(ObjectWrapper::ReturnValue(v)) => Ok(*v),
                        other => other,
                    }
                },
            }
        },
    }
}

proof fn lemma_values_view_len(v: Seq<ObjectWrapper>)
    ensures
        values_view(v).len() == v.len(),
{
}

/// Runs a sequence of statements against an environment.
pub struct Evaluator<'a> {
    statements: &'a Vec<Statement>,
    env: Environment,
}

impl<'a> Evaluator<'a> {
    /// The statements to run.
    pub closed spec fn program(&self) -> Seq<SpecStmt> {
        stmts_view(self.statements@)
    }

    /// The environment the statements run against.
    pub closed spec fn environment(&self) -> SpecEnv {
        self.env@
    }

    /// An evaluator with a fresh, empty environment.
    pub fn new(statements: &'a Vec<Statement>) -> (r: Self)
        ensures
            r.program() == stmts_view(statements@),
            r.environment() == crate::environment::fresh_env(),
    {
        Evaluator { statements, env: Environment::new() }
    }

    /// An evaluator that continues a session: `env` holds earlier bindings.
    pub fn with_env(statements: &'a Vec<Statement>, env: Environment) -> (r: Self)
        ensures
            r.program() == stmts_view(statements@),
            r.environment() == env@,
    {
        Evaluator { statements, env }
    }

    /// Runs the statements. A runtime error is reported as an error value, so this
    /// always succeeds.
    pub fn eval(&mut self) -> (r: Result<ObjectWrapper, ParseError>)
        ensures
            final(self).program() == old(self).program(),
            r is Ok,
            (r->Ok_0@, final(self).environment()) == run_program(
                old(self).program(),
                old(self).environment(),
            ),
    {
        let r = eval_statements(&mut self.env, self.statements, 0, MAX_CALL_DEPTH);
        match r {
            Ok(ObjectWrapper::ReturnValue(v)) => Ok(*v),
            Ok(v) => Ok(v),
            Err(m) => Ok(ObjectWrapper::ErrorObject(m)),
        }
    }

    /// The environment, with the bindings the statements made.
    pub fn into_env(self) -> (r: Environment)
        ensures
            r@ == self.environment(),
    {
        self.env
    }
}

} // verus!
