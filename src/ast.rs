use vstd::prelude::*;
use crate::text::{decimal, int_to_decimal, push_text};
use crate::token::{SpecToken, Token, operator_text};

verus! {

broadcast use vstd::std_specs::vec::group_vec_axioms, vstd::seq::group_seq_axioms;

/// The name of a variable or parameter.
#[derive(PartialEq, Debug, Clone, Eq)]
pub struct Ident(pub String);

#[derive(PartialEq, Debug, Eq)]
pub enum Statement {
    LetStatement(Ident, Expression),
    ReturnStatement(Expression),
    ExpressionStatement(Expression),
}

#[derive(PartialEq, Debug, Eq)]
pub enum Expression {
    Identifier(Ident),
    /// Condition, consequence and alternative; the alternative may be empty.
    IfExpression(Box<Expression>, Vec<Statement>, Vec<Statement>),
    /// Callee and arguments.
    CallExpression(Box<Expression>, Vec<Expression>),
    /// Parameters and body.
    FunctionExpression(Vec<Ident>, Vec<Statement>),
    IntLiteral(i64),
    BoolLiteral(bool),
    StringLiteral(String),
    PrefixExpression(Token, Box<Expression>),
    /// Left operand, operator, right operand.
    InfixExpression(Box<Expression>, Token, Box<Expression>),
}

/// The mathematical model of an expression.
pub enum SpecExpr {
    Ident(Seq<char>),
    If(Box<SpecExpr>, Seq<SpecStmt>, Seq<SpecStmt>),
    Call(Box<SpecExpr>, Seq<SpecExpr>),
    Function(Seq<Seq<char>>, Seq<SpecStmt>),
    Int(i64),
    Bool(bool),
    Str(Seq<char>),
    Prefix(SpecToken, Box<SpecExpr>),
    Infix(Box<SpecExpr>, SpecToken, Box<SpecExpr>),
}

/// The mathematical model of a statement.
pub enum SpecStmt {
    Let(Seq<char>, SpecExpr),
    Return(SpecExpr),
    Expr(SpecExpr),
}

pub open spec fn idents_view(v: Seq<Ident>) -> Seq<Seq<char>> {
    Seq::new(v.len(), |i: int| v[i].0@)
}

pub open spec fn expr_view(e: Expression) -> SpecExpr
    decreases e,
{
    match e {
        Expression::Identifier(id) => SpecExpr::Ident(id.0@),
        Expression::IfExpression(c, cons, alt) => SpecExpr::If(
            Box::new(expr_view(*c)),
            stmts_view(cons@),
            stmts_view(alt@),
        ),
        Expression::CallExpression(f, args) => SpecExpr::Call(
            Box::new(expr_view(*f)),
            exprs_view(args@),
        ),
        Expression::FunctionExpression(params, body) => SpecExpr::Function(
            idents_view(params@),
            stmts_view(body@),
        ),
        Expression::IntLiteral(v) => SpecExpr::Int(v),
        Expression::BoolLiteral(b) => SpecExpr::Bool(b),
        Expression::StringLiteral(s) => SpecExpr::Str(s@),
        Expression::PrefixExpression(op, r) => SpecExpr::Prefix(op@, Box::new(expr_view(*r))),
        Expression::InfixExpression(l, op, r) => SpecExpr::Infix(
            Box::new(expr_view(*l)),
            op@,
            Box::new(expr_view(*r)),
        ),
    }
}

pub open spec fn exprs_view(v: Seq<Expression>) -> Seq<SpecExpr>
    decreases v,
{
    if v.len() == 0 {
        Seq::empty()
    } else {
        exprs_view(v.drop_last()).push(expr_view(v.last()))
    }
}

pub open spec fn stmt_view(s: Statement) -> SpecStmt
    decreases s,
{
    match s {
        Statement::LetStatement(id, e) => SpecStmt::Let(id.0@, expr_view(e)),
        Statement::ReturnStatement(e) => SpecStmt::Return(expr_view(e)),
        Statement::ExpressionStatement(e) => SpecStmt::Expr(expr_view(e)),
    }
}

pub open spec fn stmts_view(v: Seq<Statement>) -> Seq<SpecStmt>
    decreases v,
{
    if v.len() == 0 {
        Seq::empty()
    } else {
        stmts_view(v.drop_last()).push(stmt_view(v.last()))
    }
}

impl View for Expression {
    type V = SpecExpr;

    open spec fn view(&self) -> SpecExpr {
        expr_view(*self)
    }
}

impl View for Statement {
    type V = SpecStmt;

    open spec fn view(&self) -> SpecStmt {
        stmt_view(*self)
    }
}

/// Binding strength of operators, from weakest to strongest.
#[derive(PartialEq, Eq, Structural, Debug, Clone, Copy)]
pub enum Precedence {
    Lowest,
    Equals,
    LessGreater,
    Sum,
    Product,
    Prefix,
    Call,
}

/// The numeric rank of a precedence level.
pub open spec fn rank(p: Precedence) -> int {
    match p {
        Precedence::Lowest => 0,
        Precedence::Equals => 1,
        Precedence::LessGreater => 2,
        Precedence::Sum => 3,
        Precedence::Product => 4,
        Precedence::Prefix => 5,
        Precedence::Call => 6,
    }
}

/// The level of a rank; ranks out of range are `Lowest`.
pub open spec fn level(v: int) -> Precedence {
    if v == 1 {
        Precedence::Equals
    } else if v == 2 {
        Precedence::LessGreater
    } else if v == 3 {
        Precedence::Sum
    } else if v == 4 {
        Precedence::Product
    } else if v == 5 {
        Precedence::Prefix
    } else if v == 6 {
        Precedence::Call
    } else {
        Precedence::Lowest
    }
}

/// The level of a shifted rank: at or above the top it is `Call`.
pub open spec fn shifted(v: int) -> Precedence {
    if v >= 6 {
        Precedence::Call
    } else {
        level(v)
    }
}

/// How strongly a token binds as an operator that follows an expression.
pub open spec fn token_precedence(t: SpecToken) -> Precedence {
    match t {
        SpecToken::Eq | SpecToken::NotEq => Precedence::Equals,
        SpecToken::LT | SpecToken::GT => Precedence::LessGreater,
        SpecToken::Plus | SpecToken::Minus => Precedence::Sum,
        SpecToken::Slash | SpecToken::Asterisk => Precedence::Product,
        SpecToken::LParen => Precedence::Call,
        _ => Precedence::Lowest,
    }
}

impl Precedence {
    pub fn from_token(token: &Token) -> (r: Precedence)
        ensures
            r == token_precedence(token@),
    {
        match token {
            Token::Eq | Token::NotEq => Precedence::Equals,
            Token::LT | Token::GT => Precedence::LessGreater,
            Token::Plus | Token::Minus => Precedence::Sum,
            Token::Slash | Token::Asterisk => Precedence::Product,
            Token::LParen => Precedence::Call,
            _ => Precedence::Lowest,
        }
    }

    pub fn to_i32(&self) -> (r: i32)
        ensures
            r == rank(*self),
    {
        match self {
            Precedence::Lowest => 0,
            Precedence::Equals => 1,
            Precedence::LessGreater => 2,
            Precedence::Sum => 3,
            Precedence::Product => 4,
            Precedence::Prefix => 5,
            Precedence::Call => 6,
        }
    }

    pub fn from_i32(v: i32) -> (r: Precedence)
        ensures
            r == level(v as int),
    {
        if v == 1 {
            Precedence::Equals
        } else if v == 2 {
            Precedence::LessGreater
        } else if v == 3 {
            Precedence::Sum
        } else if v == 4 {
            Precedence::Product
        } else if v == 5 {
            Precedence::Prefix
        } else if v == 6 {
            Precedence::Call
        } else {
            Precedence::Lowest
        }
    }

    /// The level `v` ranks below this one.
    pub fn sub(&self, v: i32) -> (r: Precedence)
        ensures
            r == shifted(rank(*self) - v),
    {
        let val = self.to_i32() as i64 - v as i64;
        if val >= 6 {
            Precedence::Call
        } else if val < 0 {
            Precedence::Lowest
        } else {
            Precedence::from_i32(val as i32)
        }
    }

    /// The level `v` ranks above this one.
    pub fn add(&self, v: i32) -> (r: Precedence)
        ensures
            r == shifted(rank(*self) + v),
    {
        let val = self.to_i32() as i64 + v as i64;
        if val >= 6 {
            Precedence::Call
        } else if val < 0 {
            Precedence::Lowest
        } else {
            Precedence::from_i32(val as i32)
        }
    }
}

pub open spec fn bool_text(b: bool) -> Seq<char> {
    if b {
        seq!['t', 'r', 'u', 'e']
    } else {
        seq!['f', 'a', 'l', 's', 'e']
    }
}

/// The fully parenthesized writing of an expression: every prefix and infix
/// operation is enclosed in parentheses, strings are quoted, and conditionals and
/// function literals are written with their blocks.
pub open spec fn render_expr(e: SpecExpr) -> Seq<char>
    decreases e,
{
    match e {
        SpecExpr::Ident(n) => n,
        SpecExpr::Int(v) => decimal(v as int),
        SpecExpr::Bool(b) => bool_text(b),
        SpecExpr::Str(s) => seq!['"'] + s + seq!['"'],
        SpecExpr::Prefix(op, r) => seq!['('] + operator_text(op) + render_expr(*r) + seq![')'],
        SpecExpr::Infix(l, op, r) => seq!['('] + render_expr(*l) + seq![' '] + operator_text(op)
            + seq![' '] + render_expr(*r) + seq![')'],
        SpecExpr::Call(f, args) => render_expr(*f) + seq!['('] + render_args(args) + seq![')'],
        SpecExpr::If(c, cons, alt) => seq!['i', 'f', ' ', '('] + render_expr(*c) + seq![')', ' ']
            + render_block(cons) + if alt.len() == 0 {
            Seq::empty()
        } else {
            seq![' ', 'e', 'l', 's', 'e', ' '] + render_block(alt)
        },
        SpecExpr::Function(ps, body) => seq!['f', 'n', '('] + render_names(ps) + seq![')', ' ']
            + render_block(body),
    }
}

/// Arguments written one after another, separated by `", "`.
pub open spec fn render_args(args: Seq<SpecExpr>) -> Seq<char>
    decreases args,
{
    if args.len() == 0 {
        Seq::empty()
    } else if args.len() == 1 {
        render_expr(args[0])
    } else {
        render_args(args.drop_last()) + seq![',', ' '] + render_expr(args.last())
    }
}

/// Parameter names separated by `", "`.
pub open spec fn render_names(ps: Seq<Seq<char>>) -> Seq<char>
    decreases ps.len(),
{
    if ps.len() == 0 {
        Seq::empty()
    } else if ps.len() == 1 {
        ps[0]
    } else {
        render_names(ps.drop_last()) + seq![',', ' '] + ps.last()
    }
}

/// A block: its statements between braces.
pub open spec fn render_block(ss: Seq<SpecStmt>) -> Seq<char>
    decreases ss, 1nat,
{
    seq!['{', ' '] + render_stmts(ss) + seq![' ', '}']
}

pub open spec fn render_stmt(s: SpecStmt) -> Seq<char>
    decreases s,
{
    match s {
        SpecStmt::Let(n, e) => seq!['l', 'e', 't', ' '] + n + seq![' ', '=', ' '] + render_expr(e),
        SpecStmt::Return(e) => seq!['r', 'e', 't', 'u', 'r', 'n', ' '] + render_expr(e),
        SpecStmt::Expr(e) => render_expr(e),
    }
}

/// Statements written one after another, separated by `"; "`.
pub open spec fn render_stmts(ss: Seq<SpecStmt>) -> Seq<char>
    decreases ss, 0nat,
{
    if ss.len() == 0 {
        Seq::empty()
    } else if ss.len() == 1 {
        render_stmt(ss[0])
    } else {
        render_stmts(ss.drop_last()) + seq![';', ' '] + render_stmt(ss.last())
    }
}

fn push_bool(out: &mut String, b: bool)
    ensures
        final(out)@ == old(out)@ + bool_text(b),
{
    proof {
        reveal_strlit("true");
        reveal_strlit("false");
        assert("true"@ =~= bool_text(true));
        assert("false"@ =~= bool_text(false));
    }
    if b {
        push_text(out, "true");
    } else {
        push_text(out, "false");
    }
}

proof fn lemma_literals()
    ensures
        "("@ =~= seq!['('],
        ")"@ =~= seq![')'],
        " "@ =~= seq![' '],
        ", "@ =~= seq![',', ' '],
        "let "@ =~= seq!['l', 'e', 't', ' '],
        " = "@ =~= seq![' ', '=', ' '],
        ";"@ =~= seq![';'],
        "return "@ =~= seq!['r', 'e', 't', 'u', 'r', 'n', ' '],
        "\""@ =~= seq!['"'],
        "; "@ =~= seq![';', ' '],
        "{ "@ =~= seq!['{', ' '],
        " }"@ =~= seq![' ', '}'],
        "if ("@ =~= seq!['i', 'f', ' ', '('],
        ") "@ =~= seq![')', ' '],
        " else "@ =~= seq![' ', 'e', 'l', 's', 'e', ' '],
        "fn("@ =~= seq!['f', 'n', '('],
{
    reveal_strlit("\"");
    reveal_strlit("; ");
    reveal_strlit("{ ");
    reveal_strlit(" }");
    reveal_strlit("if (");
    reveal_strlit(") ");
    reveal_strlit(" else ");
    reveal_strlit("fn(");
    reveal_strlit("(");
    reveal_strlit(")");
    reveal_strlit(" ");
    reveal_strlit(", ");
    reveal_strlit("let ");
    reveal_strlit(" = ");
    reveal_strlit(";");
    reveal_strlit("return ");
}

pub proof fn lemma_exprs_view_len(v: Seq<Expression>)
    ensures
        exprs_view(v).len() == v.len(),
    decreases v.len(),
{
    if v.len() > 0 {
        lemma_exprs_view_len(v.drop_last());
    }
}

pub proof fn lemma_stmts_view_len(v: Seq<Statement>)
    ensures
        stmts_view(v).len() == v.len(),
    decreases v.len(),
{
    if v.len() > 0 {
        lemma_stmts_view_len(v.drop_last());
    }
}

pub(crate) fn copy_idents(v: &Vec<Ident>) -> (r: Vec<Ident>)
    ensures
        idents_view(r@) == idents_view(v@),
{
    let mut r: Vec<Ident> = Vec::new();
    let mut i: usize = 0;
    while i < v.len()
        invariant
            i <= v@.len(),
            r@.len() == i,
            forall|k: int| 0 <= k < i ==> r@[k].0@ == v@[k].0@,
        decreases v@.len() - i,
    {
        r.push(Ident(v[i].0.clone()));
        i = i + 1;
    }
    assert(idents_view(r@) =~= idents_view(v@));
    r
}

pub(crate) fn copy_stmts(v: &Vec<Statement>) -> (r: Vec<Statement>)
    ensures
        stmts_view(r@) == stmts_view(v@),
    decreases v,
{
    let mut r: Vec<Statement> = Vec::new();
    let mut i: usize = 0;
    while i < v.len()
        invariant
            i <= v@.len(),
            stmts_view(r@) == stmts_view(v@.subrange(0, i as int)),
        decreases v@.len() - i,
    {
        proof {
            assert(decreases_to!(*v => v@));
            assert(decreases_to!(v@ => v@[i as int]));
        }
        let s = v[i].deep_copy();
        proof {
            assert(v@.subrange(0, i + 1).drop_last() =~= v@.subrange(0, i as int));
            assert(r@.push(s).drop_last() =~= r@);
        }
        r.push(s);
        i = i + 1;
    }
    assert(v@.subrange(0, v@.len() as int) =~= v@);
    r
}

fn copy_exprs(v: &Vec<Expression>) -> (r: Vec<Expression>)
    ensures
        exprs_view(r@) == exprs_view(v@),
    decreases v,
{
    let mut r: Vec<Expression> = Vec::new();
    let mut i: usize = 0;
    while i < v.len()
        invariant
            i <= v@.len(),
            exprs_view(r@) == exprs_view(v@.subrange(0, i as int)),
        decreases v@.len() - i,
    {
        proof {
            assert(decreases_to!(*v => v@));
            assert(decreases_to!(v@ => v@[i as int]));
        }
        let e = v[i].deep_copy();
        proof {
            assert(v@.subrange(0, i + 1).drop_last() =~= v@.subrange(0, i as int));
            assert(r@.push(e).drop_last() =~= r@);
        }
        r.push(e);
        i = i + 1;
    }
    assert(v@.subrange(0, v@.len() as int) =~= v@);
    r
}

fn write_names(ps: &Vec<Ident>, out: &mut String)
    ensures
        final(out)@ == old(out)@ + render_names(idents_view(ps@)),
{
    proof {
        lemma_literals();
    }
    let ghost pv = idents_view(ps@);
    let mut i: usize = 0;
    assert(pv.subrange(0, 0) =~= Seq::<Seq<char>>::empty());
    while i < ps.len()
        invariant
            i <= ps@.len(),
            pv == idents_view(ps@),
            ", "@ =~= seq![',', ' '],
            out@ == old(out)@ + render_names(pv.subrange(0, i as int)),
        decreases ps@.len() - i,
    {
        let ghost prev = pv.subrange(0, i as int);
        let ghost next = pv.subrange(0, i + 1);
        proof {
            assert(next.drop_last() =~= prev);
            assert(next.last() == ps@[i as int].0@);
            if i == 0 {
                assert(next.len() == 1);
            }
        }
        if i > 0 {
            push_text(out, ", ");
        }
        push_text(out, ps[i].0.as_str());
        proof {
            if i == 0 {
                assert(render_names(next) == next[0]);
            }
            assert(out@ =~= old(out)@ + render_names(next));
        }
        i = i + 1;
    }
    assert(pv.subrange(0, i as int) =~= pv);
}

/// Writes a block, its statements between braces.
fn write_block(ss: &Vec<Statement>, out: &mut String)
    ensures
        final(out)@ == old(out)@ + render_block(stmts_view(ss@)),
    decreases ss, 1nat,
{
    proof {
        lemma_literals();
    }
    push_text(out, "{ ");
    write_stmts(ss, out);
    push_text(out, " }");
    assert(out@ =~= old(out)@ + render_block(stmts_view(ss@)));
}

/// Writes statements separated by `"; "`.
pub(crate) fn write_stmts(ss: &Vec<Statement>, out: &mut String)
    ensures
        final(out)@ == old(out)@ + render_stmts(stmts_view(ss@)),
    decreases ss, 0nat,
{
    let mut i: usize = 0;
    proof {
        lemma_stmts_view_len(ss@.subrange(0, 0));
        assert(stmts_view(ss@.subrange(0, 0)) =~= Seq::<SpecStmt>::empty());
    }
    while i < ss.len()
        invariant
            i <= ss@.len(),
            out@ == old(out)@ + render_stmts(stmts_view(ss@.subrange(0, i as int))),
        decreases ss@.len() - i,
    {
        proof {
            lemma_literals();
        }
        let ghost prev = ss@.subrange(0, i as int);
        let ghost next = ss@.subrange(0, i + 1);
        let ghost base = old(out)@;
        let ghost sv = stmt_view(ss@[i as int]);
        proof {
            assert(next.drop_last() =~= prev);
            lemma_stmts_view_len(prev);
            assert(stmts_view(next) == stmts_view(prev).push(sv));
            assert(stmts_view(next).drop_last() =~= stmts_view(prev));
            if i == 0 {
                assert(stmts_view(next) =~= seq![sv]);
            }
        }
        if i > 0 {
            push_text(out, "; ");
        }
        proof {
            assert(decreases_to!(*ss => ss@));
            assert(decreases_to!(ss@ => ss@[i as int]));
        }
        ss[i].write_to(out);
        proof {
            if i == 0 {
                assert(render_stmts(stmts_view(next)) == render_stmt(sv));
            } else {
                assert(render_stmts(stmts_view(next)) == render_stmts(stmts_view(prev)) + seq![
                    ';',
                    ' ',
                ] + render_stmt(sv));
            }
            assert(out@ =~= base + render_stmts(stmts_view(next)));
        }
        i = i + 1;
    }
    assert(ss@.subrange(0, i as int) =~= ss@);
}

impl Token {
    pub(crate) fn duplicate(&self) -> (r: Token)
        ensures
            r@ == self@,
    {
        match self {
            Token::Illegal => Token::Illegal,
            Token::EOF => Token::EOF,
            Token::Let => Token::Let,
            Token::Function => Token::Function,
            Token::If => Token::If,
            Token::Else => Token::Else,
            Token::Return => Token::Return,
            Token::Assign => Token::Assign,
            Token::Plus => Token::Plus,
            Token::Minus => Token::Minus,
            Token::Bang => Token::Bang,
            Token::Asterisk => Token::Asterisk,
            Token::Slash => Token::Slash,
            Token::LT => Token::LT,
            Token::GT => Token::GT,
            Token::Comma => Token::Comma,
            Token::Semicolon => Token::Semicolon,
            Token::Eq => Token::Eq,
            Token::NotEq => Token::NotEq,
            Token::LParen => Token::LParen,
            Token::RParen => Token::RParen,
            Token::LBracket => Token::LBracket,
            Token::RBracket => Token::RBracket,
            Token::LBrace => Token::LBrace,
            Token::RBrace => Token::RBrace,
            Token::Ident(s) => Token::Ident(s.clone()),
            Token::Bool(b) => Token::Bool(*b),
            Token::Int(i) => Token::Int(*i),
            Token::Float(s) => Token::Float(s.clone()),
            Token::String(s) => Token::String(s.clone()),
        }
    }
}

impl Statement {
    /// Writes the statement onto `out`, its expression fully parenthesized.
    fn write_to(&self, out: &mut String)
        ensures
            final(out)@ == old(out)@ + render_stmt(self@),
        decreases self,
    {
        proof {
            lemma_literals();
        }
        match self {
            Statement::LetStatement(id, e) => {
                push_text(out, "let ");
                push_text(out, id.0.as_str());
                push_text(out, " = ");
                e.write_to(out);
            },
            Statement::ReturnStatement(e) => {
                push_text(out, "return ");
                e.write_to(out);
            },
            Statement::ExpressionStatement(e) => e.write_to(out),
        }
        assert(out@ =~= old(out)@ + render_stmt(self@));
    }

    /// The statement written out, its expression fully parenthesized.
    pub fn to_string(&self) -> (r: String)
        ensures
            r@ == render_stmt(self@),
    {
        let mut out = String::new();
        self.write_to(&mut out);
        assert(out@ =~= render_stmt(self@));
        out
    }

    /// A copy of the statement, node for node.
    pub fn deep_copy(&self) -> (r: Statement)
        ensures
            r@ == self@,
        decreases self,
    {
        match self {
            Statement::LetStatement(id, e) => Statement::LetStatement(
                Ident(id.0.clone()),
                e.deep_copy(),
            ),
            Statement::ReturnStatement(e) => Statement::ReturnStatement(e.deep_copy()),
            Statement::ExpressionStatement(e) => Statement::ExpressionStatement(e.deep_copy()),
        }
    }
}

impl Expression {
    /// A copy of the expression, node for node.
    pub fn deep_copy(&self) -> (r: Expression)
        ensures
            r@ == self@,
        decreases self,
    {
        match self {
            Expression::Identifier(id) => Expression::Identifier(Ident(id.0.clone())),
            Expression::IfExpression(c, cons, alt) => {
                let c2 = c.deep_copy();
                let cons2 = copy_stmts(cons);
                let alt2 = copy_stmts(alt);
                Expression::IfExpression(Box::new(c2), cons2, alt2)
            },
            Expression::CallExpression(f, args) => {
                let f2 = f.deep_copy();
                let args2 = copy_exprs(args);
                Expression::CallExpression(Box::new(f2), args2)
            },
            Expression::FunctionExpression(params, body) => {
                let params_copy = copy_idents(params);
                let body_copy = copy_stmts(body);
                Expression::FunctionExpression(params_copy, body_copy)
            },
            Expression::IntLiteral(v) => Expression::IntLiteral(*v),
            Expression::BoolLiteral(b) => Expression::BoolLiteral(*b),
            Expression::StringLiteral(s) => Expression::StringLiteral(s.clone()),
            Expression::PrefixExpression(op, r) => {
                let r2 = r.deep_copy();
                Expression::PrefixExpression(op.duplicate(), Box::new(r2))
            },
            Expression::InfixExpression(l, op, r) => {
                let l2 = l.deep_copy();
                let r2 = r.deep_copy();
                Expression::InfixExpression(Box::new(l2), op.duplicate(), Box::new(r2))
            },
        }
    }

    /// Writes the expression fully parenthesized onto `out`.
    fn write_to(&self, out: &mut String)
        ensures
            final(out)@ == old(out)@ + render_expr(self@),
        decreases self,
    {
        proof {
            lemma_literals();
        }
        match self {
            Expression::Identifier(id) => push_text(out, id.0.as_str()),
            Expression::IntLiteral(v) => {
                let d = int_to_decimal(*v);
                push_text(out, d.as_str());
            },
            Expression::BoolLiteral(b) => push_bool(out, *b),
            Expression::StringLiteral(s) => {
                push_text(out, "\"");
                push_text(out, s.as_str());
                push_text(out, "\"");
            },
            Expression::IfExpression(c, cons, alt) => {
                push_text(out, "if (");
                c.write_to(out);
                push_text(out, ") ");
                write_block(cons, out);
                if alt.len() > 0 {
                    push_text(out, " else ");
                    write_block(alt, out);
                } else {
                    proof {
                        lemma_stmts_view_len(alt@);
                    }
                }
            },
            Expression::FunctionExpression(ps, body) => {
                push_text(out, "fn(");
                write_names(ps, out);
                push_text(out, ") ");
                write_block(body, out);
            },
            Expression::PrefixExpression(op, r) => {
                push_text(out, "(");
                let o = op.to_string();
                push_text(out, o.as_str());
                r.write_to(out);
                push_text(out, ")");
            },
            Expression::InfixExpression(l, op, r) => {
                push_text(out, "(");
                l.write_to(out);
                push_text(out, " ");
                let o = op.to_string();
                push_text(out, o.as_str());
                push_text(out, " ");
                r.write_to(out);
                push_text(out, ")");
            },
            Expression::CallExpression(f, args) => {
                f.write_to(out);
                push_text(out, "(");
                let mut i: usize = 0;
                while i < args.len()
                    invariant
                        i <= args@.len(),
                        *self is CallExpression,
                        (*self)->CallExpression_1 == *args,
                        out@ == old(out)@ + render_expr(expr_view(**f)) + seq!['(']
                            + render_args(exprs_view(args@.subrange(0, i as int))),
                    decreases args@.len() - i,
                {
                    let ghost prev = args@.subrange(0, i as int);
                    let ghost next = args@.subrange(0, i + 1);
                    let ghost base = old(out)@ + render_expr(expr_view(**f)) + seq!['('];
                    let ghost ev = expr_view(args@[i as int]);
                    proof {
                        lemma_literals();
                        assert(next.drop_last() =~= prev);
                        lemma_exprs_view_len(prev);
                        assert(exprs_view(next) == exprs_view(prev).push(ev));
                        assert(exprs_view(next).drop_last() =~= exprs_view(prev));
                        if i == 0 {
                            assert(exprs_view(next) =~= seq![ev]);
                        }
                    }
                    if i > 0 {
                        push_text(out, ", ");
                    }
                    proof {
                        assert(decreases_to!(*self => (*self)->CallExpression_1));
                        assert(decreases_to!(*args => args@));
                        assert(decreases_to!(args@ => args@[i as int]));
                    }
                    args[i].write_to(out);
                    proof {
                        if i == 0 {
                            assert(render_args(exprs_view(next)) == render_expr(ev));
                            assert(out@ =~= base + render_args(exprs_view(next)));
                        } else {
                            assert(render_args(exprs_view(next)) == render_args(exprs_view(prev))
                                + seq![',', ' '] + render_expr(ev));
                            assert(out@ =~= base + render_args(exprs_view(next)));
                        }
                    }
                    i = i + 1;
                }
                assert(args@.subrange(0, args@.len() as int) =~= args@);
                push_text(out, ")");
            },
        }
        assert(out@ =~= old(out)@ + render_expr(self@));
    }

    /// The fully parenthesized writing of the expression.
    pub fn to_string(&self) -> (r: String)
        ensures
            r@ == render_expr(self@),
    {
        let mut out = String::new();
        self.write_to(&mut out);
        assert(out@ =~= render_expr(self@));
        out
    }
}

} // verus!
