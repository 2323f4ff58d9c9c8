use vstd::prelude::*;
use crate::ast::{
    Expression, Ident, Precedence, SpecExpr, SpecStmt, Statement, rank, render_stmts, stmts_view, token_precedence,
};
use crate::lexer::{Lexer, lemma_lex_step_progress, lex_step};
use crate::token::{SpecToken, Token};

verus! {

broadcast use vstd::std_specs::vec::group_vec_axioms, vstd::seq::group_seq_axioms;

/// Why parsing failed.
#[derive(Debug)]
pub struct ParseError {
    info: String,
}

impl ParseError {
    pub fn new(info: &str) -> (r: ParseError)
        ensures
            r.info() == info@,
    {
        ParseError { info: info.to_owned() }
    }

    pub closed spec fn info(&self) -> Seq<char> {
        self.info@
    }

    /// The description of the failure.
    pub fn message(&self) -> (r: &str)
        ensures
            r@ == self.info(),
    {
        self.info.as_str()
    }
}

/// A parser's position in the text: where the lexer stands, the current token and
/// the token after it.
pub struct PState {
    pub pos: int,
    pub cur: SpecToken,
    pub peek: SpecToken,
}

/// The state after moving one token forward.
pub open spec fn advance(s: Seq<char>, st: PState) -> PState {
    let (t, p) = lex_step(s, st.pos);
    PState { pos: p, cur: st.peek, peek: t }
}

/// What is left to parse: twice the characters not yet scanned, plus the buffered
/// tokens that are not `EOF`.
pub open spec fn measure(s: Seq<char>, st: PState) -> nat {
    if 0 <= st.pos <= s.len() {
        (2 * (s.len() - st.pos) + (if st.cur is EOF {
            0int
        } else {
            1int
        }) + (if st.peek is EOF {
            0int
        } else {
            1int
        })) as nat
    } else {
        0
    }
}

pub open spec fn smaller(s: Seq<char>, a: PState, b: PState) -> bool {
    measure(s, a) < measure(s, b)
}

pub open spec fn within(s: Seq<char>, st: PState) -> bool {
    0 <= st.pos <= s.len()
}

/// The state after a statement: a following semicolon is consumed.
pub open spec fn skip_semicolon(s: Seq<char>, st: PState) -> PState {
    if st.peek is Semicolon {
        advance(s, st)
    } else {
        st
    }
}

pub open spec fn is_infix_operator(t: SpecToken) -> bool {
    t is Eq || t is NotEq || t is LT || t is GT || t is Plus || t is Minus || t is Slash
        || t is Asterisk
}

/// The state after the parser is set up on text whose scanning starts at `pos`:
/// two tokens are read.
pub open spec fn initial_state(s: Seq<char>, pos: int) -> PState {
    advance(s, advance(s, PState { pos, cur: SpecToken::EOF, peek: SpecToken::EOF }))
}

/// Statements up to the end of input, after those in `acc`.
pub open spec fn p_program_acc(s: Seq<char>, st: PState, acc: Seq<SpecStmt>) -> Option<Seq<SpecStmt>>
    decreases measure(s, st), 7nat,
{
    if st.cur is EOF {
        Some(acc)
    } else {
        match p_stmt(s, st) {
            None => None,
            Some((stmt, st1)) => {
                let st2 = advance(s, st1);
                if smaller(s, st2, st) {
                    p_program_acc(s, st2, acc.push(stmt))
                } else {
                    None
                }
            },
        }
    }
}

/// Statements up to the closing brace of a block, after those in `acc`; ends on the
/// closing brace.
pub open spec fn p_block_acc(s: Seq<char>, st: PState, acc: Seq<SpecStmt>) -> Option<(Seq<SpecStmt>, PState)>
    decreases measure(s, st), 7nat,
{
    if st.cur is RBrace {
        Some((acc, st))
    } else if st.cur is EOF {
        None
    } else {
        match p_stmt(s, st) {
            None => None,
            Some((stmt, st1)) => {
                let st2 = advance(s, st1);
                if smaller(s, st2, st) {
                    p_block_acc(s, st2, acc.push(stmt))
                } else {
                    None
                }
            },
        }
    }
}

/// A statement that starts at the current token.
pub open spec fn p_stmt(s: Seq<char>, st: PState) -> Option<(SpecStmt, PState)>
    decreases measure(s, st), 6nat,
{
    match st.cur {
        SpecToken::Let => p_let(s, st),
        SpecToken::Return => p_return(s, st),
        _ => p_expr_stmt(s, st),
    }
}

/// `let <ident> = <expr>`, with an optional semicolon.
pub open spec fn p_let(s: Seq<char>, st: PState) -> Option<(SpecStmt, PState)>
    decreases measure(s, st), 5nat,
{
    match st.peek {
        SpecToken::Ident(n) => {
            let st1 = advance(s, st);
            if st1.peek is Assign {
                let st3 = advance(s, advance(s, st1));
                if smaller(s, st3, st) {
                    match p_expr(s, st3, Precedence::Lowest) {
                        None => None,
                        Some((e, st4)) => Some((SpecStmt::Let(n, e), skip_semicolon(s, st4))),
                    }
                } else {
                    None
                }
            } else {
                None
            }
        },
        _ => None,
    }
}

/// `return <expr>`, with an optional semicolon.
pub open spec fn p_return(s: Seq<char>, st: PState) -> Option<(SpecStmt, PState)>
    decreases measure(s, st), 5nat,
{
    let st1 = advance(s, st);
    if smaller(s, st1, st) {
        match p_expr(s, st1, Precedence::Lowest) {
            None => None,
            Some((e, st2)) => Some((SpecStmt::Return(e), skip_semicolon(s, st2))),
        }
    } else {
        None
    }
}

/// An expression used as a statement, with an optional semicolon.
pub open spec fn p_expr_stmt(s: Seq<char>, st: PState) -> Option<(SpecStmt, PState)>
    decreases measure(s, st), 5nat,
{
    match p_expr(s, st, Precedence::Lowest) {
        None => None,
        Some((e, st1)) => Some((SpecStmt::Expr(e), skip_semicolon(s, st1))),
    }
}

/// An expression whose operators all bind more strongly than `prec`.
pub open spec fn p_expr(s: Seq<char>, st: PState, prec: Precedence) -> Option<(SpecExpr, PState)>
    decreases measure(s, st), 4nat,
{
    match p_prefix(s, st) {
        None => None,
        Some((left, st1)) => if measure(s, st1) <= measure(s, st) {
            p_infix_loop(s, st1, prec, left)
        } else {
            None
        },
    }
}

/// Extends `left` with the operators and calls that follow it, while they bind
/// more strongly than `prec`.
pub open spec fn p_infix_loop(s: Seq<char>, st: PState, prec: Precedence, left: SpecExpr) -> Option<
    (SpecExpr, PState),
>
    decreases measure(s, st), 3nat,
{
    if rank(prec) < rank(token_precedence(st.peek)) {
        let st1 = advance(s, st);
        if !smaller(s, st1, st) {
            None
        } else if is_infix_operator(st1.cur) {
            match p_infix(s, st1, left) {
                None => None,
                Some((e, st2)) => if smaller(s, st2, st) {
                    p_infix_loop(s, st2, prec, e)
                } else {
                    None
                },
            }
        } else {
            match p_call(s, st1, left) {
                None => None,
                Some((e, st2)) => if smaller(s, st2, st) {
                    p_infix_loop(s, st2, prec, e)
                } else {
                    None
                },
            }
        }
    } else {
        Some((left, st))
    }
}

/// The right operand of the infix operator at the current token; an operator binds
/// its right operand at its own precedence, so chains group to the left.
pub open spec fn p_infix(s: Seq<char>, st: PState, left: SpecExpr) -> Option<(SpecExpr, PState)>
    decreases measure(s, st), 2nat,
{
    let st1 = advance(s, st);
    if smaller(s, st1, st) {
        match p_expr(s, st1, token_precedence(st.cur)) {
            None => None,
            Some((right, st2)) => Some(
                (SpecExpr::Infix(Box::new(left), st.cur, Box::new(right)), st2),
            ),
        }
    } else {
        None
    }
}

/// The arguments of a call whose opening parenthesis is the current token.
pub open spec fn p_call(s: Seq<char>, st: PState, callee: SpecExpr) -> Option<(SpecExpr, PState)>
    decreases measure(s, st), 2nat,
{
    if st.peek is RParen {
        Some((SpecExpr::Call(Box::new(callee), Seq::empty()), advance(s, st)))
    } else {
        let st1 = advance(s, st);
        if smaller(s, st1, st) {
            match p_args_acc(s, st1, Seq::empty()) {
                None => None,
                Some((args, st2)) => Some((SpecExpr::Call(Box::new(callee), args), st2)),
            }
        } else {
            None
        }
    }
}

/// Comma-separated arguments up to the closing parenthesis, after those in `acc`.
pub open spec fn p_args_acc(s: Seq<char>, st: PState, acc: Seq<SpecExpr>) -> Option<(Seq<SpecExpr>, PState)>
    decreases measure(s, st), 5nat,
{
    match p_expr(s, st, Precedence::Lowest) {
        None => None,
        Some((e, st1)) => if st1.peek is Comma {
            let st2 = advance(s, advance(s, st1));
            if smaller(s, st2, st) {
                p_args_acc(s, st2, acc.push(e))
            } else {
                None
            }
        } else if st1.peek is RParen {
            Some((acc.push(e), advance(s, st1)))
        } else {
            None
        },
    }
}

/// An expression that starts at the current token: a literal, a name, a prefix
/// operation, a parenthesized expression, a conditional or a function literal.
pub open spec fn p_prefix(s: Seq<char>, st: PState) -> Option<(SpecExpr, PState)>
    decreases measure(s, st), 3nat,
{
    match st.cur {
        SpecToken::Ident(n) => Some((SpecExpr::Ident(n), st)),
        SpecToken::Int(i) => Some((SpecExpr::Int(i), st)),
        SpecToken::Bool(b) => Some((SpecExpr::Bool(b), st)),
        SpecToken::Str(t) => Some((SpecExpr::Str(t), st)),
        SpecToken::Bang => p_prefix_op(s, st),
        SpecToken::Minus => p_prefix_op(s, st),
        SpecToken::LParen => p_grouped(s, st),
        SpecToken::If => p_if(s, st),
        SpecToken::Function => p_function(s, st),
        _ => None,
    }
}

pub open spec fn p_prefix_op(s: Seq<char>, st: PState) -> Option<(SpecExpr, PState)>
    decreases measure(s, st), 2nat,
{
    let st1 = advance(s, st);
    if smaller(s, st1, st) {
        match p_expr(s, st1, Precedence::Prefix) {
            None => None,
            Some((r, st2)) => Some((SpecExpr::Prefix(st.cur, Box::new(r)), st2)),
        }
    } else {
        None
    }
}

pub open spec fn p_grouped(s: Seq<char>, st: PState) -> Option<(SpecExpr, PState)>
    decreases measure(s, st), 2nat,
{
    let st1 = advance(s, st);
    if smaller(s, st1, st) {
        match p_expr(s, st1, Precedence::Lowest) {
            None => None,
            Some((e, st2)) => if st2.peek is RParen {
                Some((e, advance(s, st2)))
            } else {
                None
            },
        }
    } else {
        None
    }
}

/// A block whose opening brace is the current token; ends on the closing brace.
pub open spec fn p_block(s: Seq<char>, st: PState) -> Option<(Seq<SpecStmt>, PState)>
    decreases measure(s, st), 2nat,
{
    let st1 = advance(s, st);
    if smaller(s, st1, st) {
        p_block_acc(s, st1, Seq::empty())
    } else {
        None
    }
}

/// `if (<expr>) { ... }`, optionally followed by `else { ... }`.
pub open spec fn p_if(s: Seq<char>, st: PState) -> Option<(SpecExpr, PState)>
    decreases measure(s, st), 2nat,
{
    if !(st.peek is LParen) {
        None
    } else {
        let st2 = advance(s, advance(s, st));
        if !smaller(s, st2, st) {
            None
        } else {
            match p_expr(s, st2, Precedence::Lowest) {
                None => None,
                Some((c, st3)) => if !(st3.peek is RParen) {
                    None
                } else {
                    let st4 = advance(s, st3);
                    if !(st4.peek is LBrace) {
                        None
                    } else {
                        let st5 = advance(s, st4);
                        if !smaller(s, st5, st) {
                            None
                        } else {
                            match p_block(s, st5) {
                                None => None,
                                Some((cons, st6)) => if st6.peek is Else {
                                    let st7 = advance(s, st6);
                                    if !(st7.peek is LBrace) {
                                        None
                                    } else {
                                        let st8 = advance(s, st7);
                                        if !smaller(s, st8, st) {
                                            None
                                        } else {
                                            match p_block(s, st8) {
                                                None => None,
                                                Some((alt, st9)) => Some(
                                                    (SpecExpr::If(Box::new(c), cons, alt), st9),
                                                ),
                                            }
                                        }
                                    }
                                } else {
                                    Some((SpecExpr::If(Box::new(c), cons, Seq::empty()), st6))
                                },
                            }
                        }
                    }
                },
            }
        }
    }
}

/// `fn(<params>) { ... }`.
pub open spec fn p_function(s: Seq<char>, st: PState) -> Option<(SpecExpr, PState)>
    decreases measure(s, st), 2nat,
{
    if !(st.peek is LParen) {
        None
    } else {
        let st1 = advance(s, st);
        match p_params(s, st1) {
            None => None,
            Some((ps, st2)) => if !(st2.peek is LBrace) {
                None
            } else {
                let st3 = advance(s, st2);
                if !smaller(s, st3, st) {
                    None
                } else {
                    match p_block(s, st3) {
                        None => None,
                        Some((body, st4)) => Some((SpecExpr::Function(ps, body), st4)),
                    }
                }
            },
        }
    }
}

/// A parenthesized, comma-separated list of names whose opening parenthesis is the
/// current token; ends on the closing parenthesis.
pub open spec fn p_params(s: Seq<char>, st: PState) -> Option<(Seq<Seq<char>>, PState)> {
    let st1 = advance(s, st);
    if st1.cur is RParen {
        Some((Seq::empty(), st1))
    } else {
        p_params_acc(s, st1, Seq::empty())
    }
}

pub open spec fn p_params_acc(s: Seq<char>, st: PState, acc: Seq<Seq<char>>) -> Option<(Seq<Seq<char>>, PState)>
    decreases measure(s, st),
{
    match st.cur {
        SpecToken::Ident(n) => if st.peek is Comma {
            let st2 = advance(s, advance(s, st));
            if smaller(s, st2, st) {
                p_params_acc(s, st2, acc.push(n))
            } else {
                None
            }
        } else if st.peek is RParen {
            Some((acc.push(n), advance(s, st)))
        } else {
            None
        },
        _ => None,
    }
}

/// The statements of a program written in `s`, if it parses.
pub open spec fn parse_text(s: Seq<char>) -> Option<Seq<SpecStmt>> {
    p_program_acc(s, initial_state(s, 0), Seq::empty())
}

/// Moving forward never makes what is left to parse larger, and makes it smaller
/// when the current token is not `EOF`.
pub proof fn lemma_advance_measure(s: Seq<char>, st: PState)
    requires
        within(s, st),
    ensures
        within(s, advance(s, st)),
        measure(s, advance(s, st)) <= measure(s, st),
        !(st.cur is EOF) ==> measure(s, advance(s, st)) < measure(s, st),
{
    lemma_lex_step_progress(s, st.pos);
}

/// A parsed program: its top-level statements, in order.
pub struct Program {
    pub statements: Vec<Statement>,
}

impl Default for Program {
    fn default() -> (r: Self)
        ensures
            r.statements@.len() == 0,
    {
        Program { statements: Vec::new() }
    }
}

impl Program {
    /// The statements written out, separated by `"; "`.
    pub fn to_string(&self) -> (r: String)
        ensures
            r@ == render_stmts(stmts_view(self.statements@)),
    {
        let mut out = String::new();
        crate::ast::write_stmts(&self.statements, &mut out);
        assert(out@ =~= render_stmts(stmts_view(self.statements@)));
        out
    }
}

/// Builds a syntax tree from the tokens of a lexer, with one token of lookahead.
pub struct Parser {
    l: Lexer,
    cur_token: Token,
    peek_token: Token,
}

impl Parser {
    /// The text being parsed.
    pub closed spec fn text(&self) -> Seq<char> {
        self.l.text()
    }

    /// The parser's position.
    pub closed spec fn state(&self) -> PState {
        PState { pos: self.l.pos(), cur: self.cur_token@, peek: self.peek_token@ }
    }

    pub closed spec fn wf(&self) -> bool {
        self.l.wf() && within(self.l.text(), self.state())
    }

    pub closed spec fn measure(&self) -> nat {
        measure(self.text(), self.state())
    }

    /// A parser over `l`, with the first two tokens read.
    pub fn new(l: Lexer) -> (r: Self)
        requires
            l.wf(),
        ensures
            r.wf(),
            r.text() == l.text(),
            r.state() == initial_state(l.text(), l.pos()),
    {
        proof {
            l.lemma_wf_pos();
        }
        let mut ret = Parser { l, cur_token: Token::EOF, peek_token: Token::EOF };
        proof {
            lemma_advance_measure(ret.text(), ret.state());
        }
        ret.next_token();
        proof {
            lemma_advance_measure(ret.text(), ret.state());
        }
        ret.next_token();
        ret
    }

    /// Moves one token forward.
    pub fn next_token(&mut self)
        requires
            old(self).wf(),
        ensures
            final(self).wf(),
            final(self).text() == old(self).text(),
            final(self).state() == advance(old(self).text(), old(self).state()),
    {
        proof {
            lemma_advance_measure(self.text(), self.state());
        }
        std::mem::swap(&mut self.cur_token, &mut self.peek_token);
        self.peek_token = self.l.next_token();
    }

    fn peek_is(&self, t: &Token) -> (r: bool)
        ensures
            r == (self.peek_token@ == t@),
    {
        same_token(&self.peek_token, t)
    }

    /// If the next token is `t`, moves onto it.
    pub fn expect_peek(&mut self, t: Token) -> (r: bool)
        requires
            old(self).wf(),
        ensures
            final(self).wf(),
            final(self).text() == old(self).text(),
            r == (old(self).state().peek == t@),
            final(self).state() == if r {
                advance(old(self).text(), old(self).state())
            } else {
                old(self).state()
            },
    {
        if self.peek_is(&t) {
            self.next_token();
            true
        } else {
            false
        }
    }

    /// Parses statements until the end of input.
    pub fn parse_program(&mut self) -> (r: Result<Program, ParseError>)
        requires
            old(self).wf(),
        ensures
            match r {
                Ok(p) => p_program_acc(old(self).text(), old(self).state(), Seq::empty())
                    == Some(stmts_view(p.statements@)),
                Err(_) => p_program_acc(old(self).text(), old(self).state(), Seq::empty()) is None,
            },
    {
        let ghost s = self.text();
        let ghost st0 = self.state();
        proof {
            self.l.lemma_wf_pos();
        }
        let mut statements: Vec<Statement> = Vec::new();
        proof {
            crate::ast::lemma_stmts_view_len(statements@);
            assert(stmts_view(statements@) =~= Seq::<SpecStmt>::empty());
        }
        while !self.cur_token.is_eof()
            invariant
                self.wf(),
                self.text() == s,
                s == old(self).text(),
                st0 == old(self).state(),
                p_program_acc(s, st0, Seq::empty()) == p_program_acc(
                    s,
                    self.state(),
                    stmts_view(statements@),
                ),
            decreases self.measure(),
        {
            let ghost st = self.state();
            let stmt = self.parse_statement()?;
            proof {
                lemma_advance_measure(s, self.state());
                assert(statements@.push(stmt).drop_last() =~= statements@);
            }
            statements.push(stmt);
            self.next_token();
        }
        Ok(Program { statements })
    }

    /// Parses the statement that starts at the current token.
    fn parse_statement(&mut self) -> (r: Result<Statement, ParseError>)
        requires
            old(self).wf(),
        ensures
            final(self).wf(),
            final(self).text() == old(self).text(),
            match r {
                Ok(stmt) => p_stmt(old(self).text(), old(self).state()) == Some(
                    (stmt@, final(self).state()),
                ) && measure(final(self).text(), final(self).state()) <= measure(
                    old(self).text(),
                    old(self).state(),
                ) && !(final(self).state().cur is EOF),
                Err(_) => p_stmt(old(self).text(), old(self).state()) is None,
            },
        decreases old(self).measure(), 6nat,
    {
        match self.cur_token {
            Token::Let => self.parse_let_statement(),
            Token::Return => self.parse_return_statement(),
            _ => self.parse_expression_statement(),
        }
    }

    fn skip_semicolon(&mut self)
        requires
            old(self).wf(),
        ensures
            final(self).wf(),
            final(self).text() == old(self).text(),
            final(self).state() == skip_semicolon(old(self).text(), old(self).state()),
            measure(final(self).text(), final(self).state()) <= measure(
                old(self).text(),
                old(self).state(),
            ),
            !(old(self).state().cur is EOF) ==> !(final(self).state().cur is EOF),
    {
        proof {
            lemma_advance_measure(self.text(), self.state());
        }
        if self.peek_is(&Token::Semicolon) {
            self.next_token();
        }
    }

    fn parse_let_statement(&mut self) -> (r: Result<Statement, ParseError>)
        requires
            old(self).wf(),
            old(self).state().cur is Let,
        ensures
            final(self).wf(),
            final(self).text() == old(self).text(),
            match r {
                Ok(stmt) => p_let(old(self).text(), old(self).state()) == Some(
                    (stmt@, final(self).state()),
                ) && measure(final(self).text(), final(self).state()) <= measure(
                    old(self).text(),
                    old(self).state(),
                ) && !(final(self).state().cur is EOF),
                Err(_) => p_let(old(self).text(), old(self).state()) is None,
            },
        decreases old(self).measure(), 5nat,
    {
        let ghost s = self.text();
        let ghost st = self.state();
        let name = match &self.peek_token {
            Token::Ident(n) => n.clone(),
            _ => {
                return Err(ParseError::new("not a ident token"));
            },
        };
        assert(st.peek == SpecToken::Ident(name@));
        proof {
            lemma_advance_measure(s, st);
        }
        self.next_token();
        let ghost st1 = self.state();
        if !self.peek_is(&Token::Assign) {
            return Err(ParseError::new("no equal sign!"));
        }
        proof {
            lemma_advance_measure(s, st1);
        }
        self.next_token();
        let ghost st2 = self.state();
        proof {
            lemma_advance_measure(s, st2);
        }
        self.next_token();
        let ghost st3 = self.state();
        assert(st3 == advance(s, advance(s, st1)));
        assert(smaller(s, st3, st));
        let value = self.parse_expression(Precedence::Lowest)?;
        self.skip_semicolon();
        Ok(Statement::LetStatement(Ident(name), value))
    }

    fn parse_return_statement(&mut self) -> (r: Result<Statement, ParseError>)
        requires
            old(self).wf(),
            old(self).state().cur is Return,
        ensures
            final(self).wf(),
            final(self).text() == old(self).text(),
            match r {
                Ok(stmt) => p_return(old(self).text(), old(self).state()) == Some(
                    (stmt@, final(self).state()),
                ) && measure(final(self).text(), final(self).state()) <= measure(
                    old(self).text(),
                    old(self).state(),
                ) && !(final(self).state().cur is EOF),
                Err(_) => p_return(old(self).text(), old(self).state()) is None,
            },
        decreases old(self).measure(), 5nat,
    {
        proof {
            lemma_advance_measure(self.text(), self.state());
        }
        self.next_token();
        let value = self.parse_expression(Precedence::Lowest)?;
        self.skip_semicolon();
        Ok(Statement::ReturnStatement(value))
    }

    fn parse_expression_statement(&mut self) -> (r: Result<Statement, ParseError>)
        requires
            old(self).wf(),
        ensures
            final(self).wf(),
            final(self).text() == old(self).text(),
            match r {
                Ok(stmt) => p_expr_stmt(old(self).text(), old(self).state()) == Some(
                    (stmt@, final(self).state()),
                ) && measure(final(self).text(), final(self).state()) <= measure(
                    old(self).text(),
                    old(self).state(),
                ) && !(final(self).state().cur is EOF),
                Err(_) => p_expr_stmt(old(self).text(), old(self).state()) is None,
            },
        decreases old(self).measure(), 5nat,
    {
        let value = self.parse_expression(Precedence::Lowest)?;
        self.skip_semicolon();
        Ok(Statement::ExpressionStatement(value))
    }

    /// Parses an expression whose operators bind more strongly than `precedence`.
    pub fn parse_expression(&mut self, precedence: Precedence) -> (r: Result<Expression, ParseError>)
        requires
            old(self).wf(),
        ensures
            final(self).wf(),
            final(self).text() == old(self).text(),
            match r {
                Ok(e) => p_expr(old(self).text(), old(self).state(), precedence) == Some(
                    (e@, final(self).state()),
                ) && measure(final(self).text(), final(self).state()) <= measure(
                    old(self).text(),
                    old(self).state(),
                ) && !(final(self).state().cur is EOF),
                Err(_) => p_expr(old(self).text(), old(self).state(), precedence) is None,
            },
        decreases old(self).measure(), 4nat,
    {
        let ghost s = self.text();
        let ghost st0 = self.state();
        let mut left = self.parse_prefix()?;
        let ghost left0 = left@;
        let ghost st1 = self.state();
        loop
            invariant
                self.wf(),
                self.text() == s,
                s == old(self).text(),
                st0 == old(self).state(),
                p_expr(s, st0, precedence) == p_infix_loop(s, st1, precedence, left0),
                p_infix_loop(s, st1, precedence, left0) == p_infix_loop(
                    s,
                    self.state(),
                    precedence,
                    left@,
                ),
                measure(s, self.state()) <= measure(s, st0),
                !(self.state().cur is EOF),
            decreases measure(s, self.state()),
        {
            let ghost st = self.state();
            let peek_precedence = Precedence::from_token(&self.peek_token);
            if precedence.to_i32() >= peek_precedence.to_i32() {
                return Ok(left);
            }
            proof {
                lemma_advance_measure(s, st);
            }
            self.next_token();
            if is_infix_token(&self.cur_token) {
                left = self.parse_infix_expression(left)?;
            } else {
                left = self.parse_call_expression(left)?;
            }
        }
    }

    fn parse_prefix(&mut self) -> (r: Result<Expression, ParseError>)
        requires
            old(self).wf(),
        ensures
            final(self).wf(),
            final(self).text() == old(self).text(),
            match r {
                Ok(e) => p_prefix(old(self).text(), old(self).state()) == Some(
                    (e@, final(self).state()),
                ) && measure(final(self).text(), final(self).state()) <= measure(
                    old(self).text(),
                    old(self).state(),
                ) && !(final(self).state().cur is EOF),
                Err(_) => p_prefix(old(self).text(), old(self).state()) is None,
            },
        decreases old(self).measure(), 3nat,
    {
        match &self.cur_token {
            Token::Ident(_) => {
                let id = self.parse_identifier()?;
                Ok(Expression::Identifier(id))
            },
            Token::Int(_) => self.parse_int_literal(),
            Token::Bool(_) => self.parse_bool_literal(),
            Token::String(v) => Ok(Expression::StringLiteral(v.clone())),
            Token::Bang | Token::Minus => self.parse_prefix_expression(),
            Token::LParen => self.parse_grouped_expression(),
            Token::If => self.parse_if_expression(),
            Token::Function => self.parse_function_literal(),
            _ => Err(ParseError::new("no prefix parse function for the current token")),
        }
    }

    fn parse_identifier(&self) -> (r: Result<Ident, ParseError>)
        ensures
            match r {
                Ok(id) => self.state().cur == SpecToken::Ident(id.0@),
                Err(_) => !(self.state().cur is Ident),
            },
    {
        match &self.cur_token {
            Token::Ident(v) => Ok(Ident(v.clone())),
            _ => Err(ParseError::new("not a ident token")),
        }
    }

    fn parse_int_literal(&self) -> (r: Result<Expression, ParseError>)
        ensures
            match r {
                Ok(e) => self.state().cur is Int && e@ == SpecExpr::Int(self.state().cur->Int_0),
                Err(_) => !(self.state().cur is Int),
            },
    {
        match self.cur_token {
            Token::Int(v) => Ok(Expression::IntLiteral(v)),
            _ => Err(ParseError::new("Token::Int not found")),
        }
    }

    fn parse_bool_literal(&self) -> (r: Result<Expression, ParseError>)
        ensures
            match r {
                Ok(e) => self.state().cur is Bool && e@ == SpecExpr::Bool(
                    self.state().cur->Bool_0,
                ),
                Err(_) => !(self.state().cur is Bool),
            },
    {
        match self.cur_token {
            Token::Bool(v) => Ok(Expression::BoolLiteral(v)),
            _ => Err(ParseError::new("Token::Bool not found")),
        }
    }

    fn parse_prefix_expression(&mut self) -> (r: Result<Expression, ParseError>)
        requires
            old(self).wf(),
            !(old(self).state().cur is EOF),
        ensures
            final(self).wf(),
            final(self).text() == old(self).text(),
            match r {
                Ok(e) => p_prefix_op(old(self).text(), old(self).state()) == Some(
                    (e@, final(self).state()),
                ) && measure(final(self).text(), final(self).state()) <= measure(
                    old(self).text(),
                    old(self).state(),
                ) && !(final(self).state().cur is EOF),
                Err(_) => p_prefix_op(old(self).text(), old(self).state()) is None,
            },
        decreases old(self).measure(), 2nat,
    {
        proof {
            lemma_advance_measure(self.text(), self.state());
        }
        let token = self.cur_token.duplicate();
        self.next_token();
        let right = self.parse_expression(Precedence::Prefix)?;
        Ok(Expression::PrefixExpression(token, Box::new(right)))
    }

    fn parse_infix_expression(&mut self, left: Expression) -> (r: Result<Expression, ParseError>)
        requires
            old(self).wf(),
            !(old(self).state().cur is EOF),
        ensures
            final(self).wf(),
            final(self).text() == old(self).text(),
            match r {
                Ok(e) => p_infix(old(self).text(), old(self).state(), left@) == Some(
                    (e@, final(self).state()),
                ) && measure(final(self).text(), final(self).state()) < measure(
                    old(self).text(),
                    old(self).state(),
                ) && !(final(self).state().cur is EOF),
                Err(_) => p_infix(old(self).text(), old(self).state(), left@) is None,
            },
        decreases old(self).measure(), 2nat,
    {
        proof {
            lemma_advance_measure(self.text(), self.state());
        }
        let precedence = Precedence::from_token(&self.cur_token);
        let token = self.cur_token.duplicate();
        self.next_token();
        let right = self.parse_expression(precedence)?;
        Ok(Expression::InfixExpression(Box::new(left), token, Box::new(right)))
    }

    fn parse_call_expression(&mut self, callee: Expression) -> (r: Result<Expression, ParseError>)
        requires
            old(self).wf(),
            !(old(self).state().cur is EOF),
        ensures
            final(self).wf(),
            final(self).text() == old(self).text(),
            match r {
                Ok(e) => p_call(old(self).text(), old(self).state(), callee@) == Some(
                    (e@, final(self).state()),
                ) && measure(final(self).text(), final(self).state()) < measure(
                    old(self).text(),
                    old(self).state(),
                ) && !(final(self).state().cur is EOF),
                Err(_) => p_call(old(self).text(), old(self).state(), callee@) is None,
            },
        decreases old(self).measure(), 2nat,
    {
        let args = self.parse_call_arguments()?;
        Ok(Expression::CallExpression(Box::new(callee), args))
    }

    /// Parses call arguments; the current token is the opening parenthesis.
    fn parse_call_arguments(&mut self) -> (r: Result<Vec<Expression>, ParseError>)
        requires
            old(self).wf(),
            !(old(self).state().cur is EOF),
        ensures
            final(self).wf(),
            final(self).text() == old(self).text(),
            match r {
                Ok(args) => {
                    &&& p_call(old(self).text(), old(self).state(), SpecExpr::Int(0)) matches Some(
                        (SpecExpr::Call(_, sargs), st),
                    )
                    &&& sargs == crate::ast::exprs_view(args@)
                    &&& st == final(self).state()
                    &&& measure(final(self).text(), final(self).state()) < measure(
                        old(self).text(),
                        old(self).state(),
                    )
                    &&& !(final(self).state().cur is EOF)
                },
                Err(_) => p_call(old(self).text(), old(self).state(), SpecExpr::Int(0)) is None,
            },
        decreases old(self).measure(), 1nat,
    {
        let ghost s = self.text();
        let ghost st0 = self.state();
        proof {
            lemma_advance_measure(s, st0);
        }
        let mut args: Vec<Expression> = Vec::new();
        if self.peek_is(&Token::RParen) {
            self.next_token();
            proof {
                crate::ast::lemma_exprs_view_len(args@);
                assert(crate::ast::exprs_view(args@) =~= Seq::<SpecExpr>::empty());
            }
            return Ok(args);
        }
        self.next_token();
        let ghost st1 = self.state();
        proof {
            crate::ast::lemma_exprs_view_len(args@);
            assert(crate::ast::exprs_view(args@) =~= Seq::<SpecExpr>::empty());
        }
        loop
            invariant
                self.wf(),
                self.text() == s,
                s == old(self).text(),
                st0 == old(self).state(),
                measure(s, st1) < measure(s, st0),
                measure(s, self.state()) <= measure(s, st1),
                p_args_acc(s, st1, Seq::empty()) == p_args_acc(
                    s,
                    self.state(),
                    crate::ast::exprs_view(args@),
                ),
                p_call(s, st0, SpecExpr::Int(0)) == match p_args_acc(s, st1, Seq::empty()) {
                    None => None,
                    Some((a, st2)) => Some((SpecExpr::Call(Box::new(SpecExpr::Int(0)), a), st2)),
                },
            decreases measure(s, self.state()),
        {
            let ghost st = self.state();
            let e = self.parse_expression(Precedence::Lowest)?;
            proof {
                assert(args@.push(e).drop_last() =~= args@);
            }
            args.push(e);
            if self.peek_is(&Token::Comma) {
                proof {
                    lemma_advance_measure(s, self.state());
                }
                self.next_token();
                proof {
                    lemma_advance_measure(s, self.state());
                }
                self.next_token();
            } else if self.peek_is(&Token::RParen) {
                proof {
                    lemma_advance_measure(s, self.state());
                }
                self.next_token();
                return Ok(args);
            } else {
                return Err(ParseError::new("')' expected for function call."));
            }
        }
    }

    fn parse_grouped_expression(&mut self) -> (r: Result<Expression, ParseError>)
        requires
            old(self).wf(),
            !(old(self).state().cur is EOF),
        ensures
            final(self).wf(),
            final(self).text() == old(self).text(),
            match r {
                Ok(e) => p_grouped(old(self).text(), old(self).state()) == Some(
                    (e@, final(self).state()),
                ) && measure(final(self).text(), final(self).state()) <= measure(
                    old(self).text(),
                    old(self).state(),
                ) && !(final(self).state().cur is EOF),
                Err(_) => p_grouped(old(self).text(), old(self).state()) is None,
            },
        decreases old(self).measure(), 2nat,
    {
        proof {
            lemma_advance_measure(self.text(), self.state());
        }
        self.next_token();
        let exp = self.parse_expression(Precedence::Lowest)?;
        proof {
            lemma_advance_measure(self.text(), self.state());
        }
        if !self.expect_peek(Token::RParen) {
            return Err(ParseError::new("Right parentheses expected"));
        }
        Ok(exp)
    }

    /// Parses a block; the current token is the opening brace, and the block ends on
    /// the closing brace.
    fn parse_block_statement(&mut self) -> (r: Result<Vec<Statement>, ParseError>)
        requires
            old(self).wf(),
            !(old(self).state().cur is EOF),
        ensures
            final(self).wf(),
            final(self).text() == old(self).text(),
            match r {
                Ok(ss) => p_block(old(self).text(), old(self).state()) == Some(
                    (stmts_view(ss@), final(self).state()),
                ) && measure(final(self).text(), final(self).state()) < measure(
                    old(self).text(),
                    old(self).state(),
                ) && !(final(self).state().cur is EOF),
                Err(_) => p_block(old(self).text(), old(self).state()) is None,
            },
        decreases old(self).measure(), 1nat,
    {
        let ghost s = self.text();
        let ghost st0 = self.state();
        proof {
            lemma_advance_measure(s, st0);
        }
        self.next_token();
        let ghost st1 = self.state();
        let mut statements: Vec<Statement> = Vec::new();
        proof {
            crate::ast::lemma_stmts_view_len(statements@);
            assert(stmts_view(statements@) =~= Seq::<SpecStmt>::empty());
        }
        loop
            invariant
                self.wf(),
                self.text() == s,
                s == old(self).text(),
                st0 == old(self).state(),
                measure(s, st1) < measure(s, st0),
                measure(s, self.state()) <= measure(s, st1),
                p_block(s, st0) == p_block_acc(s, st1, Seq::empty()),
                p_block_acc(s, st1, Seq::empty()) == p_block_acc(
                    s,
                    self.state(),
                    stmts_view(statements@),
                ),
            decreases measure(s, self.state()),
        {
            if matches!(self.cur_token, Token::RBrace) {
                return Ok(statements);
            }
            if self.cur_token.is_eof() {
                return Err(ParseError::new("'}' expected at the end of a block."));
            }
            let stmt = self.parse_statement()?;
            proof {
                lemma_advance_measure(s, self.state());
                assert(statements@.push(stmt).drop_last() =~= statements@);
            }
            statements.push(stmt);
            self.next_token();
        }
    }

    fn parse_if_expression(&mut self) -> (r: Result<Expression, ParseError>)
        requires
            old(self).wf(),
            !(old(self).state().cur is EOF),
        ensures
            final(self).wf(),
            final(self).text() == old(self).text(),
            match r {
                Ok(e) => p_if(old(self).text(), old(self).state()) == Some(
                    (e@, final(self).state()),
                ) && measure(final(self).text(), final(self).state()) <= measure(
                    old(self).text(),
                    old(self).state(),
                ) && !(final(self).state().cur is EOF),
                Err(_) => p_if(old(self).text(), old(self).state()) is None,
            },
        decreases old(self).measure(), 2nat,
    {
        let ghost s = self.text();
        let ghost st0 = self.state();
        proof {
            lemma_advance_measure(s, st0);
        }
        if !self.expect_peek(Token::LParen) {
            return Err(ParseError::new("'(' expected after 'if'."));
        }
        proof {
            lemma_advance_measure(s, self.state());
        }
        self.next_token();
        let condition = self.parse_expression(Precedence::Lowest)?;
        proof {
            lemma_advance_measure(s, self.state());
        }
        if !self.expect_peek(Token::RParen) {
            return Err(ParseError::new("')' expected after if condition expression"));
        }
        proof {
            lemma_advance_measure(s, self.state());
        }
        if !self.expect_peek(Token::LBrace) {
            return Err(ParseError::new("'{' expected for block."));
        }
        let consequence = self.parse_block_statement()?;
        if self.peek_is(&Token::Else) {
            proof {
                lemma_advance_measure(s, self.state());
            }
            self.next_token();
            proof {
                lemma_advance_measure(s, self.state());
            }
            if !self.expect_peek(Token::LBrace) {
                return Err(ParseError::new("'{' expected for block."));
            }
            let alternative = self.parse_block_statement()?;
            Ok(Expression::IfExpression(Box::new(condition), consequence, alternative))
        } else {
            let alternative: Vec<Statement> = Vec::new();
            proof {
                crate::ast::lemma_stmts_view_len(alternative@);
                assert(stmts_view(alternative@) =~= Seq::<SpecStmt>::empty());
            }
            Ok(Expression::IfExpression(Box::new(condition), consequence, alternative))
        }
    }

    fn parse_function_literal(&mut self) -> (r: Result<Expression, ParseError>)
        requires
            old(self).wf(),
            !(old(self).state().cur is EOF),
        ensures
            final(self).wf(),
            final(self).text() == old(self).text(),
            match r {
                Ok(e) => p_function(old(self).text(), old(self).state()) == Some(
                    (e@, final(self).state()),
                ) && measure(final(self).text(), final(self).state()) <= measure(
                    old(self).text(),
                    old(self).state(),
                ) && !(final(self).state().cur is EOF),
                Err(_) => p_function(old(self).text(), old(self).state()) is None,
            },
        decreases old(self).measure(), 2nat,
    {
        let ghost s = self.text();
        let ghost st0 = self.state();
        proof {
            lemma_advance_measure(s, st0);
        }
        if !self.expect_peek(Token::LParen) {
            return Err(ParseError::new("'(' expected for function expression"));
        }
        let params = self.parse_function_parameters()?;
        proof {
            lemma_advance_measure(s, self.state());
        }
        if !self.expect_peek(Token::LBrace) {
            return Err(ParseError::new("'{' expected for function body."));
        }
        let body = self.parse_block_statement()?;
        Ok(Expression::FunctionExpression(params, body))
    }

    /// Parses parameter names; the current token is the opening parenthesis, and the
    /// list ends on the closing parenthesis.
    fn parse_function_parameters(&mut self) -> (r: Result<Vec<Ident>, ParseError>)
        requires
            old(self).wf(),
            !(old(self).state().cur is EOF),
        ensures
            final(self).wf(),
            final(self).text() == old(self).text(),
            match r {
                Ok(ps) => p_params(old(self).text(), old(self).state()) == Some(
                    (crate::ast::idents_view(ps@), final(self).state()),
                ) && measure(final(self).text(), final(self).state()) < measure(
                    old(self).text(),
                    old(self).state(),
                ) && !(final(self).state().cur is EOF),
                Err(_) => p_params(old(self).text(), old(self).state()) is None,
            },
    {
        let ghost s = self.text();
        let ghost st0 = self.state();
        proof {
            lemma_advance_measure(s, st0);
        }
        let mut ret: Vec<Ident> = Vec::new();
        self.next_token();
        let ghost st1 = self.state();
        if matches!(self.cur_token, Token::RParen) {
            assert(crate::ast::idents_view(ret@) =~= Seq::<Seq<char>>::empty());
            return Ok(ret);
        }
        assert(crate::ast::idents_view(ret@) =~= Seq::<Seq<char>>::empty());
        loop
            invariant
                self.wf(),
                self.text() == s,
                s == old(self).text(),
                st0 == old(self).state(),
                measure(s, st1) < measure(s, st0),
                measure(s, self.state()) <= measure(s, st1),
                !(st1.cur is RParen),
                p_params(s, st0) == p_params_acc(s, st1, Seq::empty()),
                p_params_acc(s, st1, Seq::empty()) == p_params_acc(
                    s,
                    self.state(),
                    crate::ast::idents_view(ret@),
                ),
            decreases measure(s, self.state()),
        {
            let name = match &self.cur_token {
                Token::Ident(v) => v.clone(),
                _ => {
                    return Err(ParseError::new("identifier expected for function parameter."));
                },
            };
            proof {
                assert(crate::ast::idents_view(ret@.push(Ident(name))) =~= crate::ast::idents_view(
                    ret@,
                ).push(name@));
            }
            ret.push(Ident(name));
            proof {
                lemma_advance_measure(s, self.state());
            }
            if self.peek_is(&Token::Comma) {
                self.next_token();
                proof {
                    lemma_advance_measure(s, self.state());
                }
                self.next_token();
            } else if self.peek_is(&Token::RParen) {
                self.next_token();
                return Ok(ret);
            } else {
                return Err(ParseError::new("')' expected for function parameters expression."));
            }
        }
    }
}

fn is_infix_token(t: &Token) -> (r: bool)
    ensures
        r == is_infix_operator(t@),
{
    match t {
        Token::Eq | Token::NotEq | Token::LT | Token::GT | Token::Plus | Token::Minus
        | Token::Slash | Token::Asterisk => true,
        _ => false,
    }
}

/// Whether two tokens are the same token.
fn same_token(a: &Token, b: &Token) -> (r: bool)
    ensures
        r == (a@ == b@),
{
    match (a, b) {
        (Token::Illegal, Token::Illegal) => true,
        (Token::EOF, Token::EOF) => true,
        (Token::Let, Token::Let) => true,
        (Token::Function, Token::Function) => true,
        (Token::If, Token::If) => true,
        (Token::Else, Token::Else) => true,
        (Token::Return, Token::Return) => true,
        (Token::Assign, Token::Assign) => true,
        (Token::Plus, Token::Plus) => true,
        (Token::Minus, Token::Minus) => true,
        (Token::Bang, Token::Bang) => true,
        (Token::Asterisk, Token::Asterisk) => true,
        (Token::Slash, Token::Slash) => true,
        (Token::LT, Token::LT) => true,
        (Token::GT, Token::GT) => true,
        (Token::Comma, Token::Comma) => true,
        (Token::Semicolon, Token::Semicolon) => true,
        (Token::Eq, Token::Eq) => true,
        (Token::NotEq, Token::NotEq) => true,
        (Token::LParen, Token::LParen) => true,
        (Token::RParen, Token::RParen) => true,
        (Token::LBracket, Token::LBracket) => true,
        (Token::RBracket, Token::RBracket) => true,
        (Token::LBrace, Token::LBrace) => true,
        (Token::RBrace, Token::RBrace) => true,
        (Token::Ident(x), Token::Ident(y)) => *x == *y,
        (Token::Bool(x), Token::Bool(y)) => *x == *y,
        (Token::Int(x), Token::Int(y)) => *x == *y,
        (Token::Float(x), Token::Float(y)) => *x == *y,
        (Token::String(x), Token::String(y)) => *x == *y,
        _ => false,
    }
}

} // verus!
