use vstd::prelude::*;

verus! {

/// A lexical unit of the language.
///
/// Payload-carrying tokens hold their source text (`Ident`, `String`, `Float`) or
/// their value (`Int`, `Bool`). A float literal is kept as the text it was written
/// with: the library does no floating-point arithmetic.
#[derive(Debug, PartialEq, Eq, Clone)]
pub enum Token {
    Illegal,
    EOF,
    Let,
    Function,
    If,
    Else,
    Return,
    Assign,
    Plus,
    Minus,
    Bang,
    Asterisk,
    Slash,
    LT,
    GT,
    Comma,
    Semicolon,
    Eq,
    NotEq,
    LParen,
    RParen,
    LBracket,
    RBracket,
    LBrace,
    RBrace,
    Ident(String),
    Bool(bool),
    Int(i64),
    Float(String),
    String(String),
}

/// The mathematical model of a token: text payloads are character sequences.
pub enum SpecToken {
    Illegal,
    EOF,
    Let,
    Function,
    If,
    Else,
    Return,
    Assign,
    Plus,
    Minus,
    Bang,
    Asterisk,
    Slash,
    LT,
    GT,
    Comma,
    Semicolon,
    Eq,
    NotEq,
    LParen,
    RParen,
    LBracket,
    RBracket,
    LBrace,
    RBrace,
    Ident(Seq<char>),
    Bool(bool),
    Int(i64),
    Float(Seq<char>),
    Str(Seq<char>),
}

impl View for Token {
    type V = SpecToken;

    open spec fn view(&self) -> SpecToken {
        match self {
            Token::Illegal => SpecToken::Illegal,
            Token::EOF => SpecToken::EOF,
            Token::Let => SpecToken::Let,
            Token::Function => SpecToken::Function,
            Token::If => SpecToken::If,
            Token::Else => SpecToken::Else,
            Token::Return => SpecToken::Return,
            Token::Assign => SpecToken::Assign,
            Token::Plus => SpecToken::Plus,
            Token::Minus => SpecToken::Minus,
            Token::Bang => SpecToken::Bang,
            Token::Asterisk => SpecToken::Asterisk,
            Token::Slash => SpecToken::Slash,
            Token::LT => SpecToken::LT,
            Token::GT => SpecToken::GT,
            Token::Comma => SpecToken::Comma,
            Token::Semicolon => SpecToken::Semicolon,
            Token::Eq => SpecToken::Eq,
            Token::NotEq => SpecToken::NotEq,
            Token::LParen => SpecToken::LParen,
            Token::RParen => SpecToken::RParen,
            Token::LBracket => SpecToken::LBracket,
            Token::RBracket => SpecToken::RBracket,
            Token::LBrace => SpecToken::LBrace,
            Token::RBrace => SpecToken::RBrace,
            Token::Ident(s) => SpecToken::Ident(s@),
            Token::Bool(b) => SpecToken::Bool(*b),
            Token::Int(i) => SpecToken::Int(*i),
            Token::Float(s) => SpecToken::Float(s@),
            Token::String(s) => SpecToken::Str(s@),
        }
    }
}

/// The token that a maximal run of letters stands for: a keyword or an identifier.
pub open spec fn word_token(w: Seq<char>) -> SpecToken {
    if w == seq!['f', 'n'] {
        SpecToken::Function
    } else if w == seq!['l', 'e', 't'] {
        SpecToken::Let
    } else if w == seq!['t', 'r', 'u', 'e'] {
        SpecToken::Bool(true)
    } else if w == seq!['f', 'a', 'l', 's', 'e'] {
        SpecToken::Bool(false)
    } else if w == seq!['i', 'f'] {
        SpecToken::If
    } else if w == seq!['e', 'l', 's', 'e'] {
        SpecToken::Else
    } else if w == seq!['r', 'e', 't', 'u', 'r', 'n'] {
        SpecToken::Return
    } else {
        SpecToken::Ident(w)
    }
}

/// The text by which an operator token is written; empty for other tokens.
pub open spec fn operator_text(t: SpecToken) -> Seq<char> {
    match t {
        SpecToken::Plus => seq!['+'],
        SpecToken::Minus => seq!['-'],
        SpecToken::Bang => seq!['!'],
        SpecToken::Asterisk => seq!['*'],
        SpecToken::Slash => seq!['/'],
        SpecToken::LT => seq!['<'],
        SpecToken::GT => seq!['>'],
        SpecToken::Comma => seq![','],
        SpecToken::Semicolon => seq![';'],
        SpecToken::Eq => seq!['=', '='],
        SpecToken::NotEq => seq!['!', '='],
        _ => Seq::empty(),
    }
}

fn str_eq(a: &str, b: &str) -> (r: bool)
    ensures
        r == (a@ == b@),
{
    let n = b.unicode_len();
    if a.unicode_len() != n {
        return false;
    }
    let mut i: usize = 0;
    while i < n
        invariant
            n == b@.len(),
            a@.len() == n,
            i <= n,
            forall|j: int| 0 <= j < i ==> a@[j] == b@[j],
        decreases n - i,
    {
        if a.get_char(i) != b.get_char(i) {
            return false;
        }
        i = i + 1;
    }
    assert(a@ =~= b@);
    true
}

impl Token {
    /// The token for a word of letters: `fn`, `let`, `true`, `false`, `if`, `else`
    /// and `return` are keywords, any other word is an identifier.
    pub fn from_str(input: &str) -> (r: Token)
        ensures
            r@ == word_token(input@),
    {
        proof {
            reveal_strlit("fn");
            reveal_strlit("let");
            reveal_strlit("true");
            reveal_strlit("false");
            reveal_strlit("if");
            reveal_strlit("else");
            reveal_strlit("return");
            assert("fn"@ =~= seq!['f', 'n']);
            assert("let"@ =~= seq!['l', 'e', 't']);
            assert("true"@ =~= seq!['t', 'r', 'u', 'e']);
            assert("false"@ =~= seq!['f', 'a', 'l', 's', 'e']);
            assert("if"@ =~= seq!['i', 'f']);
            assert("else"@ =~= seq!['e', 'l', 's', 'e']);
            assert("return"@ =~= seq!['r', 'e', 't', 'u', 'r', 'n']);
        }
        if str_eq(input, "fn") {
            Token::Function
        } else if str_eq(input, "let") {
            Token::Let
        } else if str_eq(input, "true") {
            Token::Bool(true)
        } else if str_eq(input, "false") {
            Token::Bool(false)
        } else if str_eq(input, "if") {
            Token::If
        } else if str_eq(input, "else") {
            Token::Else
        } else if str_eq(input, "return") {
            Token::Return
        } else {
            Token::Ident(input.to_owned())
        }
    }

    pub fn from_int(input: i64) -> (r: Token)
        ensures
            r@ == SpecToken::Int(input),
    {
        Token::Int(input)
    }

    /// The text by which an operator token is written; empty for other tokens.
    pub fn to_string(&self) -> (r: String)
        ensures
            r@ == operator_text(self@),
    {
        proof {
            reveal_strlit("+");
            reveal_strlit("-");
            reveal_strlit("!");
            reveal_strlit("*");
            reveal_strlit("/");
            reveal_strlit("<");
            reveal_strlit(">");
            reveal_strlit(",");
            reveal_strlit(";");
            reveal_strlit("==");
            reveal_strlit("!=");
        }
        let s: &str = match self {
            Token::Plus => "+",
            Token::Minus => "-",
            Token::Bang => "!",
            Token::Asterisk => "*",
            Token::Slash => "/",
            Token::LT => "<",
            Token::GT => ">",
            Token::Comma => ",",
            Token::Semicolon => ";",
            Token::Eq => "==",
            Token::NotEq => "!=",
            _ => "",
        };
        proof {
            reveal_strlit("");
        }
        let r = s.to_owned();
        assert(r@ =~= operator_text(self@));
        r
    }

    pub fn is_eof(&self) -> (r: bool)
        ensures
            r == (self@ is EOF),
    {
        matches!(self, Token::EOF)
    }
}

} // verus!
