use vstd::prelude::*;
use crate::text::{chars_of, substring};
use crate::token::{SpecToken, Token, word_token};

verus! {

pub open spec fn is_letter(c: char) -> bool {
    ('a' <= c && c <= 'z') || ('A' <= c && c <= 'Z')
}

pub open spec fn is_digit(c: char) -> bool {
    '0' <= c && c <= '9'
}

pub open spec fn is_space(c: char) -> bool {
    c == ' ' || c == '\t' || c == '\n' || c == '\r' || c == '\x0B' || c == '\x0C'
}

/// The first position at or after `p` that does not hold whitespace.
pub open spec fn skip_spaces(s: Seq<char>, p: int) -> int
    decreases s.len() - p,
{
    if 0 <= p < s.len() && is_space(s[p]) {
        skip_spaces(s, p + 1)
    } else {
        p
    }
}

/// The end of the run of letters that starts at `p`.
pub open spec fn letters_end(s: Seq<char>, p: int) -> int
    decreases s.len() - p,
{
    if 0 <= p < s.len() && is_letter(s[p]) {
        letters_end(s, p + 1)
    } else {
        p
    }
}

/// The end of the run of digits that starts at `p`.
pub open spec fn digits_end(s: Seq<char>, p: int) -> int
    decreases s.len() - p,
{
    if 0 <= p < s.len() && is_digit(s[p]) {
        digits_end(s, p + 1)
    } else {
        p
    }
}

/// The end of a number that starts at `p`: digits, and at most one point followed
/// by more digits.
pub open spec fn number_end(s: Seq<char>, p: int) -> int {
    let d = digits_end(s, p);
    if 0 <= d < s.len() && s[d] == '.' {
        digits_end(s, d + 1)
    } else {
        d
    }
}

/// The position of the quote that closes a string whose text starts at `i`
/// (`\"` stands for a quote inside the string), or the end of input. A string
/// that is not closed is an illegal token.
pub open spec fn string_end(s: Seq<char>, i: int) -> int
    decreases s.len() - i,
{
    if i < 0 || i >= s.len() {
        s.len() as int
    } else if s[i] == '\\' && i + 1 < s.len() && s[i + 1] == '"' {
        string_end(s, i + 2)
    } else if s[i] == '"' {
        i
    } else {
        string_end(s, i + 1)
    }
}

pub open spec fn digit_value(c: char) -> int {
    c as int - '0' as int
}

/// The number that a sequence of decimal digits writes.
pub open spec fn digits_value(ds: Seq<char>) -> int
    decreases ds.len(),
{
    if ds.len() == 0 {
        0
    } else {
        digits_value(ds.drop_last()) * 10 + digit_value(ds.last())
    }
}

/// The token that a single punctuation character stands for, if any.
pub open spec fn punct_token(c: char) -> Option<SpecToken> {
    if c == '+' {
        Some(SpecToken::Plus)
    } else if c == '-' {
        Some(SpecToken::Minus)
    } else if c == '*' {
        Some(SpecToken::Asterisk)
    } else if c == '/' {
        Some(SpecToken::Slash)
    } else if c == '<' {
        Some(SpecToken::LT)
    } else if c == '>' {
        Some(SpecToken::GT)
    } else if c == ',' {
        Some(SpecToken::Comma)
    } else if c == ';' {
        Some(SpecToken::Semicolon)
    } else if c == '(' {
        Some(SpecToken::LParen)
    } else if c == ')' {
        Some(SpecToken::RParen)
    } else if c == '[' {
        Some(SpecToken::LBracket)
    } else if c == ']' {
        Some(SpecToken::RBracket)
    } else if c == '{' {
        Some(SpecToken::LBrace)
    } else if c == '}' {
        Some(SpecToken::RBrace)
    } else {
        None
    }
}

/// The token that a number starting at `q` stands for, and where it ends.
pub open spec fn number_token(s: Seq<char>, q: int) -> (SpecToken, int) {
    let e = number_end(s, q);
    if e > digits_end(s, q) {
        (SpecToken::Float(s.subrange(q, e)), e)
    } else if digits_value(s.subrange(q, e)) <= i64::MAX {
        (SpecToken::Int(digits_value(s.subrange(q, e)) as i64), e)
    } else {
        (SpecToken::Illegal, e)
    }
}

/// One step of scanning: the token that starts at or after position `p` (after
/// whitespace), and the position just past it. At the end of input the token is
/// `EOF` and the position stays at the end.
#[verifier::opaque]
pub open spec fn lex_step(s: Seq<char>, p: int) -> (SpecToken, int) {
    let q = skip_spaces(s, p);
    if q >= s.len() {
        (SpecToken::EOF, s.len() as int)
    } else {
        let c = s[q];
        if c == '=' {
            if q + 1 < s.len() && s[q + 1] == '=' {
                (SpecToken::Eq, q + 2)
            } else {
                (SpecToken::Assign, q + 1)
            }
        } else if c == '!' {
            if q + 1 < s.len() && s[q + 1] == '=' {
                (SpecToken::NotEq, q + 2)
            } else {
                (SpecToken::Bang, q + 1)
            }
        } else if punct_token(c) is Some {
            (punct_token(c)->0, q + 1)
        } else if c == '"' {
            let e = string_end(s, q + 1);
            if e < s.len() {
                (SpecToken::Str(s.subrange(q + 1, e)), e + 1)
            } else {
                (SpecToken::Illegal, e)
            }
        } else if is_letter(c) {
            let e = letters_end(s, q);
            (word_token(s.subrange(q, e)), e)
        } else if is_digit(c) {
            number_token(s, q)
        } else {
            (SpecToken::Illegal, q + 1)
        }
    }
}

/// Turns source text into tokens, one at a time, on demand.
pub struct Lexer {
    input: Vec<char>,
    position: usize,
    ch: char,
}

impl Lexer {
    /// The characters being scanned.
    pub closed spec fn text(&self) -> Seq<char> {
        self.input@
    }

    /// The position of the next character to scan.
    pub closed spec fn pos(&self) -> int {
        self.position as int
    }

    pub closed spec fn wf(&self) -> bool {
        &&& self.position <= self.input@.len()
        &&& self.ch == if self.position < self.input@.len() {
            self.input@[self.position as int]
        } else {
            '\0'
        }
    }

    pub fn new(input: &str) -> (r: Lexer)
        ensures
            r.wf(),
            r.text() == input@,
            r.pos() == 0,
    {
        let chars = chars_of(input);
        let ch = if chars.len() > 0 {
            chars[0]
        } else {
            '\0'
        };
        Lexer { input: chars, position: 0, ch }
    }

    /// Moves one character forward; at the end of input, stays there.
    pub fn read_char(&mut self)
        requires
            old(self).wf(),
        ensures
            final(self).wf(),
            final(self).text() == old(self).text(),
            final(self).pos() == if old(self).pos() < old(self).text().len() {
                old(self).pos() + 1
            } else {
                old(self).pos()
            },
    {
        if self.position < self.input.len() {
            self.position = self.position + 1;
            self.ch = if self.position < self.input.len() {
                self.input[self.position]
            } else {
                '\0'
            };
        }
    }

    /// The character after the current one, or `'\0'` past the end.
    fn peek_char(&self) -> (r: char)
        requires
            self.wf(),
        ensures
            r == if self.pos() + 1 < self.text().len() {
                self.text()[self.pos() + 1]
            } else {
                '\0'
            },
    {
        if self.position < self.input.len() && self.position + 1 < self.input.len() {
            self.input[self.position + 1]
        } else {
            '\0'
        }
    }

    pub proof fn lemma_wf_pos(&self)
        requires
            self.wf(),
        ensures
            0 <= self.pos() <= self.text().len(),
    {
    }

    fn at_end(&self) -> (r: bool)
        requires
            self.wf(),
        ensures
            r == (self.pos() >= self.text().len()),
    {
        self.position >= self.input.len()
    }

    fn skip_whitespace(&mut self)
        requires
            old(self).wf(),
        ensures
            final(self).wf(),
            final(self).text() == old(self).text(),
            final(self).pos() == skip_spaces(old(self).text(), old(self).pos()),
    {
        while self.position < self.input.len() && is_space_char(self.ch)
            invariant
                self.wf(),
                self.text() == old(self).text(),
                skip_spaces(self.text(), self.pos()) == skip_spaces(
                    old(self).text(),
                    old(self).pos(),
                ),
            decreases self.text().len() - self.pos(),
        {
            self.read_char();
        }
    }

    /// Reads the run of letters at the current position.
    pub fn read_identifier(&mut self) -> (r: String)
        requires
            old(self).wf(),
        ensures
            final(self).wf(),
            final(self).text() == old(self).text(),
            final(self).pos() == letters_end(old(self).text(), old(self).pos()),
            r@ == old(self).text().subrange(old(self).pos(), final(self).pos()),
    {
        let start = self.position;
        while self.position < self.input.len() && is_letter_char(self.ch)
            invariant
                self.wf(),
                self.text() == old(self).text(),
                start == old(self).pos(),
                start <= self.pos(),
                letters_end(self.text(), self.pos()) == letters_end(
                    old(self).text(),
                    old(self).pos(),
                ),
            decreases self.text().len() - self.pos(),
        {
            self.read_char();
        }
        substring(&self.input, start, self.position)
    }

    fn read_digits(&mut self)
        requires
            old(self).wf(),
        ensures
            final(self).wf(),
            final(self).text() == old(self).text(),
            final(self).pos() == digits_end(old(self).text(), old(self).pos()),
            old(self).pos() <= final(self).pos(),
            forall|k: int| old(self).pos() <= k < final(self).pos() ==> is_digit(old(self).text()[k]),
    {
        while self.position < self.input.len() && is_digit_char(self.ch)
            invariant
                self.wf(),
                self.text() == old(self).text(),
                old(self).pos() <= self.pos(),
                forall|k: int| old(self).pos() <= k < self.pos() ==> is_digit(self.text()[k]),
                digits_end(self.text(), self.pos()) == digits_end(
                    old(self).text(),
                    old(self).pos(),
                ),
            decreases self.text().len() - self.pos(),
        {
            self.read_char();
        }
    }

    fn read_number_token(&mut self) -> (r: Token)
        requires
            old(self).wf(),
        ensures
            final(self).wf(),
            final(self).text() == old(self).text(),
            (r@, final(self).pos()) == number_token(old(self).text(), old(self).pos()),
    {
        let ghost s = self.text();
        let start = self.position;
        self.read_digits();
        let digits_stop = self.position;
        if self.position < self.input.len() && self.ch == '.' {
            self.read_char();
            self.read_digits();
            return Token::Float(substring(&self.input, start, self.position));
        }
        let value = digits_to_int(&self.input, start, digits_stop);
        match value {
            Some(v) => Token::Int(v),
            None => Token::Illegal,
        }
    }

    fn read_string(&mut self) -> (r: Token)
        requires
            old(self).wf(),
            old(self).pos() < old(self).text().len(),
            old(self).text()[old(self).pos()] == '"',
        ensures
            final(self).wf(),
            final(self).text() == old(self).text(),
            ({
                let s = old(self).text();
                let e = string_end(s, old(self).pos() + 1);
                &&& r@ == if e < s.len() {
                    SpecToken::Str(s.subrange(old(self).pos() + 1, e))
                } else {
                    SpecToken::Illegal
                }
                &&& final(self).pos() == if e < s.len() {
                    e + 1
                } else {
                    e
                }
            }),
    {
        let ghost s = self.text();
        self.read_char();
        let start = self.position;
        proof {
            lemma_string_end_bounds(s, start as int);
        }
        loop
            invariant
                self.wf(),
                self.text() == s,
                start <= self.pos(),
                start == old(self).pos() + 1,
                string_end(s, self.pos()) == string_end(s, start as int),
            ensures
                self.wf(),
                self.text() == s,
                start <= self.pos(),
                string_end(s, self.pos()) == string_end(s, start as int),
                string_end(s, self.pos()) == self.pos(),
            decreases s.len() - self.pos(),
        {
            if self.position >= self.input.len() {
                break;
            }
            if self.ch == '\\' && self.peek_char() == '"' {
                self.read_char();
                self.read_char();
            } else if self.ch == '"' {
                break;
            } else {
                self.read_char();
            }
        }
        if self.position >= self.input.len() {
            return Token::Illegal;
        }
        let content = substring(&self.input, start, self.position);
        self.read_char();
        Token::String(content)
    }

    /// Scans the next token.
    pub fn next_token(&mut self) -> (r: Token)
        requires
            old(self).wf(),
        ensures
            final(self).wf(),
            final(self).text() == old(self).text(),
            (r@, final(self).pos()) == lex_step(old(self).text(), old(self).pos()),
    {
        reveal(lex_step);
        self.skip_whitespace();
        if self.at_end() {
            return Token::EOF;
        }
        let c = self.ch;
        if c == '=' {
            if self.peek_char() == '=' {
                self.read_char();
                self.read_char();
                Token::Eq
            } else {
                self.read_char();
                Token::Assign
            }
        } else if c == '!' {
            if self.peek_char() == '=' {
                self.read_char();
                self.read_char();
                Token::NotEq
            } else {
                self.read_char();
                Token::Bang
            }
        } else if let Some(t) = punct(c) {
            self.read_char();
            t
        } else if c == '"' {
            self.read_string()
        } else if is_letter_char(c) {
            let word = self.read_identifier();
            Token::from_str(word.as_str())
        } else if is_digit_char(c) {
            self.read_number_token()
        } else {
            self.read_char();
            Token::Illegal
        }
    }
}

fn is_space_char(c: char) -> (r: bool)
    ensures
        r == is_space(c),
{
    c == ' ' || c == '\t' || c == '\n' || c == '\r' || c == '\x0B' || c == '\x0C'
}

fn is_letter_char(c: char) -> (r: bool)
    ensures
        r == is_letter(c),
{
    ('a' <= c && c <= 'z') || ('A' <= c && c <= 'Z')
}

fn is_digit_char(c: char) -> (r: bool)
    ensures
        r == is_digit(c),
{
    '0' <= c && c <= '9'
}

fn punct(c: char) -> (r: Option<Token>)
    ensures
        r is Some == punct_token(c) is Some,
        r is Some ==> r->0@ == punct_token(c)->0,
{
    if c == '+' {
        Some(Token::Plus)
    } else if c == '-' {
        Some(Token::Minus)
    } else if c == '*' {
        Some(Token::Asterisk)
    } else if c == '/' {
        Some(Token::Slash)
    } else if c == '<' {
        Some(Token::LT)
    } else if c == '>' {
        Some(Token::GT)
    } else if c == ',' {
        Some(Token::Comma)
    } else if c == ';' {
        Some(Token::Semicolon)
    } else if c == '(' {
        Some(Token::LParen)
    } else if c == ')' {
        Some(Token::RParen)
    } else if c == '[' {
        Some(Token::LBracket)
    } else if c == ']' {
        Some(Token::RBracket)
    } else if c == '{' {
        Some(Token::LBrace)
    } else if c == '}' {
        Some(Token::RBrace)
    } else {
        None
    }
}

pub proof fn lemma_string_end_bounds(s: Seq<char>, i: int)
    requires
        0 <= i <= s.len(),
    ensures
        i <= string_end(s, i) <= s.len(),
    decreases s.len() - i,
{
    if i < s.len() {
        if s[i] == '\\' && i + 1 < s.len() && s[i + 1] == '"' {
            lemma_string_end_bounds(s, i + 2);
        } else if s[i] != '"' {
            lemma_string_end_bounds(s, i + 1);
        }
    }
}

pub proof fn lemma_digits_value_push(ds: Seq<char>, c: char)
    ensures
        digits_value(ds.push(c)) == digits_value(ds) * 10 + digit_value(c),
{
    assert(ds.push(c).drop_last() =~= ds);
}

/// The value of the digits `v[from..to]`, or `None` where it exceeds `i64::MAX`.
fn digits_to_int(v: &Vec<char>, from: usize, to: usize) -> (r: Option<i64>)
    requires
        from <= to <= v@.len(),
        forall|k: int| from <= k < to ==> is_digit(v@[k]),
    ensures
        r is Some <==> digits_value(v@.subrange(from as int, to as int)) <= i64::MAX,
        r is Some ==> r->0 == digits_value(v@.subrange(from as int, to as int)),
{
    let mut acc: i64 = 0;
    let mut i: usize = from;
    while i < to
        invariant
            from <= i <= to <= v@.len(),
            forall|k: int| from <= k < to ==> is_digit(v@[k]),
            acc == digits_value(v@.subrange(from as int, i as int)),
            acc >= 0,
        decreases to - i,
    {
        let d = (v[i] as u32 - '0' as u32) as i64;
        proof {
            lemma_digits_value_push(v@.subrange(from as int, i as int), v@[i as int]);
            assert(v@.subrange(from as int, i as int).push(v@[i as int]) =~= v@.subrange(
                from as int,
                i + 1,
            ));
        }
        if acc > (i64::MAX - d) / 10 {
            proof {
                lemma_digits_value_grows(v@, from as int, i + 1, to as int);
            }
            return None;
        }
        acc = acc * 10 + d;
        i = i + 1;
    }
    Some(acc)
}

proof fn lemma_digits_value_grows(s: Seq<char>, from: int, i: int, to: int)
    requires
        0 <= from <= i <= to <= s.len(),
        forall|k: int| from <= k < to ==> is_digit(s[k]),
    ensures
        digits_value(s.subrange(from, to)) >= digits_value(s.subrange(from, i)),
    decreases to - i,
{
    if i < to {
        lemma_digits_value_grows(s, from, i + 1, to);
        lemma_digits_value_push(s.subrange(from, i), s[i]);
        assert(s.subrange(from, i).push(s[i]) =~= s.subrange(from, i + 1));
        lemma_digits_value_nonneg(s.subrange(from, i));
    }
}

pub proof fn lemma_digits_value_nonneg(ds: Seq<char>)
    requires
        forall|k: int| 0 <= k < ds.len() ==> is_digit(ds[k]),
    ensures
        digits_value(ds) >= 0,
    decreases ds.len(),
{
    if ds.len() > 0 {
        lemma_digits_value_nonneg(ds.drop_last());
    }
}

pub proof fn lemma_skip_spaces_bounds(s: Seq<char>, p: int)
    requires
        0 <= p <= s.len(),
    ensures
        p <= skip_spaces(s, p) <= s.len(),
    decreases s.len() - p,
{
    if p < s.len() && is_space(s[p]) {
        lemma_skip_spaces_bounds(s, p + 1);
    }
}

pub proof fn lemma_letters_end_bounds(s: Seq<char>, p: int)
    requires
        0 <= p <= s.len(),
    ensures
        p <= letters_end(s, p) <= s.len(),
        p < s.len() && is_letter(s[p]) ==> p < letters_end(s, p),
    decreases s.len() - p,
{
    if p < s.len() && is_letter(s[p]) {
        lemma_letters_end_bounds(s, p + 1);
    }
}

pub proof fn lemma_digits_end_bounds(s: Seq<char>, p: int)
    requires
        0 <= p <= s.len(),
    ensures
        p <= digits_end(s, p) <= s.len(),
        p < s.len() && is_digit(s[p]) ==> p < digits_end(s, p),
    decreases s.len() - p,
{
    if p < s.len() && is_digit(s[p]) {
        lemma_digits_end_bounds(s, p + 1);
    }
}

/// Scanning never moves backward nor past the end, and every token but `EOF`
/// consumes at least one character; `EOF` leaves the position at the end.
pub proof fn lemma_lex_step_progress(s: Seq<char>, p: int)
    requires
        0 <= p <= s.len(),
    ensures
        p <= lex_step(s, p).1 <= s.len(),
        lex_step(s, p).0 is EOF ==> lex_step(s, p).1 == s.len(),
        !(lex_step(s, p).0 is EOF) ==> p < lex_step(s, p).1,
{
    reveal(lex_step);
    lemma_skip_spaces_bounds(s, p);
    let q = skip_spaces(s, p);
    if q < s.len() {
        let c = s[q];
        if c == '"' {
            lemma_string_end_bounds(s, q + 1);
        } else if is_letter(c) {
            lemma_letters_end_bounds(s, q);
            let w = s.subrange(q, letters_end(s, q));
            assert(!(word_token(w) is EOF));
        } else if is_digit(c) {
            lemma_digits_end_bounds(s, q);
            let d = digits_end(s, q);
            if 0 <= d < s.len() && s[d] == '.' {
                lemma_digits_end_bounds(s, d + 1);
            }
        }
    }
}

} // verus!
