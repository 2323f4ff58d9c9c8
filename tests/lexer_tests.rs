use monkey::lexer::Lexer;
use monkey::token::Token;

#[test]
fn sign_test() {
    let mut lx = Lexer::new("={}[]+;");
    let expects: Vec<Token> = vec![
        Token::Assign,
        Token::LBrace,
        Token::RBrace,
        Token::LBracket,
        Token::RBracket,
        Token::Plus,
        Token::Semicolon,
        Token::EOF,
    ];

    for tk in expects {
        assert_eq!(tk, lx.next_token());
    }
}

#[test]
fn simple_token_test() {
    let input = r"let five = 5;
    let ten  = 10;

    let add = fn(x, y) {
        x + y;
    };

    let result = add(five, ten);
    !-/*5;
    5 < 10 > 5;

    if (5 < 10) {
        return true;
    } else {
        return false;
    }

    10 == 10;
    10 != 9;
    ";

    let expects: Vec<Token> = vec![
        Token::Let,
        Token::from_str("five"),
        Token::Assign,
        Token::from_int(5),
        Token::Semicolon,
        Token::Let,
        Token::from_str("ten"),
        Token::Assign,
        Token::from_int(10),
        Token::Semicolon,
        Token::Let,
        Token::from_str("add"),
        Token::Assign,
        Token::Function,
        Token::LParen,
        Token::from_str("x"),
        Token::Comma,
        Token::from_str("y"),
        Token::RParen,
        Token::LBrace,
        Token::from_str("x"),
        Token::Plus,
        Token::from_str("y"),
        Token::Semicolon,
        Token::RBrace,
        Token::Semicolon,
        Token::Let,
        Token::from_str("result"),
        Token::Assign,
        Token::from_str("add"),
        Token::LParen,
        Token::from_str("five"),
        Token::Comma,
        Token::from_str("ten"),
        Token::RParen,
        Token::Semicolon,
        Token::Bang,
        Token::Minus,
        Token::Slash,
        Token::Asterisk,
        Token::from_int(5),
        Token::Semicolon,
        Token::from_int(5),
        Token::LT,
        Token::from_int(10),
        Token::GT,
        Token::from_int(5),
        Token::Semicolon,
        Token::If,
        Token::LParen,
        Token::from_int(5),
        Token::LT,
        Token::from_int(10),
        Token::RParen,
        Token::LBrace,
        Token::Return,
        Token::Bool(true),
        Token::Semicolon,
        Token::RBrace,
        Token::Else,
        Token::LBrace,
        Token::Return,
        Token::Bool(false),
        Token::Semicolon,
        Token::RBrace,
        Token::from_int(10),
        Token::Eq,
        Token::from_int(10),
        Token::Semicolon,
        Token::from_int(10),
        Token::NotEq,
        Token::from_int(9),
        Token::Semicolon,
        Token::EOF,
    ];

    let mut lx = Lexer::new(input);
    for tk in expects {
        assert_eq!(tk, lx.next_token());
    }
}

#[test]
fn test_string_token() {
    let cases = [
        ("\"hello\"", Token::String("hello".to_string())),
        ("\"hello \\\"world\\\"\"", Token::String("hello \\\"world\\\"".to_string())),
    ];

    for (input, expect) in cases {
        let mut lx = Lexer::new(input);
        assert_eq!(lx.next_token(), expect)
    }
}

#[test]
fn end_of_input_is_stable() {
    let mut lx = Lexer::new("x");
    assert_eq!(lx.next_token(), Token::Ident("x".to_string()));
    assert_eq!(lx.next_token(), Token::EOF);
    assert_eq!(lx.next_token(), Token::EOF);
    assert_eq!(lx.next_token(), Token::EOF);
}

#[test]
fn keywords_and_identifiers() {
    assert_eq!(Token::from_str("fn"), Token::Function);
    assert_eq!(Token::from_str("let"), Token::Let);
    assert_eq!(Token::from_str("true"), Token::Bool(true));
    assert_eq!(Token::from_str("false"), Token::Bool(false));
    assert_eq!(Token::from_str("if"), Token::If);
    assert_eq!(Token::from_str("else"), Token::Else);
    assert_eq!(Token::from_str("return"), Token::Return);
    assert_eq!(Token::from_str("iffy"), Token::Ident("iffy".to_string()));
}

#[test]
fn illegal_and_float_tokens() {
    let mut lx = Lexer::new("@ 3.14 2.5.1");
    assert_eq!(lx.next_token(), Token::Illegal);
    assert_eq!(lx.next_token(), Token::Float("3.14".to_string()));
    assert_eq!(lx.next_token(), Token::Float("2.5".to_string()));
    assert_eq!(lx.next_token(), Token::Illegal);
    assert_eq!(lx.next_token(), Token::from_int(1));
    assert_eq!(lx.next_token(), Token::EOF);
}

#[test]
fn largest_integer_and_overflowing_literal() {
    let mut lx = Lexer::new("9223372036854775807 9223372036854775808");
    assert_eq!(lx.next_token(), Token::Int(i64::MAX));
    assert_eq!(lx.next_token(), Token::Illegal);
    assert_eq!(lx.next_token(), Token::EOF);
}

#[test]
fn unterminated_string_is_illegal() {
    let mut lx = Lexer::new("\"abc");
    assert_eq!(lx.next_token(), Token::Illegal);
    assert_eq!(lx.next_token(), Token::EOF);
    let mut lx = Lexer::new("\"abc\\\"");
    assert_eq!(lx.next_token(), Token::Illegal);
    assert_eq!(lx.next_token(), Token::EOF);
}

#[test]
fn read_identifier_reads_letters_only() {
    let mut lx = Lexer::new("abc1");
    assert_eq!(lx.read_identifier(), "abc".to_string());
    assert_eq!(lx.next_token(), Token::from_int(1));
}

#[test]
fn operator_text() {
    assert_eq!(Token::Eq.to_string(), "==");
    assert_eq!(Token::NotEq.to_string(), "!=");
    assert_eq!(Token::Plus.to_string(), "+");
    assert_eq!(Token::LParen.to_string(), "");
    assert!(Token::EOF.is_eof());
    assert!(!Token::Plus.is_eof());
}
