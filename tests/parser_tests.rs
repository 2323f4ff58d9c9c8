use monkey::ast::{Expression, Ident, Precedence, Statement};
use monkey::lexer::Lexer;
use monkey::parser::Parser;
use monkey::token::Token;

fn check_let_statement(st: &Statement, name_expect: &str, value_expected: &Expression) -> bool {
    if let Statement::LetStatement(name, v) = st {
        name_expect.eq(&name.0) && v.eq(value_expected)
    } else {
        false
    }
}

fn check_function_expression(st: &Statement, expects: &Vec<&str>) -> bool {
    if let Statement::ExpressionStatement(Expression::FunctionExpression(params, _)) = st {
        assert_eq!(expects.len(), params.len());
        for (i, param) in params.iter().enumerate() {
            assert_eq!(param.0, expects[i]);
        }
        true
    } else {
        false
    }
}

fn render(input: &str) -> String {
    let l = Lexer::new(input);
    let mut p = Parser::new(l);
    let program = p.parse_program().unwrap();
    program.to_string()
}

#[test]
fn test_let_statements() {
    let input = r"
    let x = 5;
    let y = 10;
    let foobar = 838383;
    let y = true;
    let foobar = y;
    ";
    let name_values = vec![
        ("x", Expression::IntLiteral(5)),
        ("y", Expression::IntLiteral(10)),
        ("foobar", Expression::IntLiteral(838383)),
        ("y", Expression::BoolLiteral(true)),
        ("foobar", Expression::Identifier(Ident("y".into()))),
    ];

    let l = Lexer::new(input);
    let mut p = Parser::new(l);
    let program = p.parse_program().unwrap();

    assert_eq!(program.statements.len(), name_values.len());
    for (pos, st) in program.statements.iter().enumerate() {
        assert!(check_let_statement(st, name_values[pos].0, &name_values[pos].1));
    }
}

#[test]
fn test_infix_expression() {
    let input = "4 + 5 + 10;";

    let l = Lexer::new(input);
    let mut p = Parser::new(l);
    let program = p.parse_program().unwrap();

    assert_eq!(program.statements.len(), 1);
    assert_eq!(
        program.statements[0],
        Statement::ExpressionStatement(Expression::InfixExpression(
            Box::new(Expression::InfixExpression(
                Box::new(Expression::IntLiteral(4)),
                Token::Plus,
                Box::new(Expression::IntLiteral(5))
            )),
            Token::Plus,
            Box::new(Expression::IntLiteral(10))
        ))
    );
}

#[test]
fn test_operator_precedence() {
    let tests = vec![
        ("-a * b", "((-a) * b)"),
        ("!-a", "(!(-a))"),
        ("a + b + c", "((a + b) + c)"),
        ("a + b - c", "((a + b) - c)"),
        ("a * b * c", "((a * b) * c)"),
        ("a * b / c", "((a * b) / c)"),
        ("a + b / c", "(a + (b / c))"),
        ("a + b * c + d / e - f", "(((a + (b * c)) + (d / e)) - f)"),
        ("3 + 4; -5 * 5", "(3 + 4); ((-5) * 5)"),
        ("5 > 4 == 3 < 4", "((5 > 4) == (3 < 4))"),
        ("5 < 4 != 3 > 4", "((5 < 4) != (3 > 4))"),
        (
            "3 + 4 * 5 == 3 * 1 + 4 * 5",
            "((3 + (4 * 5)) == ((3 * 1) + (4 * 5)))",
        ),
        (
            "3 + 4 * 5 == 3 * 1 + 4 * 5",
            "((3 + (4 * 5)) == ((3 * 1) + (4 * 5)))",
        ),
        ("a + add(b * c) + d", "((a + add((b * c))) + d)"),
        (
            "add(a, b, 1, 2 * 3, 4 + 5, add(6, 7 * 8))",
            "add(a, b, 1, (2 * 3), (4 + 5), add(6, (7 * 8)))",
        ),
        (
            "add(a + b + c * d / f + g)",
            "add((((a + b) + ((c * d) / f)) + g))",
        ),
    ];

    for (input, expect) in tests {
        assert_eq!(render(input), expect);
    }
}

#[test]
fn test_if_else_expression() {
    let input = "if (x < y) { x } else { y }";

    let l = Lexer::new(input);
    let mut p = Parser::new(l);
    let program = p.parse_program().unwrap();

    assert_eq!(program.statements.len(), 1);
}

#[test]
fn test_function_literal() {
    let cases = vec![
        ("fn() {};", vec![]),
        ("fn(x) {};", vec!["x"]),
        ("fn(x, y, z) {};", vec!["x", "y", "z"]),
    ];

    for (input, expect) in cases {
        let l = Lexer::new(input);
        let mut p = Parser::new(l);
        let program = p.parse_program().unwrap();

        assert!(check_function_expression(&program.statements[0], &expect));
    }
}

#[test]
fn test_call_expression() {
    let input = "add(1, 2 * 3, 4 + 5);";
    let l = Lexer::new(input);
    let mut p = Parser::new(l);
    let program = p.parse_program().unwrap();

    assert_eq!(program.statements.len(), 1);
    println!("{:?}", program.statements[0]);
}

#[test]
fn test_string_literal() {
    let input = "\"hello world\";";

    let l = Lexer::new(input);
    let mut p = Parser::new(l);
    let program = p.parse_program().unwrap();

    assert_eq!(program.statements.len(), 1);
    if let Statement::ExpressionStatement(Expression::StringLiteral(v)) = &program.statements[0] {
        assert_eq!(v, "hello world");
    } else {
        assert!(false, "expect a string literal, but a {:?}", &program.statements[0]);
    }
}

#[test]
fn if_else_branches_are_kept() {
    let l = Lexer::new("if (x < y) { x } else { y; z }");
    let mut p = Parser::new(l);
    let program = p.parse_program().unwrap();
    match &program.statements[0] {
        Statement::ExpressionStatement(Expression::IfExpression(_, cons, alt)) => {
            assert_eq!(cons.len(), 1);
            assert_eq!(alt.len(), 2);
        }
        other => panic!("expected a conditional, got {:?}", other),
    }
}

#[test]
fn let_and_return_render() {
    assert_eq!(render("let x = 1 + 2;"), "let x = (1 + 2)");
    assert_eq!(render("return x * y"), "return (x * y)");
    assert_eq!(render("let a = 1; return a;"), "let a = 1; return a");
    assert_eq!(render("f(x)(y)"), "f(x)(y)");
}

#[test]
fn parse_errors() {
    let inputs = [
        "let = 5;",
        "let x 5;",
        "(1 + 2",
        "if x { 1 }",
        "fn(x, 1) { x }",
        "add(1, 2",
        "{ 1 }",
        "@",
        "3.14",
        "if (x) { 1",
    ];
    for input in inputs {
        let l = Lexer::new(input);
        let mut p = Parser::new(l);
        assert!(p.parse_program().is_err(), "{} should not parse", input);
    }
}

#[test]
fn empty_program() {
    let l = Lexer::new("   ");
    let mut p = Parser::new(l);
    let program = p.parse_program().unwrap();
    assert_eq!(program.statements.len(), 0);
    assert_eq!(program.to_string(), "");
}

#[test]
fn precedence_levels() {
    assert_eq!(Precedence::Sum.to_i32(), 3);
    assert_eq!(Precedence::from_i32(4), Precedence::Product);
    assert_eq!(Precedence::from_i32(42), Precedence::Lowest);
    assert_eq!(Precedence::Sum.sub(1), Precedence::LessGreater);
    assert_eq!(Precedence::Sum.add(10), Precedence::Call);
    assert_eq!(Precedence::Equals.sub(5), Precedence::Lowest);
    assert_eq!(Precedence::from_token(&Token::LParen), Precedence::Call);
    assert_eq!(Precedence::from_token(&Token::Slash), Precedence::Product);
    assert_eq!(Precedence::from_token(&Token::Comma), Precedence::Lowest);
}

#[test]
fn expect_peek_moves_only_on_match() {
    let l = Lexer::new("a = b");
    let mut p = Parser::new(l);
    assert!(!p.expect_peek(Token::Comma));
    assert!(p.expect_peek(Token::Assign));
    let e = p.parse_expression(Precedence::Lowest);
    assert!(e.is_err());
}

#[test]
fn rendered_program_reparses_to_same_result() {
    for input in [
        "1 + 2 * 3 == 7",
        "-(4 * 5) < !true == false",
        "10 > 2 != 3 < 1",
        "\"a\"",
        "\"+\" + \" \"",
        "\" \"",
        "if (true) { 1 }",
        "if (1 > 2) { 1; 2 } else { let q = 3; q }",
        "3 + 4; -5 * 5",
        "let add = fn(x, y) { return x + y; }; add(add(1, 2), 3)",
        "fn() { 7 }()",
        "let s = \"say \\\"hi\\\"\"; s + \"!\"",
    ] {
        let rendered = render(input);
        let first = monkey::evaluate(input).unwrap();
        let again = monkey::evaluate(&rendered).unwrap();
        assert_eq!(first, again);
        assert_eq!(render(&rendered), rendered);
    }
}

#[test]
fn strings_conditionals_and_functions_render_in_full() {
    assert_eq!(render("\"a b\""), "\"a b\"");
    assert_eq!(render("if (x < y) { x } else { y; z }"), "if ((x < y)) { x } else { y; z }");
    assert_eq!(render("if (x) { }"), "if (x) {  }");
    assert_eq!(render("fn(a, b) { return a * b; }"), "fn(a, b) { return (a * b) }");
    assert_eq!(render("fn() { 1 }(2)"), "fn() { 1 }(2)");
}
