use monkey::environment::Environment;
use monkey::evaluate;
use monkey::evaluator::Evaluator;
use monkey::lexer::Lexer;
use monkey::object::ObjectWrapper;
use monkey::parser::{ParseError, Parser};

fn test_eval(input: &str) -> Result<ObjectWrapper, ParseError> {
    let l = Lexer::new(input);
    let mut p = Parser::new(l);
    let program = p.parse_program()?;
    let mut evaluator = Evaluator::new(&program.statements);
    evaluator.eval()
}

fn error_of(input: &str) -> String {
    match test_eval(input).unwrap() {
        ObjectWrapper::ErrorObject(m) => m,
        other => panic!("{} gave {:?}, not an error", input, other),
    }
}

#[test]
fn test_integer_object() {
    let cases = vec![("5", 5), ("10", 10)];
    for (input, expect) in cases {
        let obj = test_eval(input).unwrap();
        if let ObjectWrapper::Integer(v) = obj {
            assert_eq!(v, expect);
        } else {
            assert!(false, "{:?} is not an integer object.", obj);
        }
    }
}

#[test]
fn test_return_statement() {
    let cases = [
        ("return 10", ObjectWrapper::Integer(10)),
        ("return 10; 9;", ObjectWrapper::Integer(10)),
        ("return 2 * 5; 9", ObjectWrapper::Integer(10)),
        ("9; return 2 * 5; 9;", ObjectWrapper::Integer(10)),
        ("let a = 5; return 2 * a; 9;", ObjectWrapper::Integer(10)),
        (
            "if (10 > 1) { if (10 > 1) { return 10; } return 1; }",
            ObjectWrapper::Integer(10),
        ),
    ];

    for (input, expect) in cases {
        let obj = test_eval(input).unwrap();
        assert_eq!(obj, expect);
    }
}

#[test]
fn test_error_handle() {
    let cases = [("foobar", "identifier not found: foobar")];

    for (input, expect) in cases {
        let obj = test_eval(input).unwrap();
        if let ObjectWrapper::ErrorObject(v) = obj {
            assert_eq!(&v, expect);
        } else {
            assert!(false, "{:?} is not an error object.", obj);
        }
    }
}

#[test]
fn test_function_call() {
    let cases = [
        ("fn(x, y){ return x + y; }(5, 5);", 10i64),
        ("let add = fn(x, y) { return x + y; }; add(4, 6);", 10),
        (
            "let add = fn(x, y) { return x + y; }; add(add(1, 2), add(add(2, 2), add(1, 2)));",
            10,
        ),
    ];

    for (input, expect) in cases {
        let obj = test_eval(input).unwrap();
        if let ObjectWrapper::Integer(v) = obj {
            assert_eq!(v, expect);
        } else {
            assert!(false, "expect integer: {}, got {:?}", expect, obj);
        }
    }
}

#[test]
fn integer_literals_evaluate_to_themselves() {
    for (input, expect) in [("0", 0i64), ("42", 42), ("9223372036854775807", i64::MAX)] {
        assert_eq!(evaluate(input).unwrap(), ObjectWrapper::Integer(expect));
    }
}

#[test]
fn less_than_orders_integers() {
    assert_eq!(test_eval("1 < 2").unwrap(), ObjectWrapper::Boolean(true));
    assert_eq!(test_eval("2 < 1").unwrap(), ObjectWrapper::Boolean(false));
    assert_eq!(test_eval("2 > 1").unwrap(), ObjectWrapper::Boolean(true));
    assert_eq!(test_eval("1 > 1").unwrap(), ObjectWrapper::Boolean(false));
}

#[test]
fn mixed_type_comparisons_are_errors() {
    assert_eq!(error_of("1 == true"), "Cannot compare between different types:int and bool");
    assert_eq!(error_of("1 < true"), "Cannot compare between different types:int and bool");
    assert_eq!(
        error_of("\"a\" > 1"),
        "Cannot compare between different types:string and int"
    );
    assert_eq!(error_of("true != 1"), "Cannot compare between different types:bool and int");
}

#[test]
fn equality_of_same_types() {
    assert_eq!(test_eval("1 == 1").unwrap(), ObjectWrapper::Boolean(true));
    assert_eq!(test_eval("true != false").unwrap(), ObjectWrapper::Boolean(true));
    assert_eq!(test_eval("\"a\" == \"a\"").unwrap(), ObjectWrapper::Boolean(true));
    assert_eq!(test_eval("\"a\" == \"b\"").unwrap(), ObjectWrapper::Boolean(false));
}

#[test]
fn string_concatenation() {
    assert_eq!(test_eval("\"a\" + \"b\"").unwrap(), ObjectWrapper::String("ab".to_string()));
    assert_eq!(test_eval("\"n\" + -12").unwrap(), ObjectWrapper::String("n-12".to_string()));
    assert_eq!(test_eval("\"x\" + true").unwrap(), ObjectWrapper::String("xtrue".to_string()));
    assert_eq!(error_of("1 + \"a\""), "int cannot '+' with type string.");
    assert_eq!(error_of("true + 1"), "type bool does not support '+' operation.");
}

#[test]
fn prefix_operators() {
    assert_eq!(test_eval("!true").unwrap(), ObjectWrapper::Boolean(false));
    assert_eq!(test_eval("!0").unwrap(), ObjectWrapper::Boolean(true));
    assert_eq!(test_eval("!5").unwrap(), ObjectWrapper::Boolean(false));
    assert_eq!(test_eval("!\"s\"").unwrap(), ObjectWrapper::Boolean(false));
    assert_eq!(test_eval("-5").unwrap(), ObjectWrapper::Integer(-5));
    assert_eq!(error_of("-true"), "cannot eval type bool after '-'.");
}

#[test]
fn minus_and_slash_have_no_value_operation() {
    assert_eq!(test_eval("5 - 3").unwrap(), ObjectWrapper::Null);
    assert_eq!(test_eval("6 / 3").unwrap(), ObjectWrapper::Null);
}

#[test]
fn integer_overflow_is_an_error() {
    assert_eq!(error_of("9223372036854775807 + 1"), "integer overflow");
    assert_eq!(error_of("9223372036854775807 * 2"), "integer overflow");
}

#[test]
fn conditions_must_be_boolean() {
    assert_eq!(error_of("if (1) { 2 }"), "Invalid 'if' condition.");
    assert_eq!(test_eval("if (1 > 2) { 2 }").unwrap(), ObjectWrapper::Null);
    assert_eq!(test_eval("if (1 > 2) { 2 } else { 3 }").unwrap(), ObjectWrapper::Integer(3));
}

#[test]
fn closures_share_their_scope() {
    let fact = "let fact = fn(n) { if (n < 2) { return 1; } return n * fact(n + -1); }; fact(5)";
    assert_eq!(test_eval(fact).unwrap(), ObjectWrapper::Integer(120));
    let adder = "let make = fn(x) { fn(y) { x + y } }; let addtwo = make(2); addtwo(3)";
    assert_eq!(test_eval(adder).unwrap(), ObjectWrapper::Integer(5));
}

#[test]
fn recursion_deeper_than_a_hundred_calls() {
    let sum = "let sum = fn(n) { if (n < 1) { return 0; } return n + sum(n + -1); }; sum(150)";
    assert_eq!(test_eval(sum).unwrap(), ObjectWrapper::Integer(11325));
}

#[test]
fn call_errors() {
    assert_eq!(error_of("fn(x) { x }(1, 2)"), "Invalid params, expect 1 got 2");
    assert_eq!(error_of("nothing(1)"), "function not found: nothing");
    assert_eq!(error_of("let a = 1; a(1)"), "not a function: a");
    assert_eq!(error_of("let f = fn() { foobar }; f() + 1"), "identifier not found: foobar");
}

#[test]
fn native_functions() {
    assert_eq!(test_eval("len(\"hello\")").unwrap(), ObjectWrapper::Integer(5));
    assert_eq!(error_of("len(1)"), "Argument to `len` not supported, got int");
    assert_eq!(error_of("len(\"a\", \"b\")"), "Wrong number of arguments, expect 1 got 2");
    assert_eq!(error_of("first(1)"), "Argument to 'first' must be ARRAY, got int");
    assert_eq!(error_of("rest(true)"), "Argument to 'rest' must be ARRAY, got bool");
}

#[test]
fn parse_error_is_not_evaluated() {
    assert!(evaluate("let = 1").is_err());
    assert!(evaluate("").is_ok());
    assert_eq!(evaluate("").unwrap(), ObjectWrapper::Null);
}

#[test]
fn session_keeps_bindings() {
    let first = {
        let l = Lexer::new("let a = 5;");
        let mut p = Parser::new(l);
        p.parse_program().unwrap()
    };
    let mut ev = Evaluator::new(&first.statements);
    assert_eq!(ev.eval().unwrap(), ObjectWrapper::Null);
    let env = ev.into_env();
    assert!(env.contains("a"));

    let second = {
        let l = Lexer::new("a * 2");
        let mut p = Parser::new(l);
        p.parse_program().unwrap()
    };
    let mut ev = Evaluator::with_env(&second.statements, env);
    assert_eq!(ev.eval().unwrap(), ObjectWrapper::Integer(10));
}

#[test]
fn environment_bindings() {
    let mut env = Environment::new();
    assert!(!env.contains("x"));
    assert_eq!(env.set("x", ObjectWrapper::Integer(1)), None);
    assert_eq!(env.get("x"), Some(&ObjectWrapper::Integer(1)));
    assert_eq!(env.set("x", ObjectWrapper::Boolean(true)), Some(ObjectWrapper::Integer(1)));
    assert_eq!(env.get("x"), Some(&ObjectWrapper::Boolean(true)));
    assert!(env.contains("x"));
}

#[test]
fn value_operations() {
    let a = ObjectWrapper::Integer(7);
    let b = ObjectWrapper::Integer(-2);
    assert_eq!(a.divide(&b), Ok(ObjectWrapper::Integer(-3)));
    assert_eq!(a.divide(&ObjectWrapper::Integer(0)), Err("division by zero".to_string()));
    assert_eq!(a.multi(&b), Ok(ObjectWrapper::Integer(-14)));
    assert_eq!(a.less_than(&b), Ok(ObjectWrapper::Boolean(false)));
    assert_eq!(a.great_than(&b), Ok(ObjectWrapper::Boolean(true)));
    assert_eq!(ObjectWrapper::Null.eq(&ObjectWrapper::Null), Ok(ObjectWrapper::Boolean(true)));
    assert_eq!(ObjectWrapper::Null.not_eq(&ObjectWrapper::Null), Ok(ObjectWrapper::Boolean(false)));
    assert_eq!(
        ObjectWrapper::String("s".to_string()).multi(&ObjectWrapper::String("t".to_string())),
        Err("'*' is not supported between string and string".to_string())
    );
    assert_eq!(a.type_str(), "int");
    assert_eq!(ObjectWrapper::Null.type_str(), "NULL");
}

#[test]
fn environment_get_mut_changes_in_place() {
    let mut env = Environment::new();
    assert!(env.get_mut("x").is_none());
    env.set("x", ObjectWrapper::Integer(1));
    if let Some(v) = env.get_mut("x") {
        *v = ObjectWrapper::Integer(7);
    }
    assert_eq!(env.get("x"), Some(&ObjectWrapper::Integer(7)));
}

#[test]
fn value_descriptions() {
    assert_eq!(ObjectWrapper::Integer(-3).describe(), "Integer: -3");
    assert_eq!(ObjectWrapper::Null.describe(), "Null Object");
    assert_eq!(ObjectWrapper::Boolean(true).describe(), "Boolean: true");
    assert_eq!(ObjectWrapper::String("hi".to_string()).describe(), "String: hi");
    assert_eq!(ObjectWrapper::ErrorObject("bad".to_string()).describe(), "Error: bad");
    assert_eq!(
        ObjectWrapper::ReturnValue(Box::new(ObjectWrapper::Integer(2))).describe(),
        "Return Object: Integer: 2"
    );
}
