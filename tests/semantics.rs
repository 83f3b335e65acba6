use monkey::ast::Node;
use monkey::builtins::apply_builtin;
use monkey::evaluator::{eval, evaluate_program, eval_index_expression, eval_infix_expression, is_truthy};
use monkey::lexer::Lexer;
use monkey::line_editor::{parse_key_event, KeyCode, KeyEvent, KeyModifiers};
use monkey::object::{Builtin, Environment, EvalError, Object, ObjectType};
use monkey::parser::{program_from_input, Parser};
use monkey::token::{Token, TokenKind};

fn run(input: &str) -> Result<Object, EvalError> {
    let mut environment = Environment::new();
    eval(Node::Program(program_from_input(input)), &mut environment)
}

fn message(input: &str) -> String {
    match run(input) {
        Ok(v) => panic!("expected an error, got {:?}", v),
        Err(e) => e.to_string(),
    }
}

fn ints(values: &[i64]) -> Object {
    Object::Array(values.iter().map(|v| Object::Integer(*v)).collect())
}

#[test]
fn canonical_rendering_is_fully_parenthesized() {
    assert_eq!(program_from_input("a + b * c").to_string(), "(a + (b * c))");
    assert_eq!(program_from_input("-a * b").to_string(), "((-a) * b)");
    assert_eq!(program_from_input("a[1 + 2](x)").to_string(), "(a[(1 + 2)])(x)");
    assert_eq!(program_from_input("let x = 1 + 2;").to_string(), "let x = (1 + 2);");
    assert_eq!(program_from_input("return !x;").to_string(), "return (!x);");
}

#[test]
fn precedence_groups_products_before_sums_before_equality() {
    assert_eq!(
        program_from_input("3 + 4 * 5 == 3 * 1 + 4 * 5").to_string(),
        "((3 + (4 * 5)) == ((3 * 1) + (4 * 5)))"
    );
}

#[test]
fn evaluation_gives_the_same_value_every_time() {
    for _ in 0..3 {
        assert_eq!(run("5 + 5 + 5 + 5 - 10").unwrap(), Object::Integer(10));
        assert_eq!(
            run("let a = 5; let b = a; let c = a + b + 5; c;").unwrap(),
            Object::Integer(15)
        );
    }
}

#[test]
fn closures_keep_the_scope_they_were_made_in() {
    assert_eq!(
        run("let newAdder = fn(x) { fn(y) { x + y }; }; let addTwo = newAdder(2); addTwo(2);")
            .unwrap(),
        Object::Integer(4)
    );
    assert_eq!(
        run("let x = 1; let f = fn() { x }; let x = 2; f()").unwrap(),
        Object::Integer(2)
    );
    assert_eq!(
        run("let counter = fn(n) { fn() { n } }; let a = counter(1); let b = counter(2); a() + b() * 10")
            .unwrap(),
        Object::Integer(21)
    );
}

#[test]
fn only_false_and_null_are_falsy() {
    assert_eq!(run("if (1) { 10 }").unwrap(), Object::Integer(10));
    assert_eq!(run("if (0) { 10 }").unwrap(), Object::Integer(10));
    assert_eq!(run("if (\"\") { 10 }").unwrap(), Object::Integer(10));
    assert_eq!(run("if (false) { 10 }").unwrap(), Object::Null);
    assert_eq!(run("if (if (false) { 1 }) { 1 } else { 2 }").unwrap(), Object::Integer(2));
    assert!(!is_truthy(&Object::Null));
    assert!(!is_truthy(&Object::Boolean(false)));
    assert!(is_truthy(&Object::Integer(0)));
    assert!(is_truthy(&Object::String(String::new())));
}

#[test]
fn errors_name_what_went_wrong() {
    assert_eq!(message("5 + true;"), "type mismatch: INTEGER + BOOLEAN");
    assert_eq!(
        run("5 + true;").unwrap_err(),
        EvalError::TypeMismatch {
            left: ObjectType::Integer,
            operator: "+".into(),
            right: ObjectType::Boolean
        }
    );
    assert_eq!(message("foobar"), "identifier not found: foobar");
    assert_eq!(run("foobar").unwrap_err(), EvalError::IdentifierNotFound("foobar".into()));
}

#[test]
fn push_leaves_the_original_array_alone() {
    assert_eq!(run("let a = [1, 2]; let b = push(a, 3); b").unwrap(), ints(&[1, 2, 3]));
    assert_eq!(run("let a = [1, 2]; let b = push(a, 3); a").unwrap(), ints(&[1, 2]));
    assert_eq!(
        apply_builtin(Builtin::Push, vec![ints(&[1, 2]), Object::Integer(3)]).unwrap(),
        ints(&[1, 2, 3])
    );
}

#[test]
fn hash_indexing() {
    assert_eq!(run("{\"one\": 1, \"two\": 2}[\"one\"]").unwrap(), Object::Integer(1));
    assert_eq!(run("{\"one\": 1, \"two\": 2}[\"three\"]").unwrap(), Object::Null);
    assert_eq!(
        run("{\"one\": 1}[[1]]").unwrap_err(),
        EvalError::UnhashableKey(ObjectType::Array)
    );
    assert_eq!(message("{\"one\": 1}[[1]]"), "unusable as hash key: ARRAY");
    assert_eq!(run("{1: 1, 1: 2}[1]").unwrap(), Object::Integer(2));
}

#[test]
fn empty_program_is_null() {
    assert_eq!(run("").unwrap(), Object::Null);
    assert_eq!(run("let a = 1;").unwrap(), Object::Null);
}

#[test]
fn arithmetic_edges() {
    assert_eq!(run("7 / 2").unwrap(), Object::Integer(3));
    assert_eq!(run("-7 / 2").unwrap(), Object::Integer(-3));
    assert_eq!(run("1 / 0").unwrap_err(), EvalError::DivisionByZero);
    assert_eq!(message("1 / 0"), "division by zero");
    assert_eq!(run("9223372036854775807 + 1").unwrap_err(), EvalError::IntegerOverflow);
    assert_eq!(run("9223372036854775807").unwrap(), Object::Integer(i64::MAX));
    assert_eq!(
        eval_infix_expression("/", Object::Integer(i64::MIN), Object::Integer(-1)).unwrap_err(),
        EvalError::IntegerOverflow
    );
    assert_eq!(
        eval_infix_expression("-", Object::Integer(3), Object::Integer(10)).unwrap(),
        Object::Integer(-7)
    );
}

#[test]
fn operator_errors() {
    assert_eq!(message("-true"), "unknown operator: -BOOLEAN");
    assert_eq!(message("true + false"), "unknown operator: BOOLEAN + BOOLEAN");
    assert_eq!(message("\"a\" < \"b\""), "unknown operator: STRING < STRING");
    assert_eq!(run("\"a\" + \"b\"").unwrap(), Object::String("ab".into()));
    assert_eq!(run("true == true").unwrap(), Object::Boolean(true));
}

#[test]
fn call_errors() {
    assert_eq!(
        run("let f = fn(x, y) { x + y }; f(1)").unwrap_err(),
        EvalError::ArityMismatch { expected: 2, got: 1 }
    );
    assert_eq!(message("5(1)"), "not a function: INTEGER");
    assert_eq!(
        run("let f = fn(n) { f(n + 1) }; f(0)").unwrap_err(),
        EvalError::RecursionLimit
    );
    let mut environment = Environment::new();
    environment.set(
        "g".into(),
        Object::Function {
            parameters: vec![],
            body: program_from_input("1"),
            env: 99,
        },
    );
    assert_eq!(
        eval(Node::Program(program_from_input("g()")), &mut environment).unwrap_err(),
        EvalError::UnknownScope(99)
    );
}

#[test]
fn recursion_within_the_limit_works() {
    assert_eq!(
        run("let fib = fn(n) { if (n < 2) { n } else { fib(n - 1) + fib(n - 2) } }; fib(15)")
            .unwrap(),
        Object::Integer(610)
    );
    assert_eq!(
        run("let sum = fn(n) { if (n == 0) { 0 } else { n + sum(n - 1) } }; sum(150)").unwrap(),
        Object::Integer(11325)
    );
}

#[test]
fn index_errors_and_bounds() {
    assert_eq!(
        run("1[0]").unwrap_err(),
        EvalError::NotIndexable { left: ObjectType::Integer, index: ObjectType::Integer }
    );
    assert_eq!(run("[][0]").unwrap(), Object::Null);
    assert_eq!(
        eval_index_expression(ints(&[4, 5]), Object::Integer(1)).unwrap(),
        Object::Integer(5)
    );
    assert_eq!(
        run("{[1]: 2}").unwrap_err(),
        EvalError::InvalidHashKey(ObjectType::Array)
    );
    assert_eq!(message("{[1]: 2}"), "Type of ARRAY cannot be used as a key");
}

#[test]
fn builtins() {
    assert_eq!(run("len([1, 2, 3])").unwrap(), Object::Integer(3));
    assert_eq!(run("first([7, 8])").unwrap(), Object::Integer(7));
    assert_eq!(run("first([])").unwrap(), Object::Null);
    assert_eq!(run("last([7, 8])").unwrap(), Object::Integer(8));
    assert_eq!(run("last([])").unwrap(), Object::Null);
    assert_eq!(run("rest([7, 8, 9])").unwrap(), ints(&[8, 9]));
    assert_eq!(run("rest([])").unwrap(), Object::Null);
    assert_eq!(
        run("push(1, 2)").unwrap_err(),
        EvalError::UnsupportedArgument { builtin: Builtin::Push, got: ObjectType::Integer }
    );
    assert_eq!(message("first(1)"), "argument to `first` must be ARRAY, got INTEGER");
    assert_eq!(
        run("push([1])").unwrap_err(),
        EvalError::WrongArgumentCount { got: 1, want: 2 }
    );
    assert_eq!(run("let len = fn(x) { 42 }; len([1])").unwrap(), Object::Integer(42));
    assert_eq!(run("len").unwrap(), Object::Builtin(Builtin::Len));
}

#[test]
fn rendering_of_values() {
    assert_eq!(Object::Null.to_string(), "null");
    assert_eq!(Object::Integer(-42).to_string(), "-42");
    assert_eq!(Object::Integer(i64::MIN).to_string(), "-9223372036854775808");
    assert_eq!(ints(&[1, 2, 3]).to_string(), "[1, 2, 3]");
    assert_eq!(run("{\"a\": 1, 2: true}").unwrap().to_string(), "{a: 1, 2: true}");
    assert_eq!(Object::Builtin(Builtin::Len).to_string(), "builtin function");
    assert_eq!(run("fn(x, y) { x + y }").unwrap().to_string(), "fn(x, y){\n(x + y)\n}");
    assert_eq!(
        Object::ReturnValue(Box::new(Object::Boolean(true))).to_string(),
        "true"
    );
}

#[test]
fn session_keeps_bindings_between_inputs() {
    let mut environment = Environment::new();
    let first = evaluate_program("let a = 40;", &mut environment);
    assert!(first.diagnostics.is_empty());
    assert_eq!(first.result.unwrap(), "null");
    let second = evaluate_program("a + 2", &mut environment);
    assert_eq!(second.result.unwrap(), "42");
    let third = evaluate_program("let = 1; a", &mut environment);
    assert_eq!(third.diagnostics.len(), 1);
    assert_eq!(third.result.unwrap(), "40");
    assert_eq!(environment.get("a"), Some(Object::Integer(40)));
    assert_eq!(environment.get("b"), None);
}

#[test]
fn parse_diagnostics_are_collected() {
    let mut parser = Parser::new(Lexer::new("let x 5; let = 10; (1 + 2; 7"));
    let (program, errors) = parser.parse_program();
    assert!(errors.len() >= 3);
    assert_eq!(errors[0].message, "Expected Assignment");
    assert_eq!(errors[0].hint, "Use `=` after the identifier");
    assert_eq!(errors[0].span.unwrap().start, 6);
    assert_eq!(program.statements().last().unwrap().to_string(), "7");

    let mut parser = Parser::new(Lexer::new("\"abc"));
    let (program, errors) = parser.parse_program();
    assert_eq!(program.len(), 0);
    assert_eq!(errors.len(), 1);
    assert_eq!(errors[0].message, "Unterminated string literal");

    let mut parser = Parser::new(Lexer::new("99999999999999999999"));
    let (_, errors) = parser.parse_program();
    assert_eq!(errors[0].message, "Integer literal too large");

    let mut parser = Parser::new(Lexer::new("if (x) { 1"));
    let (_, errors) = parser.parse_program();
    assert_eq!(errors[0].message, "Expected `}`");
}

#[test]
fn lexer_edges() {
    let mut lexer = Lexer::new("a:@\"x");
    assert_eq!(lexer.next_token(), Token::new(TokenKind::Ident("a".into()), 0, 0));
    assert_eq!(lexer.next_token(), Token::new(TokenKind::Colon, 1, 1));
    assert_eq!(lexer.next_token(), Token::new(TokenKind::Illegal, 2, 2));
    assert_eq!(lexer.next_token(), Token::new(TokenKind::UnterminatedString, 3, 4));
    assert_eq!(lexer.next_token(), Token::new(TokenKind::Eof, 5, 5));
    assert_eq!(lexer.next_token(), Token::new(TokenKind::Eof, 5, 5));
    assert_eq!(lexer.source_code(), "a:@\"x");
    assert_eq!(TokenKind::Ident("return".into()).lookup_ident(), TokenKind::Return);
    assert_eq!(TokenKind::Ident("returns".into()).lookup_ident(), TokenKind::Ident("returns".into()));
    assert_eq!(TokenKind::NotEqual.to_string(), "!=");
}

#[test]
fn key_decoding() {
    assert_eq!(
        parse_key_event(b"\x1b[A"),
        Some(KeyEvent::new(KeyCode::Up, KeyModifiers::Plain))
    );
    assert_eq!(
        parse_key_event(b"\x1bb"),
        Some(KeyEvent::new(KeyCode::Left, KeyModifiers::Alt))
    );
    assert_eq!(
        parse_key_event(b"\x1b"),
        Some(KeyEvent::new(KeyCode::Esc, KeyModifiers::Plain))
    );
    assert_eq!(
        parse_key_event(b"\r"),
        Some(KeyEvent::new(KeyCode::Enter, KeyModifiers::Plain))
    );
    assert_eq!(
        parse_key_event(b"\x01"),
        Some(KeyEvent::new(KeyCode::Char('a'), KeyModifiers::Control))
    );
    assert_eq!(
        parse_key_event(b"\x1c"),
        Some(KeyEvent::new(KeyCode::Char('4'), KeyModifiers::Control))
    );
    assert_eq!(
        parse_key_event(b"\x00"),
        Some(KeyEvent::new(KeyCode::Char(' '), KeyModifiers::Control))
    );
    assert_eq!(
        parse_key_event(b"x"),
        Some(KeyEvent::new(KeyCode::Char('x'), KeyModifiers::Plain))
    );
    assert_eq!(
        parse_key_event(b"\x7f"),
        Some(KeyEvent::new(KeyCode::Backspace, KeyModifiers::Plain))
    );
    assert_eq!(parse_key_event(b""), None);
    assert_eq!(parse_key_event(b"\x1b[Z"), None);
}
