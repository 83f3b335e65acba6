use monkey::ast::{Expression, Identifier, Node, Program, Statement};
use monkey::evaluator::eval;
use monkey::object::{Environment, EvalError, Object};
use monkey::parser::program_from_input;
use monkey::token::{Token, TokenKind};

fn test_eval(input: &str) -> Result<Object, EvalError> {
    let program = program_from_input(input);
    let mut environment = Environment::new();
    eval(Node::Program(program), &mut environment)
}

#[test]
fn evaluator_test_eval_integer_expression() {
    assert_eq!(test_eval("5").unwrap(), Object::Integer(5));
    assert_eq!(test_eval("10").unwrap(), Object::Integer(10));

    assert_eq!(test_eval("-5").unwrap(), Object::Integer(-5));
    assert_eq!(test_eval("-10").unwrap(), Object::Integer(-10));

    assert_eq!(
        test_eval("5 + 5 + 5 + 5 - 10").unwrap(),
        Object::Integer(10)
    );
    assert_eq!(
        test_eval("2 * 2 * 2 * 2 * 2").unwrap(),
        Object::Integer(32)
    );
    assert_eq!(
        test_eval("-50 + 100 + -50").unwrap(),
        Object::Integer(0)
    );
    assert_eq!(
        test_eval("5 * 2 + 10").unwrap(),
        Object::Integer(20)
    );
    assert_eq!(
        test_eval("5 + 2 * 10").unwrap(),
        Object::Integer(25)
    );
    assert_eq!(
        test_eval("20 + 2 * -10").unwrap(),
        Object::Integer(0)
    );
    assert_eq!(
        test_eval("50 / 2 * 2 + 10").unwrap(),
        Object::Integer(60)
    );
    assert_eq!(
        test_eval("2 * (5 + 10)").unwrap(),
        Object::Integer(30)
    );
    assert_eq!(
        test_eval("3 * 3 * 3 + 10").unwrap(),
        Object::Integer(37)
    );
    assert_eq!(
        test_eval("3 * (3 * 3) + 10").unwrap(),
        Object::Integer(37)
    );
    assert_eq!(
        test_eval("(5 + 10 * 2 + 15 / 3) * 2 + -10").unwrap(),
        Object::Integer(50)
    );
}

#[test]
fn evaluator_test_eval_boolean_expression() {
    assert_eq!(test_eval("true").unwrap(), Object::Boolean(true));
    assert_eq!(test_eval("false").unwrap(), Object::Boolean(false));
    assert_eq!(test_eval("1 < 2").unwrap(), Object::Boolean(true));
    assert_eq!(test_eval("1 > 2").unwrap(), Object::Boolean(false));
    assert_eq!(test_eval("1 < 1").unwrap(), Object::Boolean(false));
    assert_eq!(test_eval("1 > 1").unwrap(), Object::Boolean(false));
    assert_eq!(test_eval("1 == 1").unwrap(), Object::Boolean(true));
    assert_eq!(
        test_eval("1 != 1").unwrap(),
        Object::Boolean(false)
    );
    assert_eq!(
        test_eval("1 == 2").unwrap(),
        Object::Boolean(false)
    );
    assert_eq!(test_eval("1 != 2").unwrap(), Object::Boolean(true));
    assert_eq!(
        test_eval("true == true").unwrap(),
        Object::Boolean(true)
    );
    assert_eq!(
        test_eval("false == false").unwrap(),
        Object::Boolean(true)
    );
    assert_eq!(
        test_eval("true == false").unwrap(),
        Object::Boolean(false)
    );
    assert_eq!(
        test_eval("true != false").unwrap(),
        Object::Boolean(true)
    );
    assert_eq!(
        test_eval("false != true").unwrap(),
        Object::Boolean(true)
    );
    assert_eq!(
        test_eval("(1 < 2) == true").unwrap(),
        Object::Boolean(true)
    );
    assert_eq!(
        test_eval("(1 < 2) == false").unwrap(),
        Object::Boolean(false)
    );
    assert_eq!(
        test_eval("(1 > 2) == true").unwrap(),
        Object::Boolean(false)
    );
    assert_eq!(
        test_eval("(1 > 2) == false").unwrap(),
        Object::Boolean(true)
    );
}

#[test]
fn evaluator_test_bang_operator() {
    assert_eq!(test_eval("!true").unwrap(), Object::Boolean(false));
    assert_eq!(test_eval("!false").unwrap(), Object::Boolean(true));
    assert_eq!(test_eval("!5").unwrap(), Object::Boolean(false));
    assert_eq!(test_eval("!!true").unwrap(), Object::Boolean(true));
    assert_eq!(
        test_eval("!!false").unwrap(),
        Object::Boolean(false)
    );
    assert_eq!(test_eval("!!5").unwrap(), Object::Boolean(true));
}

#[test]
fn evaluator_test_minus_operator() {
    assert_eq!(test_eval("5").unwrap(), Object::Integer(5));
    assert_eq!(test_eval("10").unwrap(), Object::Integer(10));
    assert_eq!(test_eval("-5").unwrap(), Object::Integer(-5));
    assert_eq!(test_eval("-10").unwrap(), Object::Integer(-10));
}

#[test]
fn evaluator_test_if_else_expression() {
    assert_eq!(
        test_eval("if (true) { 10 }").unwrap(),
        Object::Integer(10)
    );
    assert_eq!(
        test_eval("if (false) { 10 }").unwrap(),
        Object::Null
    );
    assert_eq!(
        test_eval("if (1) { 10 }").unwrap(),
        Object::Integer(10)
    );
    assert_eq!(
        test_eval("if (1 < 2) { 10 }").unwrap(),
        Object::Integer(10)
    );
    assert_eq!(
        test_eval("if (1 > 2) { 10 }").unwrap(),
        Object::Null
    );
    assert_eq!(
        test_eval("if (1 > 2) { 10 } else { 20 }").unwrap(),
        Object::Integer(20)
    );
    assert_eq!(
        test_eval("if (1 < 2) { 10 } else { 20 }").unwrap(),
        Object::Integer(10)
    );
}

#[test]
fn evaluator_test_return_statement() {
    let expected = Object::ReturnValue(Box::new(Object::Integer(10)));
    assert_eq!(test_eval("return 10;").unwrap(), expected);
    assert_eq!(test_eval("return 10; 9;").unwrap(), expected);
    assert_eq!(test_eval("return 2 * 5; 9;").unwrap(), expected);
    assert_eq!(test_eval("9; return 2 * 5; 9;").unwrap(), expected);

    assert_eq!(
        test_eval(
            "
if (10 > 1) {
    if (10 > 1) {
        return 10;
    }
    return 1;
}"
        )
        .unwrap(),
        expected
    );
}

#[test]
fn evaluator_test_error_handling() {
    match test_eval("5 + true;") {
        Ok(_) => unreachable!(),
        Err(e) => assert_eq!(e.to_string(), "type mismatch: INTEGER + BOOLEAN"),
    }

    match test_eval("5 + true; 5;") {
        Ok(_) => unreachable!(),
        Err(e) => assert_eq!(e.to_string(), "type mismatch: INTEGER + BOOLEAN"),
    }

    match test_eval("-true") {
        Ok(_) => unreachable!(),
        Err(e) => assert_eq!(e.to_string(), "unknown operator: -BOOLEAN"),
    }

    match test_eval("true + false") {
        Ok(_) => unreachable!(),
        Err(e) => assert_eq!(e.to_string(), "unknown operator: BOOLEAN + BOOLEAN"),
    }

    match test_eval("if (10 > 1) { if (10 > 1) {return true + false;} return 1; }") {
        Ok(_) => unreachable!(),
        Err(e) => assert_eq!(e.to_string(), "unknown operator: BOOLEAN + BOOLEAN"),
    }

    match test_eval("foobar") {
        Ok(_) => unreachable!(),
        Err(e) => assert_eq!(e.to_string(), "identifier not found: foobar"),
    }
}

#[test]
fn evaluator_test_let_statements() {
    assert_eq!(
        test_eval("let a = 5; a;").unwrap(),
        Object::Integer(5)
    );
    assert_eq!(
        test_eval("let a = 5 * 5; a;").unwrap(),
        Object::Integer(25)
    );
    assert_eq!(
        test_eval("let a = 5; let b = a; b;").unwrap(),
        Object::Integer(5)
    );
    assert_eq!(
        test_eval("let a = 5; let b = a; let c = a + b + 5; c;").unwrap(),
        Object::Integer(15)
    );
}

#[test]
fn evaluator_test_function_object() {
    let input = "fn(x) { x + 2; };";
    let mut body = Program::new();
    body.push(Statement::Expr(Expression::Infix {
        token: Token::new(TokenKind::Plus, 10, 10),
        operator: "+".into(),
        left: Box::new(Expression::Ident(Identifier::new("x".to_string()))),
        right: Box::new(Expression::IntegerLiteral(2)),
    }));

    assert_eq!(
        test_eval(input).unwrap(),
        Object::Function {
            parameters: vec![Identifier::new("x".into())],
            body,
            env: 0,
        }
    );
}

#[test]
fn evaluator_test_function_application() {
    assert_eq!(
        test_eval("let identity = fn(x) { x; }; identity(5);").unwrap(),
        Object::Integer(5)
    );
    assert_eq!(
        test_eval("let identity = fn(x) { return x; }; identity(5);").unwrap(),
        Object::Integer(5)
    );
    assert_eq!(
        test_eval("let double = fn(x) { x * 2; }; double(5);").unwrap(),
        Object::Integer(10)
    );
    assert_eq!(
        test_eval("let add = fn(x, y) { x + y; }; add(5, 5);").unwrap(),
        Object::Integer(10)
    );
    assert_eq!(
        test_eval("let add = fn(x, y) { x + y; }; add(5 + 5, add(5, 5));").unwrap(),
        Object::Integer(20)
    );
    assert_eq!(
        test_eval("fn(x) { x; }(5)").unwrap(),
        Object::Integer(5)
    );
}

#[test]
fn evaluator_test_closures() {
    let input = "
let newAdder = fn(x)
    { fn(y) {
        x + y
    };
};

let addTwo = newAdder(2);
addTwo(2);
";
    assert_eq!(test_eval(input).unwrap(), Object::Integer(4));
}

#[test]
fn evaluator_test_string_literal() {
    let input = r#""Hello World!""#;
    assert_eq!(
        test_eval(input).unwrap(),
        Object::String("Hello World!".into())
    );
}

#[test]
fn evaluator_test_string_concatenation() {
    let input = r#""Hello" + " " + "World!""#;
    assert_eq!(
        test_eval(input).unwrap(),
        Object::String("Hello World!".into())
    );
}

#[test]
fn test_builtin_functions() {
    assert_eq!(
        test_eval(r#"len("")"#).unwrap(),
        Object::Integer(0)
    );
    assert_eq!(
        test_eval(r#"len("four")"#).unwrap(),
        Object::Integer(4)
    );
    assert_eq!(
        test_eval(r#"len("hello world")"#).unwrap(),
        Object::Integer(11)
    );

    match test_eval(r#"len(1)"#) {
        Ok(_) => unreachable!(),
        Err(e) => assert_eq!(
            e.to_string(),
            "argument to `len` not supported, got INTEGER".to_string()
        ),
    };

    match test_eval(r#"len("one", "two")"#) {
        Ok(_) => unreachable!(),
        Err(e) => assert_eq!(
            e.to_string(),
            "wrong number of arguments. got=2, want = 1".to_string()
        ),
    };
}

#[test]
fn test_array_literals() {
    assert_eq!(
        test_eval("[1, 2 * 2, 3 + 3]").unwrap(),
        Object::Array(vec![
            Object::Integer(1),
            Object::Integer(4),
            Object::Integer(6),
        ])
    );
}

#[test]
fn test_array_index_expressions() {
    assert_eq!(
        test_eval("[1, 2, 3][0]").unwrap(),
        Object::Integer(1)
    );
    assert_eq!(
        test_eval("[1, 2, 3][1]").unwrap(),
        Object::Integer(2)
    );
    assert_eq!(
        test_eval("[1, 2, 3][2]").unwrap(),
        Object::Integer(3)
    );
    assert_eq!(
        test_eval("let i = 0; [1][i];").unwrap(),
        Object::Integer(1)
    );
    assert_eq!(
        test_eval("[1, 2, 3][1 + 1]").unwrap(),
        Object::Integer(3)
    );
    assert_eq!(
        test_eval("let myArray = [1, 2, 3]; myArray[2];").unwrap(),
        Object::Integer(3)
    );
    assert_eq!(
        test_eval("let myArray = [1, 2, 3]; myArray[0] + myArray[1] + myArray[2];").unwrap(),
        Object::Integer(6)
    );
    assert_eq!(
        test_eval("let myArray = [1, 2, 3]; let i = myArray[0]; myArray[i];").unwrap(),
        Object::Integer(2)
    );
    assert_eq!(test_eval("[1, 2, 3][3]").unwrap(), Object::Null);
    assert_eq!(test_eval("[1, 2, 3][-1]").unwrap(), Object::Null);
}

#[test]
fn test_hash_literals() {
    let input = r#"let two = "two";
{
    "one": 10 - 9,
    two: 1 + 1,
    "thr" + "ee": 6 / 2,
    4: 4,
    true: 5,
    false: 6,
}"#;
    let expected = vec![
        (Object::String("one".into()), Object::Integer(1)),
        (Object::String("two".into()), Object::Integer(2)),
        (Object::String("three".into()), Object::Integer(3)),
        (Object::Integer(4), Object::Integer(4)),
        (Object::Boolean(true), Object::Integer(5)),
        (Object::Boolean(false), Object::Integer(6)),
    ];
    match test_eval(input).unwrap() {
        Object::Hash(pairs) => {
            assert_eq!(pairs.len(), expected.len());
            for (key, value) in expected.iter() {
                assert!(pairs.iter().any(|(k, v)| k == key && v == value));
            }
        }
        other => panic!("expected a hash, got {:?}", other),
    }
}

#[test]
fn test_hash_index_expressions() {
    assert_eq!(test_eval(r#"{"foo": 5}["foo"]"#).unwrap(), Object::Integer(5));
    assert_eq!(test_eval(r#"{"foo": 5}["bar"]"#).unwrap(), Object::Null);
    assert_eq!(test_eval(r#"let key = "foo"; {"foo": 5}[key]"#).unwrap(), Object::Integer(5));
    assert_eq!(test_eval(r#"{}["foo"]"#).unwrap(), Object::Null);
    assert_eq!(test_eval(r#"{5: 5}[5]"#).unwrap(), Object::Integer(5));
    assert_eq!(test_eval(r#"{true: 5}[true]"#).unwrap(), Object::Integer(5));
    assert_eq!(test_eval(r#"{false: 5}[false]"#).unwrap(), Object::Integer(5));
}
