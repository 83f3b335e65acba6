use monkey::ast::{BlockStatement, Expression, Identifier, Statement};
use monkey::parser::program_from_input;
use monkey::token::{Token, TokenKind};

#[test]
fn parser_test_let_statement() {
    let input = "let x = 5;
let y = true;
let foobar = y;
";
    let program = program_from_input(input);

    assert_eq!(program.len(), 3);
    assert_eq!(
        program.statements()[0],
        Statement::Let {
            token: Token::new(TokenKind::Let, 0, 2),
            name: "x".into(),
            value: Expression::IntegerLiteral(5),
        }
    );
    assert_eq!(
        program.statements()[1],
        Statement::Let {
            token: Token::new(TokenKind::Let, 11, 13),
            name: "y".into(),
            value: Expression::Boolean(true),
        }
    );
    assert_eq!(
        program.statements()[2],
        Statement::Let {
            token: Token::new(TokenKind::Let, 25, 27),
            name: "foobar".into(),
            value: Expression::Ident(Identifier::new("y".to_string()))
        }
    );
}

#[test]
fn parser_test_return_statement() {
    let input = "return 5;
return 10;
return 993322;
";
    let program = program_from_input(input);

    assert_eq!(program.len(), 3);
    assert_eq!(
        program.statements()[0],
        Statement::Return {
            token: Token::new(TokenKind::Return, 0, 5),
            value: Expression::IntegerLiteral(5),
        }
    );
    assert_eq!(
        program.statements()[1],
        Statement::Return {
            token: Token::new(TokenKind::Return, 10, 15),
            value: Expression::IntegerLiteral(10),
        }
    );
    assert_eq!(
        program.statements()[2],
        Statement::Return {
            token: Token::new(TokenKind::Return, 21, 26),
            value: Expression::IntegerLiteral(993322),
        }
    );
}

#[test]
fn parser_test_integer_literal_expression() {
    let input = "5;";
    let program = program_from_input(input);

    assert_eq!(program.len(), 1);
    assert_eq!(program.statements()[0], Statement::Expr(Expression::IntegerLiteral(5)));
}

#[test]
fn parser_test_parsing_prefix_expression() {
    let input = "!5";
    let program = program_from_input(input);

    assert_eq!(program.len(), 1);
    assert_eq!(
        program.statements()[0],
        Statement::Expr(Expression::Prefix {
            token: Token::new(TokenKind::Bang, 0, 0),
            operator: "!".into(),
            right: Box::new(Expression::IntegerLiteral(5)),
        })
    );

    let input = "-5";
    let program = program_from_input(input);

    assert_eq!(program.len(), 1);
    assert_eq!(
        program.statements()[0],
        Statement::Expr(Expression::Prefix {
            token: Token::new(TokenKind::Minus, 0, 0),
            operator: "-".into(),
            right: Box::new(Expression::IntegerLiteral(5)),
        })
    );

    let program = program_from_input("!true;");
    assert_eq!(program.len(), 1);
    assert_eq!(
        program.statements()[0],
        Statement::Expr(Expression::Prefix {
            token: Token::new(TokenKind::Bang, 0, 0),
            operator: "!".into(),
            right: Box::new(Expression::Boolean(true)),
        })
    );
}

#[test]
fn parser_test_parsing_infix_expression() {
    let input = "5 + 5;";
    let program = program_from_input(input);

    assert_eq!(program.len(), 1);
    assert_eq!(
        program.statements()[0],
        Statement::Expr(Expression::Infix {
            token: Token::new(TokenKind::Plus, 2, 2),
            operator: "+".into(),
            left: Box::new(Expression::IntegerLiteral(5)),
            right: Box::new(Expression::IntegerLiteral(5)),
        })
    );

    let input = "5 - 5;";
    let program = program_from_input(input);

    assert_eq!(program.len(), 1);
    assert_eq!(
        program.statements()[0],
        Statement::Expr(Expression::Infix {
            token: Token::new(TokenKind::Minus, 2, 2),
            operator: "-".into(),
            left: Box::new(Expression::IntegerLiteral(5)),
            right: Box::new(Expression::IntegerLiteral(5)),
        })
    );

    let input = "5 * 5;";
    let program = program_from_input(input);

    assert_eq!(program.len(), 1);
    assert_eq!(
        program.statements()[0],
        Statement::Expr(Expression::Infix {
            token: Token::new(TokenKind::Asterisk, 2, 2),
            operator: "*".into(),
            left: Box::new(Expression::IntegerLiteral(5)),
            right: Box::new(Expression::IntegerLiteral(5)),
        })
    );

    let program = program_from_input("5 / 5;");
    assert_eq!(program.len(), 1);
    assert_eq!(
        program.statements()[0],
        Statement::Expr(Expression::Infix {
            token: Token::new(TokenKind::Slash, 2, 2),
            operator: "/".into(),
            left: Box::new(Expression::IntegerLiteral(5)),
            right: Box::new(Expression::IntegerLiteral(5)),
        })
    );

    let program = program_from_input("5 > 5;");
    assert_eq!(program.len(), 1);
    assert_eq!(
        program.statements()[0],
        Statement::Expr(Expression::Infix {
            token: Token::new(TokenKind::GreaterThan, 2, 2),
            operator: ">".into(),
            left: Box::new(Expression::IntegerLiteral(5)),
            right: Box::new(Expression::IntegerLiteral(5)),
        })
    );

    let program = program_from_input("5 < 5;");
    assert_eq!(program.len(), 1);
    assert_eq!(
        program.statements()[0],
        Statement::Expr(Expression::Infix {
            token: Token::new(TokenKind::LessThan, 2, 2),
            operator: "<".into(),
            left: Box::new(Expression::IntegerLiteral(5)),
            right: Box::new(Expression::IntegerLiteral(5)),
        })
    );

    let program = program_from_input("5 == 5;");
    assert_eq!(program.len(), 1);
    assert_eq!(
        program.statements()[0],
        Statement::Expr(Expression::Infix {
            token: Token::new(TokenKind::Equal, 2, 3),
            operator: "==".into(),
            left: Box::new(Expression::IntegerLiteral(5)),
            right: Box::new(Expression::IntegerLiteral(5)),
        })
    );

    let program = program_from_input("5 != 5;");
    assert_eq!(program.len(), 1);
    assert_eq!(
        program.statements()[0],
        Statement::Expr(Expression::Infix {
            token: Token::new(TokenKind::NotEqual, 2, 3),
            operator: "!=".into(),
            left: Box::new(Expression::IntegerLiteral(5)),
            right: Box::new(Expression::IntegerLiteral(5)),
        })
    );

    let program = program_from_input("true == true");
    assert_eq!(program.len(), 1);
    assert_eq!(
        program.statements()[0],
        Statement::Expr(Expression::Infix {
            token: Token::new(TokenKind::Equal, 5, 6),
            operator: "==".into(),
            left: Box::new(Expression::Boolean(true)),
            right: Box::new(Expression::Boolean(true)),
        })
    );

    let program = program_from_input("true != false");
    assert_eq!(program.len(), 1);
    assert_eq!(
        program.statements()[0],
        Statement::Expr(Expression::Infix {
            token: Token::new(TokenKind::NotEqual, 5, 6),
            operator: "!=".into(),
            left: Box::new(Expression::Boolean(true)),
            right: Box::new(Expression::Boolean(false)),
        })
    );
}

#[test]
fn parser_test_operator_precedence_parsing() {
    let program = program_from_input("-a * b");
    assert_eq!(program.to_string(), "((-a) * b)");

    let program = program_from_input("!-a");
    assert_eq!(program.to_string(), "(!(-a))");

    let program = program_from_input("a + b + c");
    assert_eq!(program.to_string(), "((a + b) + c)");

    assert_eq!(program_from_input("a + b - c").to_string(), "((a + b) - c)");
    assert_eq!(program_from_input("a * b * c").to_string(), "((a * b) * c)");
    assert_eq!(program_from_input("a * b / c").to_string(), "((a * b) / c)");
    assert_eq!(
        program_from_input("a + b * c + d / e - f").to_string(),
        "(((a + (b * c)) + (d / e)) - f)"
    );
    assert_eq!(
        program_from_input("3 + 4; -5 * 5").to_string(),
        "(3 + 4)((-5) * 5)"
    );
    assert_eq!(
        program_from_input("5 > 4 == 3 < 4").to_string(),
        "((5 > 4) == (3 < 4))"
    );
    assert_eq!(
        program_from_input("5 < 4 != 3 > 4").to_string(),
        "((5 < 4) != (3 > 4))"
    );
    assert_eq!(
        program_from_input("3 + 4 * 5 == 3 * 1 + 4 * 5").to_string(),
        "((3 + (4 * 5)) == ((3 * 1) + (4 * 5)))"
    );

    assert_eq!(program_from_input("true").to_string(), "true");
    assert_eq!(program_from_input("false").to_string(), "false");
    assert_eq!(
        program_from_input("3 > 5 == false").to_string(),
        "((3 > 5) == false)"
    );
    assert_eq!(
        program_from_input("3 < 5 == true").to_string(),
        "((3 < 5) == true)"
    );

    assert_eq!(
        program_from_input("1 + (2 + 3) + 4").to_string(),
        "((1 + (2 + 3)) + 4)"
    );
    assert_eq!(
        program_from_input("(5 + 5) * 2").to_string(),
        "((5 + 5) * 2)"
    );
    assert_eq!(
        program_from_input("2 / (5 + 5)").to_string(),
        "(2 / (5 + 5))"
    );
    assert_eq!(program_from_input("-(5 + 5)").to_string(), "(-(5 + 5))");
    assert_eq!(
        program_from_input("!(true == true)").to_string(),
        "(!(true == true))"
    );

    assert_eq!(
        program_from_input("a + add(b * c) + d").to_string(),
        "((a + add((b * c))) + d)"
    );
    assert_eq!(
        program_from_input("add(a, b, 1, 2 * 3, 4 + 5, add(6, 7 * 8))").to_string(),
        "add(a, b, 1, (2 * 3), (4 + 5), add(6, (7 * 8)))"
    );
    // Indexing
    assert_eq!(
        program_from_input("a * [1, 2, 3, 4][b * c] * d").to_string(),
        "((a * ([1, 2, 3, 4][(b * c)])) * d)"
    );
    assert_eq!(
        program_from_input("add(a * b[2], b[1], 2 * [1, 2][1])").to_string(),
        "add((a * (b[2])), (b[1]), (2 * ([1, 2][1])))"
    );
}

#[test]
fn parser_test_parsing_boolean() {
    let program = program_from_input("false;");
    assert_eq!(program.len(), 1);
    assert_eq!(program.statements()[0], Statement::Expr(Expression::Boolean(false)));

    let program = program_from_input("true;");
    assert_eq!(program.len(), 1);
    assert_eq!(program.statements()[0], Statement::Expr(Expression::Boolean(true)));
}

#[test]
fn parser_test_if_expression() {
    let input = "if (x < y) { x }";
    let program = program_from_input(input);
    let mut consequence = BlockStatement::new();
    consequence.push(Statement::Expr(Expression::Ident(Identifier::new(
        "x".into(),
    ))));
    assert_eq!(program.len(), 1);
    assert_eq!(
        program.statements()[0],
        Statement::Expr(Expression::If {
            condition: Box::new(Expression::Infix {
                token: Token::new(TokenKind::LessThan, 6, 6),
                operator: "<".into(),
                left: Box::new(Expression::Ident(Identifier::new("x".into()))),
                right: Box::new(Expression::Ident(Identifier::new("y".into()))),
            }),
            consequence,
            alternative: None,
        })
    );
}

#[test]
fn parser_test_if_else_expression() {
    let input = "if (x < y) { x } else { y }";
    let program = program_from_input(input);
    let mut consequence = BlockStatement::new();
    consequence.push(Statement::Expr(Expression::Ident(Identifier::new(
        "x".into(),
    ))));
    let mut alternative = BlockStatement::new();
    alternative.push(Statement::Expr(Expression::Ident(Identifier::new(
        "y".into(),
    ))));
    let alternative = Some(alternative);
    assert_eq!(program.len(), 1);
    assert_eq!(
        program.statements()[0],
        Statement::Expr(Expression::If {
            condition: Box::new(Expression::Infix {
                token: Token::new(TokenKind::LessThan, 6, 6),
                operator: "<".into(),
                left: Box::new(Expression::Ident(Identifier::new("x".into()))),
                right: Box::new(Expression::Ident(Identifier::new("y".into()))),
            }),
            consequence,
            alternative,
        })
    );
}

#[test]
fn parser_test_function_literal() {
    let input = "fn(x, y) { x + y; }";
    let program = program_from_input(input);
    let mut body = BlockStatement::new();
    body.push(Statement::Expr(Expression::Infix {
        token: Token::new(TokenKind::Plus, 13, 13),
        operator: "+".into(),
        left: Box::new(Expression::Ident(Identifier::new("x".into()))),
        right: Box::new(Expression::Ident(Identifier::new("y".into()))),
    }));

    assert_eq!(program.len(), 1);
    assert_eq!(
        program.statements()[0],
        Statement::Expr(Expression::FunctionLiteral {
            parameters: vec![Identifier::new("x".into()), Identifier::new("y".into())],
            body,
        })
    )
}

#[test]
fn parser_test_function_parameter_parsing() {
    let program = program_from_input("fn() {};");
    assert_eq!(program.len(), 1);
    assert_eq!(
        program.statements()[0],
        Statement::Expr(Expression::FunctionLiteral {
            parameters: vec![],
            body: BlockStatement::new(),
        })
    );

    let program = program_from_input("fn(x) {};");
    assert_eq!(program.len(), 1);
    assert_eq!(
        program.statements()[0],
        Statement::Expr(Expression::FunctionLiteral {
            parameters: vec![Identifier::new("x".into())],
            body: BlockStatement::new(),
        })
    );

    let program = program_from_input("fn(x, y, z) {};");
    assert_eq!(program.len(), 1);
    assert_eq!(
        program.statements()[0],
        Statement::Expr(Expression::FunctionLiteral {
            parameters: vec![
                Identifier::new("x".into()),
                Identifier::new("y".into()),
                Identifier::new("z".into())
            ],
            body: BlockStatement::new(),
        })
    );
}

#[test]
fn parser_test_call_expression_parsing() {
    let program = program_from_input("add(1, 2 * 3, 4 + 5)");
    assert_eq!(program.len(), 1);
    assert_eq!(
        program.statements()[0],
        Statement::Expr(Expression::Call {
            function: Box::new(Expression::Ident(Identifier::new("add".to_string()))),
            arguments: vec![
                Expression::IntegerLiteral(1),
                Expression::Infix {
                    token: Token::new(TokenKind::Asterisk, 9, 9),
                    operator: "*".to_string(),
                    left: Box::new(Expression::IntegerLiteral(2)),
                    right: Box::new(Expression::IntegerLiteral(3)),
                },
                Expression::Infix {
                    token: Token::new(TokenKind::Plus, 16, 16),
                    operator: "+".to_string(),
                    left: Box::new(Expression::IntegerLiteral(4)),
                    right: Box::new(Expression::IntegerLiteral(5)),
                },
            ]
        })
    );
}

#[test]
fn test_string_literal_expression() {
    let program = program_from_input(r#""hello world";"#);
    assert_eq!(
        program.statements()[0],
        Statement::Expr(Expression::StringLiteral("hello world".into()))
    );
}

#[test]
fn test_parsing_array_literals() {
    let program = program_from_input("[1, 2 * 2, 3 + 3]");
    assert_eq!(
        program.statements()[0],
        Statement::Expr(Expression::ArrayLiteral(vec![
            Expression::IntegerLiteral(1),
            Expression::Infix {
                token: Token::new(TokenKind::Asterisk, 6, 6),
                operator: "*".into(),
                left: Box::new(Expression::IntegerLiteral(2)),
                right: Box::new(Expression::IntegerLiteral(2)),
            },
            Expression::Infix {
                token: Token::new(TokenKind::Plus, 13, 13),
                operator: "+".into(),
                left: Box::new(Expression::IntegerLiteral(3)),
                right: Box::new(Expression::IntegerLiteral(3)),
            },
        ]))
    )
}

#[test]
fn test_parsing_index_expressions() {
    let program = program_from_input("myArray[1 + 1]");
    assert_eq!(
        program.statements()[0],
        Statement::Expr(Expression::IndexExpr {
            left: Box::new(Expression::Ident(Identifier::new("myArray".into()))),
            index: Box::new(Expression::Infix {
                token: Token::new(TokenKind::Plus, 10, 10),
                operator: "+".into(),
                left: Box::new(Expression::IntegerLiteral(1)),
                right: Box::new(Expression::IntegerLiteral(1)),
            })
        })
    )
}

#[test]
fn test_parsing_hash_literal_string_keys() {
    let program = program_from_input(r#"{"one": 1, "two": 2, "three": 3}"#);
    assert_eq!(
        program.statements()[0],
        Statement::Expr(Expression::HashLiteral(vec![
            (
                Expression::StringLiteral("one".into()),
                Expression::IntegerLiteral(1)
            ),
            (
                Expression::StringLiteral("two".into()),
                Expression::IntegerLiteral(2)
            ),
            (
                Expression::StringLiteral("three".into()),
                Expression::IntegerLiteral(3)
            ),
        ]))
    );
}

#[test]
fn test_parsing_emtpy_hash_literal() {
    let program = program_from_input(r#"{}"#);

    assert_eq!(program.statements()[0], Statement::Expr(Expression::HashLiteral(vec![])));
}

#[test]
fn test_parsing_hash_literal_with_expressions() {
    let program = program_from_input(r#"{"one": 0 + 1, "two": 10 - 8, "three": 15 / 5}"#);
    assert_eq!(
        program.statements()[0],
        Statement::Expr(Expression::HashLiteral(vec![
            (
                Expression::StringLiteral("one".into()),
                Expression::Infix {
                    token: Token::new(TokenKind::Plus, 10, 10),
                    operator: "+".into(),
                    left: Box::new(Expression::IntegerLiteral(0)),
                    right: Box::new(Expression::IntegerLiteral(1)),
                }
            ),
            (
                Expression::StringLiteral("two".into()),
                Expression::Infix {
                    token: Token::new(TokenKind::Minus, 25, 25),
                    operator: "-".into(),
                    left: Box::new(Expression::IntegerLiteral(10)),
                    right: Box::new(Expression::IntegerLiteral(8)),
                }
            ),
            (
                Expression::StringLiteral("three".into()),
                Expression::Infix {
                    token: Token::new(TokenKind::Slash, 42, 42),
                    operator: "/".into(),
                    left: Box::new(Expression::IntegerLiteral(15)),
                    right: Box::new(Expression::IntegerLiteral(5)),
                }
            ),
        ]))
    );
}
