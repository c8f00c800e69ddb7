use monkey_parser::ast::{Expr, Ident, Infix, Literal, Prefix, Statement};
use monkey_parser::lexer::Lexer;
use monkey_parser::parser::{parse, Parser};

fn check_errors(parser: Parser) {
    let errors = parser.get_errors();
    if errors.is_empty() {
        return;
    }
    println!("parser has {} errors", errors.len());
    for msg in errors.iter() {
        println!("parser error: {:?}", msg)
    }
    panic!("Failed")
}

#[test]
fn check_parse_errors() {
    let input = r#"
        let x = 5;
        let y = 10;
        let foobar = 123412345;
        "#;
    let mut parser = Parser::new(Lexer::new(input));
    let program = parser.parse_program();
    check_errors(parser);
    assert_eq!(3, program.len());
    let tests = [
        Statement::Let(Ident(String::from("x")), Expr::Literal(Literal::Int(5))),
        Statement::Let(Ident(String::from("y")), Expr::Literal(Literal::Int(10))),
        Statement::Let(
            Ident(String::from("foobar")),
            Expr::Literal(Literal::Int(123412345)),
        ),
    ];
    for (i, test) in tests.iter().enumerate() {
        let curr = program.get(i).unwrap();
        assert_eq!(curr, test)
    }
}

#[test]
fn test_returns() {
    let input = r#"
        return 5;
        return 10;
        return;
        "#;
    let mut parser = Parser::new(Lexer::new(input));
    let program = parser.parse_program();
    check_errors(parser);
    assert_eq!(3, program.len());
    let test = [
        Statement::Return(Some(Expr::Literal(Literal::Int(5)))),
        Statement::Return(Some(Expr::Literal(Literal::Int(10)))),
        Statement::Return(None),
    ];
    for (i, st) in program.iter().enumerate() {
        assert_eq!(st, test.get(i).unwrap())
    }
}

#[test]
fn test_expression() {
    let input = "foobar;";
    let mut parser = Parser::new(Lexer::new(input));
    let program = parser.parse_program();
    check_errors(parser);
    assert_eq!(program.len(), 1);
    assert_eq!(
        Statement::Expr(Expr::Ident(Ident(String::from("foobar")))),
        program[0]
    );
}

#[test]
fn test_prefix() {
    let input = r#"
        !5;
        -15;
        "#;
    let mut parser = Parser::new(Lexer::new(input));
    let program = parser.parse_program();
    check_errors(parser);
    assert!(!program.is_empty());
    assert_eq!(
        *program.get(0).unwrap(),
        Statement::Expr(Expr::Prefix(
            Prefix::Not,
            Box::new(Expr::Literal(Literal::Int(5)))
        ))
    );
    assert_eq!(
        *program.get(1).unwrap(),
        Statement::Expr(Expr::Prefix(
            Prefix::Minus,
            Box::new(Expr::Literal(Literal::Int(15)))
        ))
    )
}

#[test]
fn test_infix() {
    let input = r#"
        5 + 5;
        5 - 5;
        5 * 5
        5 / 5
        5 > 5
        5 < 5
        5 == 5
        5 != 5
        "#;
    let mut parser = Parser::new(Lexer::new(input));
    let program = parser.parse_program();
    check_errors(parser);
    let test = [
        Statement::Expr(Expr::Infix(
            Box::new(Expr::Literal(Literal::Int(5))),
            Infix::Plus,
            Box::new(Expr::Literal(Literal::Int(5))),
        )),
        Statement::Expr(Expr::Infix(
            Box::new(Expr::Literal(Literal::Int(5))),
            Infix::Minus,
            Box::new(Expr::Literal(Literal::Int(5))),
        )),
        Statement::Expr(Expr::Infix(
            Box::new(Expr::Literal(Literal::Int(5))),
            Infix::Multiply,
            Box::new(Expr::Literal(Literal::Int(5))),
        )),
        Statement::Expr(Expr::Infix(
            Box::new(Expr::Literal(Literal::Int(5))),
            Infix::Divide,
            Box::new(Expr::Literal(Literal::Int(5))),
        )),
        Statement::Expr(Expr::Infix(
            Box::new(Expr::Literal(Literal::Int(5))),
            Infix::GreaterThan,
            Box::new(Expr::Literal(Literal::Int(5))),
        )),
        Statement::Expr(Expr::Infix(
            Box::new(Expr::Literal(Literal::Int(5))),
            Infix::LessThan,
            Box::new(Expr::Literal(Literal::Int(5))),
        )),
        Statement::Expr(Expr::Infix(
            Box::new(Expr::Literal(Literal::Int(5))),
            Infix::Equal,
            Box::new(Expr::Literal(Literal::Int(5))),
        )),
        Statement::Expr(Expr::Infix(
            Box::new(Expr::Literal(Literal::Int(5))),
            Infix::NotEqual,
            Box::new(Expr::Literal(Literal::Int(5))),
        )),
    ];
    assert!(!program.is_empty());
    for (i, statement) in program.iter().enumerate() {
        assert_eq!(statement, test.get(i).unwrap())
    }
}

#[test]
fn precedence_nests_multiplication_to_the_right() {
    let (program, errors) = parse("a + b * c");
    assert!(errors.is_empty());
    assert_eq!(program.len(), 1);
    assert_eq!(
        program[0],
        Statement::Expr(Expr::Infix(
            Box::new(Expr::Ident(Ident(String::from("a")))),
            Infix::Plus,
            Box::new(Expr::Infix(
                Box::new(Expr::Ident(Ident(String::from("b")))),
                Infix::Multiply,
                Box::new(Expr::Ident(Ident(String::from("c")))),
            )),
        ))
    );
}

#[test]
fn equal_precedence_groups_to_the_left() {
    let (program, errors) = parse("a - b - c");
    assert!(errors.is_empty());
    assert_eq!(program.len(), 1);
    assert_eq!(
        program[0],
        Statement::Expr(Expr::Infix(
            Box::new(Expr::Infix(
                Box::new(Expr::Ident(Ident(String::from("a")))),
                Infix::Minus,
                Box::new(Expr::Ident(Ident(String::from("b")))),
            )),
            Infix::Minus,
            Box::new(Expr::Ident(Ident(String::from("c")))),
        ))
    );
}

#[test]
fn prefix_operators_nest() {
    let (program, errors) = parse("!-a");
    assert!(errors.is_empty());
    assert_eq!(program.len(), 1);
    assert_eq!(
        program[0],
        Statement::Expr(Expr::Prefix(
            Prefix::Not,
            Box::new(Expr::Prefix(
                Prefix::Minus,
                Box::new(Expr::Ident(Ident(String::from("a")))),
            )),
        ))
    );
}

#[test]
fn let_statement_parses_with_no_errors() {
    let (program, errors) = parse("let x = 5;");
    assert!(errors.is_empty());
    assert_eq!(program.len(), 1);
    assert_eq!(
        program[0],
        Statement::Let(Ident(String::from("x")), Expr::Literal(Literal::Int(5)))
    );
}

#[test]
fn let_without_assign_records_error() {
    let (program, errors) = parse("let x 5;");
    // After the error the parser resynchronizes and reads `5;` as an
    // expression statement.
    assert_eq!(
        program,
        vec![Statement::Expr(Expr::Literal(Literal::Int(5)))]
    );
    assert_eq!(errors.len(), 1);
    assert!(errors[0].contains("Assign"));
    assert_eq!(
        errors[0],
        "Expected next token to be Assign, got Int(5) instead"
    );
}

#[test]
fn let_without_identifier_records_error() {
    let (program, errors) = parse("let 5 = 3;");
    // After the error the parser resynchronizes: `5` and `3` both read as
    // expression statements, while `=` has no prefix rule and is dropped.
    assert_eq!(
        program,
        vec![
            Statement::Expr(Expr::Literal(Literal::Int(5))),
            Statement::Expr(Expr::Literal(Literal::Int(3))),
        ]
    );
    assert_eq!(errors.len(), 1);
    assert_eq!(
        errors[0],
        "Expected next token to be an identifier, got Int(5) instead"
    );
}

#[test]
fn return_without_value() {
    let (program, errors) = parse("return;");
    assert!(errors.is_empty());
    assert_eq!(program.len(), 1);
    assert_eq!(program[0], Statement::Return(None));
}

#[test]
fn empty_input_parses_to_empty_program() {
    let (program, errors) = parse("");
    assert!(program.is_empty());
    assert!(errors.is_empty());
}

#[test]
fn boolean_keywords_tokenize_but_have_no_prefix_rule() {
    let (program, errors) = parse("true;");
    assert!(errors.is_empty());
    assert!(program.is_empty());
}

#[test]
fn statement_without_trailing_semicolon() {
    let (program, errors) = parse("a + b");
    assert!(errors.is_empty());
    assert_eq!(program.len(), 1);
    assert_eq!(
        program[0],
        Statement::Expr(Expr::Infix(
            Box::new(Expr::Ident(Ident(String::from("a")))),
            Infix::Plus,
            Box::new(Expr::Ident(Ident(String::from("b")))),
        ))
    );
}

#[test]
fn let_recovery_skips_to_semicolon() {
    let (program, errors) = parse("let x = 5 junk tokens; let y = 6;");
    assert!(errors.is_empty());
    assert_eq!(program.len(), 2);
    assert_eq!(
        program[0],
        Statement::Let(Ident(String::from("x")), Expr::Literal(Literal::Int(5)))
    );
    assert_eq!(
        program[1],
        Statement::Let(Ident(String::from("y")), Expr::Literal(Literal::Int(6)))
    );
}
