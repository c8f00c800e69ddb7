use monkey_parser::lexer::{tokenize, Lexer};
use monkey_parser::token::{get_keyword, Token};

#[test]
fn test_lexer() {
    let input = "=+(){},;";
    let tests = [
        Token::Assign,
        Token::Plus,
        Token::Lparen,
        Token::Rparen,
        Token::Lbrace,
        Token::Rbrace,
        Token::Comma,
        Token::Semicolon,
        Token::Eof,
    ];
    let mut lexer = Lexer::new(input);
    for res in tests {
        let curr = lexer.next_token();
        assert_eq!(res, curr);
    }
}

#[test]
fn test_lexer2() {
    let input = r#"let five = 5;
        let ten = 10;
        let add = fn(x, y) {
            x + y;
        };

        let result = add(five, ten);
        "#;
    let tests = [
        Token::Let,
        Token::Ident(String::from("five")),
        Token::Assign,
        Token::Int(5),
        Token::Semicolon,
        Token::Let,
        Token::Ident(String::from("ten")),
        Token::Assign,
        Token::Int(10),
        Token::Semicolon,
        Token::Let,
        Token::Ident(String::from("add")),
        Token::Assign,
        Token::Function,
        Token::Lparen,
        Token::Ident(String::from("x")),
        Token::Comma,
        Token::Ident(String::from("y")),
        Token::Rparen,
        Token::Lbrace,
        Token::Ident(String::from("x")),
        Token::Plus,
        Token::Ident(String::from("y")),
        Token::Semicolon,
        Token::Rbrace,
        Token::Semicolon,
        Token::Let,
        Token::Ident(String::from("result")),
        Token::Assign,
        Token::Ident(String::from("add")),
        Token::Lparen,
        Token::Ident(String::from("five")),
        Token::Comma,
        Token::Ident(String::from("ten")),
        Token::Rparen,
        Token::Semicolon,
        Token::Eof,
    ];
    let mut lexer = Lexer::new(input);
    for res in tests {
        let curr = lexer.next_token();
        assert_eq!(res, curr);
    }
}

#[test]
#[allow(unused_variables)]
fn test_next_token() {
    let input = r#"let five = 5;
        let ten = 10;
        let add = fn(x, y) {
            x + y;
        };
        let result = add(five, ten);
        !-/*5;
        5 < 10 > 5;

        5 < 10 > 5;
        if (5 < 10) {
            return true;
        } else {
            return false;
        }`
        "#;

    //
}

#[test]
fn keyword_table() {
    assert_eq!(get_keyword("fn"), Token::Function);
    assert_eq!(get_keyword("let"), Token::Let);
    assert_eq!(get_keyword("true"), Token::Boolean(true));
    assert_eq!(get_keyword("false"), Token::Boolean(false));
    assert_eq!(get_keyword("if"), Token::If);
    assert_eq!(get_keyword("else"), Token::Else);
    assert_eq!(get_keyword("return"), Token::Return);
    assert_eq!(get_keyword("foobar"), Token::Ident(String::from("foobar")));
    assert_eq!(get_keyword("lets"), Token::Ident(String::from("lets")));
}

#[test]
fn two_character_operators() {
    let got = tokenize("== = != !");
    let expected = vec![Token::Eq, Token::Assign, Token::NotEq, Token::Bang, Token::Eof];
    assert_eq!(got, expected);
}

#[test]
fn illegal_character() {
    let got = tokenize("@");
    assert_eq!(got, vec![Token::Illegal, Token::Eof]);
}

#[test]
fn whitespace_is_skipped() {
    let got = tokenize(" \t\r\n  5 ");
    assert_eq!(got, vec![Token::Int(5), Token::Eof]);
}

#[test]
fn tokenize_ends_with_single_eof() {
    let got = tokenize("let x = 5; @ let");
    assert!(!got.is_empty());
    assert_eq!(*got.last().unwrap(), Token::Eof);
    for token in &got[..got.len() - 1] {
        assert_ne!(*token, Token::Eof);
    }
}

#[test]
fn tokenize_twice_is_identical() {
    let input = "let answer = add(40, 2) - -2;";
    let first = tokenize(input);
    let second = tokenize(input);
    assert_eq!(first, second);
}

#[test]
fn empty_input_tokenizes_to_eof() {
    assert_eq!(tokenize(""), vec![Token::Eof]);
}

#[test]
fn largest_integer_literal() {
    let got = tokenize("9223372036854775807");
    assert_eq!(got, vec![Token::Int(9223372036854775807), Token::Eof]);
}

#[test]
fn integer_overflow_is_illegal() {
    let got = tokenize("9223372036854775808");
    assert_eq!(got, vec![Token::Illegal, Token::Eof]);
    let got2 = tokenize("99999999999999999999999 5");
    assert_eq!(got2, vec![Token::Illegal, Token::Int(5), Token::Eof]);
}
