//! Lexical tokens of the language, their mathematical view, and the keyword
//! table that maps identifier text to keyword tokens.

use vstd::prelude::*;
use vstd::string::StrSliceExecFns;

verus! {

/// One lexical unit of the source text.
#[derive(Debug, Clone)]
pub enum Token {
    Illegal,
    Eof,
    // Identifiers + literals
    Ident(String),
    Int(i64),
    Boolean(bool),
    // Operators
    Assign,
    Plus,
    Minus,
    Bang,
    Asterisk,
    Slash,
    Lt,
    Gt,
    Eq,
    NotEq,
    // Delimiters
    Comma,
    Semicolon,
    Lparen,
    Rparen,
    Lbrace,
    Rbrace,
    // Keywords
    Function,
    Let,
    If,
    Else,
    Return,
}

/// The mathematical view of a token: identifier names become character
/// sequences and integer values become unbounded integers.
pub enum TokenV {
    Illegal,
    Eof,
    Ident(Seq<char>),
    Int(int),
    Boolean(bool),
    Assign,
    Plus,
    Minus,
    Bang,
    Asterisk,
    Slash,
    Lt,
    Gt,
    Eq,
    NotEq,
    Comma,
    Semicolon,
    Lparen,
    Rparen,
    Lbrace,
    Rbrace,
    Function,
    Let,
    If,
    Else,
    Return,
}

impl View for Token {
    type V = TokenV;

    open spec fn view(&self) -> TokenV {
        match self {
            Token::Illegal => TokenV::Illegal,
            Token::Eof => TokenV::Eof,
            Token::Ident(name) => TokenV::Ident(name@),
            Token::Int(value) => TokenV::Int(*value as int),
            Token::Boolean(value) => TokenV::Boolean(*value),
            Token::Assign => TokenV::Assign,
            Token::Plus => TokenV::Plus,
            Token::Minus => TokenV::Minus,
            Token::Bang => TokenV::Bang,
            Token::Asterisk => TokenV::Asterisk,
            Token::Slash => TokenV::Slash,
            Token::Lt => TokenV::Lt,
            Token::Gt => TokenV::Gt,
            Token::Eq => TokenV::Eq,
            Token::NotEq => TokenV::NotEq,
            Token::Comma => TokenV::Comma,
            Token::Semicolon => TokenV::Semicolon,
            Token::Lparen => TokenV::Lparen,
            Token::Rparen => TokenV::Rparen,
            Token::Lbrace => TokenV::Lbrace,
            Token::Rbrace => TokenV::Rbrace,
            Token::Function => TokenV::Function,
            Token::Let => TokenV::Let,
            Token::If => TokenV::If,
            Token::Else => TokenV::Else,
            Token::Return => TokenV::Return,
        }
    }
}

impl DeepView for Token {
    type V = TokenV;

    open spec fn deep_view(&self) -> TokenV {
        self.view()
    }
}

/// The keyword table: the exact text `fn`, `let`, `true`, `false`, `if`,
/// `else` and `return` resolves to the corresponding keyword token (booleans
/// to a boolean literal); any other text is an identifier.
pub open spec fn spec_keyword(word: Seq<char>) -> TokenV {
    if word == "fn"@ {
        TokenV::Function
    } else if word == "let"@ {
        TokenV::Let
    } else if word == "true"@ {
        TokenV::Boolean(true)
    } else if word == "false"@ {
        TokenV::Boolean(false)
    } else if word == "if"@ {
        TokenV::If
    } else if word == "else"@ {
        TokenV::Else
    } else if word == "return"@ {
        TokenV::Return
    } else {
        TokenV::Ident(word)
    }
}

/// Character-by-character string equality, specified over the views.
fn str_eq(a: &str, b: &str) -> (r: bool)
    ensures
        r == (a@ == b@),
{
    let a_len = a.unicode_len();
    let b_len = b.unicode_len();
    if a_len != b_len {
        return false;
    }
    let mut i: usize = 0;
    while i < a_len
        invariant
            a_len == a@.len(),
            b_len == b@.len(),
            a_len == b_len,
            0 <= i <= a_len,
            forall|j: int| 0 <= j < i ==> a@[j] == b@[j],
        decreases a_len - i,
    {
        if a.get_char(i) != b.get_char(i) {
            return false;
        }
        i = i + 1;
    }
    proof {
        assert(a@ =~= b@);
    }
    true
}

/// Resolves identifier text to a keyword token or an identifier token,
/// exactly as the keyword table says.
pub fn get_keyword(word: &str) -> (t: Token)
    ensures
        t@ == spec_keyword(word@),
{
    if str_eq(word, "fn") {
        Token::Function
    } else if str_eq(word, "let") {
        Token::Let
    } else if str_eq(word, "true") {
        Token::Boolean(true)
    } else if str_eq(word, "false") {
        Token::Boolean(false)
    } else if str_eq(word, "if") {
        Token::If
    } else if str_eq(word, "else") {
        Token::Else
    } else if str_eq(word, "return") {
        Token::Return
    } else {
        Token::Ident(word.to_owned())
    }
}

} // verus!
