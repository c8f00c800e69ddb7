//! The parser: pulls tokens from a [`Lexer`] with two tokens of lookahead and
//! builds a [`Program`] by recursive descent, using Pratt-style precedence
//! climbing for expressions. Its behaviour is pinned down by a
//! specification-level parser over the token stream of the input text.

use crate::ast::{
    spec_prec_rank, Expr, ExprV, Ident, Infix, Literal, LiteralV, Precedence, Prefix, Program,
    Statement, StatementV,
};
use crate::lexer::{lemma_lex_next_bounds, lex_next, Lexer};
use crate::token::{Token, TokenV};
use vstd::arithmetic::div_mod::{lemma_fundamental_div_mod, lemma_mod_bound};
use vstd::prelude::*;
use vstd::string::StringExecFns;

verus! {

/// A parse error: a human-readable message.
pub type ParseError = String;

/// The collected parse errors, in the order they were recorded.
pub type ParseErrors = Vec<ParseError>;

// ---------------------------------------------------------------------------
// The token stream of a text, read by index.
// ---------------------------------------------------------------------------
/// The position of the tokenizer after producing the first `k` tokens of the
/// text.
pub open spec fn pos_after(s: Seq<char>, k: nat) -> int
    decreases k,
{
    if k == 0 {
        0
    } else {
        lex_next(s, pos_after(s, (k - 1) as nat)).1
    }
}

/// Token number `k` of the text. Past the end of the text this is `Eof`
/// forever, which matches a tokenizer that keeps answering `Eof`.
pub open spec fn tok_of(s: Seq<char>, k: nat) -> TokenV {
    lex_next(s, pos_after(s, k)).0
}

/// Whether a token is the end-of-input marker, as zero or one.
pub open spec fn eof_weight(t: TokenV) -> int {
    if t is Eof {
        1
    } else {
        0
    }
}

/// How much input is left for a parser whose current token is token `k`: the
/// unread text plus the two buffered lookahead tokens. Advancing past a
/// non-`Eof` token strictly shrinks it.
pub open spec fn stream_measure(s: Seq<char>, k: nat) -> int {
    (s.len() - pos_after(s, k)) + (1 - eof_weight(tok_of(s, k))) + (1 - eof_weight(
        tok_of(s, (k + 1) as nat),
    ))
}

pub proof fn lemma_pos_after_bounds(s: Seq<char>, k: nat)
    ensures
        0 <= pos_after(s, k) <= s.len(),
    decreases k,
{
    if k > 0 {
        lemma_pos_after_bounds(s, (k - 1) as nat);
        lemma_lex_next_bounds(s, pos_after(s, (k - 1) as nat));
    }
}

pub proof fn lemma_measure_nonneg(s: Seq<char>, k: nat)
    ensures
        stream_measure(s, k) >= 0,
{
    lemma_pos_after_bounds(s, k);
}

/// Advancing the parser never grows the remaining input, and shrinks it
/// strictly when the token stepped over is not `Eof`.
pub proof fn lemma_measure_step(s: Seq<char>, k: nat)
    ensures
        stream_measure(s, (k + 1) as nat) <= stream_measure(s, k),
        !(tok_of(s, k) is Eof) ==> stream_measure(s, (k + 1) as nat) < stream_measure(s, k),
{
    lemma_pos_after_bounds(s, k);
    lemma_pos_after_bounds(s, (k + 1) as nat);
    lemma_pos_after_bounds(s, (k + 2) as nat);
    lemma_lex_next_bounds(s, pos_after(s, k));
    lemma_lex_next_bounds(s, pos_after(s, (k + 1) as nat));
    lemma_lex_next_bounds(s, pos_after(s, (k + 2) as nat));
    assert(pos_after(s, (k + 2) as nat) == lex_next(s, pos_after(s, (k + 1) as nat)).1);
    assert(pos_after(s, (k + 1) as nat) == lex_next(s, pos_after(s, k)).1);
    if pos_after(s, k) >= s.len() {
        assert(tok_of(s, k) is Eof);
        assert(pos_after(s, (k + 1) as nat) == pos_after(s, k));
        assert(pos_after(s, (k + 2) as nat) == pos_after(s, (k + 1) as nat));
        assert(tok_of(s, (k + 2) as nat) is Eof);
    } else {
        if tok_of(s, k) is Eof {
            assert(pos_after(s, (k + 1) as nat) > pos_after(s, k));
        }
    }
}

// ---------------------------------------------------------------------------
// Error message text.
// ---------------------------------------------------------------------------
/// The decimal digit character for a value below ten.
pub open spec fn spec_digit_char(d: int) -> char {
    if d == 0 {
        '0'
    } else if d == 1 {
        '1'
    } else if d == 2 {
        '2'
    } else if d == 3 {
        '3'
    } else if d == 4 {
        '4'
    } else if d == 5 {
        '5'
    } else if d == 6 {
        '6'
    } else if d == 7 {
        '7'
    } else if d == 8 {
        '8'
    } else {
        '9'
    }
}

/// The decimal text of a nonnegative integer, no leading zeroes.
pub open spec fn spec_nat_text(n: int) -> Seq<char>
    decreases n,
        when n >= 0
        via spec_nat_text_decreases
{
    if n < 10 {
        seq![spec_digit_char(n)]
    } else {
        spec_nat_text(n / 10).push(spec_digit_char(n % 10))
    }
}

#[via_fn]
proof fn spec_nat_text_decreases(n: int) {
    if n >= 10 {
        lemma_fundamental_div_mod(n, 10);
        lemma_mod_bound(n, 10);
    }
}

/// The decimal text of an integer, with a leading minus sign if negative.
pub open spec fn spec_int_text(v: int) -> Seq<char> {
    if v >= 0 {
        spec_nat_text(v)
    } else {
        seq!['-'] + spec_nat_text(-v)
    }
}

/// How a token is written in an error message.
pub open spec fn spec_token_text(t: TokenV) -> Seq<char> {
    match t {
        TokenV::Illegal => "Illegal"@,
        TokenV::Eof => "Eof"@,
        TokenV::Ident(name) => "Ident(\""@ + name + "\")"@,
        TokenV::Int(v) => "Int("@ + spec_int_text(v) + ")"@,
        TokenV::Boolean(b) => if b {
            "Boolean(true)"@
        } else {
            "Boolean(false)"@
        },
        TokenV::Assign => "Assign"@,
        TokenV::Plus => "Plus"@,
        TokenV::Minus => "Minus"@,
        TokenV::Bang => "Bang"@,
        TokenV::Asterisk => "Asterisk"@,
        TokenV::Slash => "Slash"@,
        TokenV::Lt => "Lt"@,
        TokenV::Gt => "Gt"@,
        TokenV::Eq => "Eq"@,
        TokenV::NotEq => "NotEq"@,
        TokenV::Comma => "Comma"@,
        TokenV::Semicolon => "Semicolon"@,
        TokenV::Lparen => "Lparen"@,
        TokenV::Rparen => "Rparen"@,
        TokenV::Lbrace => "Lbrace"@,
        TokenV::Rbrace => "Rbrace"@,
        TokenV::Function => "Function"@,
        TokenV::Let => "Let"@,
        TokenV::If => "If"@,
        TokenV::Else => "Else"@,
        TokenV::Return => "Return"@,
    }
}

/// The message recorded when a mandatory token is missing.
pub open spec fn spec_expected_message(expected: TokenV, got: TokenV) -> Seq<char> {
    "Expected next token to be "@ + spec_token_text(expected) + ", got "@ + spec_token_text(got)
        + " instead"@
}

/// The message recorded when the token after `let` is not an identifier.
pub open spec fn spec_expected_ident_message(got: TokenV) -> Seq<char> {
    "Expected next token to be an identifier, got "@ + spec_token_text(got) + " instead"@
}

fn digit_str(d: u64) -> (r: &'static str)
    requires
        d < 10,
    ensures
        r@ == seq![spec_digit_char(d as int)],
{
    if d == 0 {
        proof {
            reveal_strlit("0");
        }
        let r = "0";
        proof {
            assert(r@ =~= seq![spec_digit_char(0)]);
        }
        r
    } else if d == 1 {
        proof {
            reveal_strlit("1");
        }
        let r = "1";
        proof {
            assert(r@ =~= seq![spec_digit_char(1)]);
        }
        r
    } else if d == 2 {
        proof {
            reveal_strlit("2");
        }
        let r = "2";
        proof {
            assert(r@ =~= seq![spec_digit_char(2)]);
        }
        r
    } else if d == 3 {
        proof {
            reveal_strlit("3");
        }
        let r = "3";
        proof {
            assert(r@ =~= seq![spec_digit_char(3)]);
        }
        r
    } else if d == 4 {
        proof {
            reveal_strlit("4");
        }
        let r = "4";
        proof {
            assert(r@ =~= seq![spec_digit_char(4)]);
        }
        r
    } else if d == 5 {
        proof {
            reveal_strlit("5");
        }
        let r = "5";
        proof {
            assert(r@ =~= seq![spec_digit_char(5)]);
        }
        r
    } else if d == 6 {
        proof {
            reveal_strlit("6");
        }
        let r = "6";
        proof {
            assert(r@ =~= seq![spec_digit_char(6)]);
        }
        r
    } else if d == 7 {
        proof {
            reveal_strlit("7");
        }
        let r = "7";
        proof {
            assert(r@ =~= seq![spec_digit_char(7)]);
        }
        r
    } else if d == 8 {
        proof {
            reveal_strlit("8");
        }
        let r = "8";
        proof {
            assert(r@ =~= seq![spec_digit_char(8)]);
        }
        r
    } else {
        proof {
            reveal_strlit("9");
        }
        let r = "9";
        proof {
            assert(r@ =~= seq![spec_digit_char(9)]);
        }
        r
    }
}

fn nat_text(n: u64) -> (r: String)
    ensures
        r@ == spec_nat_text(n as int),
    decreases n,
{
    if n < 10 {
        String::from_str(digit_str(n))
    } else {
        let mut s = nat_text(n / 10);
        s.append(digit_str(n % 10));
        proof {
            assert(s@ =~= spec_nat_text(n as int / 10).push(spec_digit_char(n as int % 10)));
        }
        s
    }
}

fn int_text(v: i64) -> (r: String)
    ensures
        r@ == spec_int_text(v as int),
{
    if v >= 0 {
        nat_text(v as u64)
    } else {
        let magnitude = (-(v as i128)) as u64;
        let mut s = String::from_str("-");
        let digits = nat_text(magnitude);
        s.append(digits.as_str());
        proof {
            reveal_strlit("-");
            assert(s@ =~= seq!['-'] + spec_nat_text(-(v as int)));
        }
        s
    }
}

/// How a token is written in an error message.
fn token_text(t: &Token) -> (r: String)
    ensures
        r@ == spec_token_text(t@),
{
    match t {
        Token::Illegal => String::from_str("Illegal"),
        Token::Eof => String::from_str("Eof"),
        Token::Ident(name) => {
            let mut s = String::from_str("Ident(\"");
            s.append(name.as_str());
            s.append("\")");
            s
        },
        Token::Int(v) => {
            let mut s = String::from_str("Int(");
            let digits = int_text(*v);
            s.append(digits.as_str());
            s.append(")");
            s
        },
        Token::Boolean(b) => {
            if *b {
                String::from_str("Boolean(true)")
            } else {
                String::from_str("Boolean(false)")
            }
        },
        Token::Assign => String::from_str("Assign"),
        Token::Plus => String::from_str("Plus"),
        Token::Minus => String::from_str("Minus"),
        Token::Bang => String::from_str("Bang"),
        Token::Asterisk => String::from_str("Asterisk"),
        Token::Slash => String::from_str("Slash"),
        Token::Lt => String::from_str("Lt"),
        Token::Gt => String::from_str("Gt"),
        Token::Eq => String::from_str("Eq"),
        Token::NotEq => String::from_str("NotEq"),
        Token::Comma => String::from_str("Comma"),
        Token::Semicolon => String::from_str("Semicolon"),
        Token::Lparen => String::from_str("Lparen"),
        Token::Rparen => String::from_str("Rparen"),
        Token::Lbrace => String::from_str("Lbrace"),
        Token::Rbrace => String::from_str("Rbrace"),
        Token::Function => String::from_str("Function"),
        Token::Let => String::from_str("Let"),
        Token::If => String::from_str("If"),
        Token::Else => String::from_str("Else"),
        Token::Return => String::from_str("Return"),
    }
}

fn expected_message(expected: &Token, got: &Token) -> (r: String)
    ensures
        r@ == spec_expected_message(expected@, got@),
{
    let mut s = String::from_str("Expected next token to be ");
    let e = token_text(expected);
    s.append(e.as_str());
    s.append(", got ");
    let g = token_text(got);
    s.append(g.as_str());
    s.append(" instead");
    s
}

fn expected_ident_message(got: &Token) -> (r: String)
    ensures
        r@ == spec_expected_ident_message(got@),
{
    let mut s = String::from_str("Expected next token to be an identifier, got ");
    let g = token_text(got);
    s.append(g.as_str());
    s.append(" instead");
    s
}

// ---------------------------------------------------------------------------
// Operator classification.
// ---------------------------------------------------------------------------
/// The precedence a token carries when it appears in infix position; tokens
/// that are no binary operator bind lowest.
pub open spec fn spec_precedence_of(t: TokenV) -> Precedence {
    match t {
        TokenV::Eq => Precedence::Equals,
        TokenV::NotEq => Precedence::Equals,
        TokenV::Lt => Precedence::LessGreater,
        TokenV::Gt => Precedence::LessGreater,
        TokenV::Plus => Precedence::Sum,
        TokenV::Minus => Precedence::Sum,
        TokenV::Slash => Precedence::Product,
        TokenV::Asterisk => Precedence::Product,
        _ => Precedence::Lowest,
    }
}

/// Whether a token is one of the binary operators.
pub open spec fn spec_is_infix_op(t: TokenV) -> bool {
    ||| t is Plus
    ||| t is Minus
    ||| t is Slash
    ||| t is Asterisk
    ||| t is Eq
    ||| t is NotEq
    ||| t is Lt
    ||| t is Gt
}

/// The AST operator a binary-operator token stands for.
pub open spec fn spec_infix_of(t: TokenV) -> Infix {
    match t {
        TokenV::Plus => Infix::Plus,
        TokenV::Minus => Infix::Minus,
        TokenV::Slash => Infix::Divide,
        TokenV::Asterisk => Infix::Multiply,
        TokenV::Eq => Infix::Equal,
        TokenV::NotEq => Infix::NotEqual,
        TokenV::Lt => Infix::LessThan,
        _ => Infix::GreaterThan,
    }
}

/// The precedence a token carries when it appears in infix position.
pub fn get_precedence(token: &Token) -> (r: Precedence)
    ensures
        r == spec_precedence_of(token@),
{
    match token {
        Token::Eq | Token::NotEq => Precedence::Equals,
        Token::Lt | Token::Gt => Precedence::LessGreater,
        Token::Plus | Token::Minus => Precedence::Sum,
        Token::Slash | Token::Asterisk => Precedence::Product,
        _ => Precedence::Lowest,
    }
}

// ---------------------------------------------------------------------------
// The parser.
// ---------------------------------------------------------------------------
/// A recursive-descent parser over the token stream of one text, with the
/// current token and one token of lookahead.
pub struct Parser<'a> {
    lexer: Lexer<'a>,
    curr_token: Token,
    next_token: Token,
    errors: ParseErrors,
    idx: Ghost<nat>,
}

impl<'a> Parser<'a> {
    /// The text being parsed.
    pub closed spec fn text(&self) -> Seq<char> {
        self.lexer.text()
    }

    /// The number of the token currently under the cursor.
    pub closed spec fn index(&self) -> nat {
        self.idx@
    }

    /// The messages recorded so far, oldest first.
    pub closed spec fn errors_view(&self) -> Seq<Seq<char>> {
        self.errors.deep_view()
    }

    /// The two buffered tokens are tokens `index` and `index + 1` of the
    /// text, and the lexer stands ready to produce token `index + 2`.
    pub closed spec fn wf(&self) -> bool {
        &&& self.lexer.wf()
        &&& self.curr_token@ == tok_of(self.text(), self.index())
        &&& self.next_token@ == tok_of(self.text(), (self.index() + 1) as nat)
        &&& self.lexer.position() == pos_after(self.text(), (self.index() + 2) as nat)
    }

    /// A parser primed with the first two tokens of the lexer's text.
    pub fn new(lexer: Lexer<'a>) -> (r: Parser<'a>)
        requires
            lexer.wf(),
            lexer.position() == 0,
        ensures
            r.wf(),
            r.text() == lexer.text(),
            r.index() == 0,
            r.errors_view() == Seq::<Seq<char>>::empty(),
    {
        let mut first_lexer = lexer;
        let first = first_lexer.next_token();
        let second = first_lexer.next_token();
        let parser = Parser {
            lexer: first_lexer,
            curr_token: first,
            next_token: second,
            errors: Vec::new(),
            idx: Ghost(0),
        };
        proof {
            assert(parser.errors.deep_view() =~= Seq::<Seq<char>>::empty());
        }
        parser
    }

    /// The recorded parse errors, oldest first.
    pub fn get_errors(&self) -> (r: ParseErrors)
        ensures
            r.deep_view() == self.errors_view(),
    {
        let mut out: ParseErrors = Vec::new();
        let mut i: usize = 0;
        while i < self.errors.len()
            invariant
                0 <= i <= self.errors.len(),
                out.deep_view() =~= self.errors.deep_view().subrange(0, i as int),
            decreases self.errors.len() - i,
        {
            let ghost before = out.deep_view();
            out.push(self.errors[i].clone());
            proof {
                assert(out.deep_view() =~= before.push(self.errors[i as int]@));
                assert(out.deep_view() =~= self.errors.deep_view().subrange(0, i + 1));
            }
            i = i + 1;
        }
        proof {
            assert(out.deep_view() =~= self.errors.deep_view());
        }
        out
    }

    /// Shifts the lookahead: the next token becomes current, and a fresh
    /// token is pulled from the lexer.
    fn advance(&mut self)
        requires
            old(self).wf(),
        ensures
            final(self).wf(),
            final(self).text() == old(self).text(),
            final(self).index() == old(self).index() + 1,
            final(self).errors_view() == old(self).errors_view(),
            stream_measure(old(self).text(), final(self).index()) <= stream_measure(
                old(self).text(),
                old(self).index(),
            ),
            !(tok_of(old(self).text(), old(self).index()) is Eof) ==> stream_measure(
                old(self).text(),
                final(self).index(),
            ) < stream_measure(old(self).text(), old(self).index()),
    {
        proof {
            lemma_measure_step(self.text(), self.idx@);
        }
        let pulled = self.lexer.next_token();
        core::mem::swap(&mut self.curr_token, &mut self.next_token);
        self.next_token = pulled;
        self.idx = Ghost((self.idx@ + 1) as nat);
    }

    /// Records that the next token was expected to be `token` but was
    /// something else.
    fn peek_error(&mut self, token: Token)
        requires
            old(self).wf(),
        ensures
            final(self).wf(),
            final(self).text() == old(self).text(),
            final(self).index() == old(self).index(),
            final(self).errors_view() == old(self).errors_view().push(
                spec_expected_message(
                    token@,
                    tok_of(old(self).text(), (old(self).index() + 1) as nat),
                ),
            ),
    {
        let ghost before = self.errors.deep_view();
        let msg = expected_message(&token, &self.next_token);
        self.errors.push(msg);
        proof {
            assert(self.errors.deep_view() =~= before.push(
                spec_expected_message(token@, old(self).next_token@),
            ));
        }
    }

    /// Whether the current token equals the given one.
    fn curr_token_is(&self, token: Token) -> (r: bool)
        requires
            self.wf(),
        ensures
            r == (self.curr_token@ == token@),
    {
        self.curr_token == token
    }

    /// Whether the next token equals the given one.
    fn next_token_is(&self, token: &Token) -> (r: bool)
        requires
            self.wf(),
        ensures
            r == (self.next_token@ == token@),
    {
        self.next_token == *token
    }

    /// The precedence of the next token.
    fn next_precedence(&self) -> (r: Precedence)
        requires
            self.wf(),
        ensures
            r == spec_precedence_of(tok_of(self.text(), (self.index() + 1) as nat)),
    {
        get_precedence(&self.next_token)
    }

    /// The precedence of the current token.
    fn curr_precedence(&self) -> (r: Precedence)
        requires
            self.wf(),
        ensures
            r == spec_precedence_of(tok_of(self.text(), self.index())),
    {
        get_precedence(&self.curr_token)
    }
}

// ---------------------------------------------------------------------------
// The specification-level parser. Each function mirrors one parsing
// operation over the token stream `tok_of(inp, _)`; `fuel` only bounds the
// recursion depth, and every executable parsing function proves that any
// fuel beyond the remaining input gives its exact result.
// ---------------------------------------------------------------------------
/// The prefix operator a `!` or `-` token stands for.
pub open spec fn spec_prefix_of(t: TokenV) -> Prefix {
    if t is Bang {
        Prefix::Not
    } else {
        Prefix::Minus
    }
}

/// Parsing one expression at token `i` with a minimum precedence: prefix
/// dispatch followed by the infix loop. Yields the expression (or `None` on
/// a syntax error) and the token the parser ends on.
pub open spec fn spec_parse_expr(
    inp: Seq<char>,
    i: nat,
    min_prec: Precedence,
    fuel: nat,
) -> Option<(Option<ExprV>, nat)>
    decreases fuel, 3int,
{
    if fuel == 0 {
        None
    } else {
        match tok_of(inp, i) {
            TokenV::Ident(name) => spec_infix_loop(inp, i, ExprV::Ident(name), min_prec, fuel),
            TokenV::Int(v) => spec_infix_loop(
                inp,
                i,
                ExprV::Literal(LiteralV::Int(v)),
                min_prec,
                fuel,
            ),
            TokenV::Bang => match spec_parse_prefix_expr(inp, i, fuel) {
                None => None,
                Some((None, j)) => Some((None, j)),
                Some((Some(operand), j)) => spec_infix_loop(
                    inp,
                    j,
                    operand,
                    min_prec,
                    (fuel - 1) as nat,
                ),
            },
            TokenV::Minus => match spec_parse_prefix_expr(inp, i, fuel) {
                None => None,
                Some((None, j)) => Some((None, j)),
                Some((Some(operand), j)) => spec_infix_loop(
                    inp,
                    j,
                    operand,
                    min_prec,
                    (fuel - 1) as nat,
                ),
            },
            _ => Some((None, i)),
        }
    }
}

/// Parsing a prefix expression whose operator is token `i`: the operand is
/// parsed at `Prefix` precedence and wrapped under the operator.
pub open spec fn spec_parse_prefix_expr(inp: Seq<char>, i: nat, fuel: nat) -> Option<
    (Option<ExprV>, nat),
>
    decreases fuel, 1int,
{
    if fuel == 0 {
        None
    } else {
        match spec_parse_expr(inp, (i + 1) as nat, Precedence::Prefix, (fuel - 1) as nat) {
            None => None,
            Some((None, j)) => Some((None, j)),
            Some((Some(operand), j)) => Some(
                (Some(ExprV::Prefix(spec_prefix_of(tok_of(inp, i)), Box::new(operand))), j),
            ),
        }
    }
}

/// Parsing the right side of a binary operator at token `i`: the right
/// operand is parsed at the operator's own precedence, which makes equal
/// precedences group to the left.
pub open spec fn spec_parse_infix_expr(inp: Seq<char>, i: nat, left: ExprV, fuel: nat) -> Option<
    (Option<ExprV>, nat),
>
    decreases fuel, 1int,
{
    if fuel == 0 {
        None
    } else {
        let op_tok = tok_of(inp, i);
        match spec_parse_expr(inp, (i + 1) as nat, spec_precedence_of(op_tok), (fuel - 1) as nat) {
            None => None,
            Some((None, j)) => Some((None, j)),
            Some((Some(right), j)) => Some(
                (
                    Some(ExprV::Infix(Box::new(left), spec_infix_of(op_tok), Box::new(right))),
                    j,
                ),
            ),
        }
    }
}

/// The infix loop: while the token after the current expression is not a
/// semicolon and binds tighter than the minimum precedence, absorb it and
/// its right operand into the expression.
pub open spec fn spec_infix_loop(
    inp: Seq<char>,
    i: nat,
    left: ExprV,
    min_prec: Precedence,
    fuel: nat,
) -> Option<(Option<ExprV>, nat)>
    decreases fuel, 2int,
{
    if fuel == 0 {
        None
    } else {
        let nt = tok_of(inp, (i + 1) as nat);
        if !(nt is Semicolon) && spec_prec_rank(min_prec) < spec_prec_rank(spec_precedence_of(nt)) {
            if spec_is_infix_op(nt) {
                match spec_parse_infix_expr(inp, (i + 1) as nat, left, (fuel - 1) as nat) {
                    None => None,
                    Some((None, j)) => Some((None, j)),
                    Some((Some(combined), j)) => spec_infix_loop(
                        inp,
                        j,
                        combined,
                        min_prec,
                        (fuel - 1) as nat,
                    ),
                }
            } else {
                Some((Some(left), i))
            }
        } else {
            Some((Some(left), i))
        }
    }
}

/// Recovery after a `let` or `return` statement: every token up to the next
/// semicolon (or the end of the input) is discarded.
pub open spec fn spec_skip_to_semicolon(inp: Seq<char>, i: nat, fuel: nat) -> Option<nat>
    decreases fuel, 0int,
{
    if fuel == 0 {
        None
    } else {
        let t = tok_of(inp, i);
        if t is Semicolon || t is Eof {
            Some(i)
        } else {
            spec_skip_to_semicolon(inp, (i + 1) as nat, (fuel - 1) as nat)
        }
    }
}

/// Parsing a `let` statement whose `let` keyword is token `i`. A missing
/// identifier or `=` records one error and yields no statement; after the
/// value, everything up to the next semicolon is discarded.
pub open spec fn spec_parse_let(inp: Seq<char>, i: nat, fuel: nat) -> Option<
    (Option<StatementV>, nat, Seq<Seq<char>>),
>
    decreases fuel, 4int,
{
    if fuel == 0 {
        None
    } else {
        match tok_of(inp, (i + 1) as nat) {
            TokenV::Ident(name) => {
                if tok_of(inp, (i + 2) as nat) is Assign {
                    match spec_parse_expr(inp, (i + 3) as nat, Precedence::Lowest, fuel) {
                        None => None,
                        Some((None, j)) => Some((None, j, seq![])),
                        Some((Some(value), j)) => match spec_skip_to_semicolon(
                            inp,
                            j,
                            (fuel - 1) as nat,
                        ) {
                            None => None,
                            Some(k) => Some((Some(StatementV::Let(name, value)), k, seq![])),
                        },
                    }
                } else {
                    Some(
                        (
                            None,
                            (i + 1) as nat,
                            seq![
                                spec_expected_message(
                                    TokenV::Assign,
                                    tok_of(inp, (i + 2) as nat),
                                ),
                            ],
                        ),
                    )
                }
            },
            _ => Some(
                (None, i, seq![spec_expected_ident_message(tok_of(inp, (i + 1) as nat))]),
            ),
        }
    }
}

/// Parsing a `return` statement whose keyword is token `i`. A missing value
/// yields `Return(None)`; after the value, everything up to the next
/// semicolon is discarded.
pub open spec fn spec_parse_return(inp: Seq<char>, i: nat, fuel: nat) -> Option<
    (Option<StatementV>, nat, Seq<Seq<char>>),
>
    decreases fuel, 4int,
{
    if fuel == 0 {
        None
    } else {
        match spec_parse_expr(inp, (i + 1) as nat, Precedence::Lowest, fuel) {
            None => None,
            Some((value, j)) => match spec_skip_to_semicolon(inp, j, (fuel - 1) as nat) {
                None => None,
                Some(k) => Some((Some(StatementV::Return(value)), k, seq![])),
            },
        }
    }
}

/// Parsing a bare expression statement at token `i`; a trailing semicolon is
/// consumed if present.
pub open spec fn spec_parse_expr_statement(inp: Seq<char>, i: nat, fuel: nat) -> Option<
    (Option<StatementV>, nat, Seq<Seq<char>>),
>
    decreases fuel, 4int,
{
    if fuel == 0 {
        None
    } else {
        match spec_parse_expr(inp, i, Precedence::Lowest, fuel) {
            None => None,
            Some((None, j)) => Some((None, j, seq![])),
            Some((Some(e), j)) => {
                if tok_of(inp, (j + 1) as nat) is Semicolon {
                    Some((Some(StatementV::Expr(e)), (j + 1) as nat, seq![]))
                } else {
                    Some((Some(StatementV::Expr(e)), j, seq![]))
                }
            },
        }
    }
}

/// Statement dispatch on the current token.
pub open spec fn spec_parse_statement(inp: Seq<char>, i: nat, fuel: nat) -> Option<
    (Option<StatementV>, nat, Seq<Seq<char>>),
>
    decreases fuel, 5int,
{
    if fuel == 0 {
        None
    } else {
        match tok_of(inp, i) {
            TokenV::Let => spec_parse_let(inp, i, fuel),
            TokenV::Return => spec_parse_return(inp, i, fuel),
            _ => spec_parse_expr_statement(inp, i, fuel),
        }
    }
}

/// Prepends already-parsed statements and already-recorded errors to the
/// result of parsing the rest of the program.
pub open spec fn spec_prepend_program(
    stmts: Seq<StatementV>,
    errs: Seq<Seq<char>>,
    rest: Option<(Seq<StatementV>, nat, Seq<Seq<char>>)>,
) -> Option<(Seq<StatementV>, nat, Seq<Seq<char>>)> {
    match rest {
        None => None,
        Some((more, k, more_errs)) => Some((stmts + more, k, errs + more_errs)),
    }
}

/// Parsing a whole program from token `i`: statements are parsed and
/// collected until the current token is `Eof`, skipping statements that
/// failed (their errors, if any, were recorded), and advancing past each
/// statement's last token.
pub open spec fn spec_parse_program(inp: Seq<char>, i: nat, fuel: nat) -> Option<
    (Seq<StatementV>, nat, Seq<Seq<char>>),
>
    decreases fuel, 6int,
{
    if fuel == 0 {
        None
    } else if tok_of(inp, i) is Eof {
        Some((seq![], i, seq![]))
    } else {
        match spec_parse_statement(inp, i, fuel) {
            None => None,
            Some((parsed, j, errs)) => {
                let stmts = match parsed {
                    Some(st) => seq![st],
                    None => seq![],
                };
                spec_prepend_program(
                    stmts,
                    errs,
                    spec_parse_program(inp, (j + 1) as nat, (fuel - 1) as nat),
                )
            },
        }
    }
}

/// What parsing a whole text yields: the program and the recorded errors.
/// The remaining-input measure plus one is always fuel enough.
pub open spec fn spec_parse(inp: Seq<char>) -> (Seq<StatementV>, Seq<Seq<char>>) {
    match spec_parse_program(inp, 0, (stream_measure(inp, 0) + 1) as nat) {
        Some((stmts, k, errs)) => (stmts, errs),
        None => (seq![], seq![]),
    }
}

impl<'a> Parser<'a> {
    /// Reads the identifier under the cursor, if there is one. The parser
    /// state does not change.
    fn parse_ident(&mut self) -> (r: Option<Ident>)
        requires
            old(self).wf(),
        ensures
            *final(self) == *old(self),
            match r {
                Some(id) => tok_of(old(self).text(), old(self).index()) == TokenV::Ident(id@),
                None => !(tok_of(old(self).text(), old(self).index()) is Ident),
            },
    {
        match &self.curr_token {
            Token::Ident(name) => Some(Ident(name.clone())),
            _ => None,
        }
    }

    /// The identifier under the cursor as an expression.
    fn parse_ident_expr(&mut self) -> (r: Option<Expr>)
        requires
            old(self).wf(),
        ensures
            *final(self) == *old(self),
            match r {
                Some(e) => tok_of(old(self).text(), old(self).index()) is Ident && e@
                    == ExprV::Ident(tok_of(old(self).text(), old(self).index())->Ident_0),
                None => !(tok_of(old(self).text(), old(self).index()) is Ident),
            },
    {
        match self.parse_ident() {
            Some(id) => Some(Expr::Ident(id)),
            None => None,
        }
    }

    /// The integer literal under the cursor as an expression.
    fn parse_int_expr(&mut self) -> (r: Option<Expr>)
        requires
            old(self).wf(),
        ensures
            *final(self) == *old(self),
            match r {
                Some(e) => tok_of(old(self).text(), old(self).index()) is Int && e@
                    == ExprV::Literal(
                    LiteralV::Int(tok_of(old(self).text(), old(self).index())->Int_0),
                ),
                None => !(tok_of(old(self).text(), old(self).index()) is Int),
            },
    {
        match self.curr_token {
            Token::Int(value) => Some(Expr::Literal(Literal::Int(value))),
            _ => None,
        }
    }

    /// If the next token is the given one, steps onto it; otherwise records
    /// an error and stays put.
    fn expect_next_token(&mut self, token: Token) -> (r: bool)
        requires
            old(self).wf(),
        ensures
            final(self).wf(),
            final(self).text() == old(self).text(),
            r == (tok_of(old(self).text(), (old(self).index() + 1) as nat) == token@),
            r ==> final(self).index() == old(self).index() + 1 && final(self).errors_view() == old(
                self,
            ).errors_view() && stream_measure(old(self).text(), final(self).index())
                <= stream_measure(old(self).text(), old(self).index()) && (!(tok_of(
                old(self).text(),
                old(self).index(),
            ) is Eof) ==> stream_measure(old(self).text(), final(self).index()) < stream_measure(
                old(self).text(),
                old(self).index(),
            )),
            !r ==> final(self).index() == old(self).index() && final(self).errors_view() == old(
                self,
            ).errors_view().push(
                spec_expected_message(
                    token@,
                    tok_of(old(self).text(), (old(self).index() + 1) as nat),
                ),
            ),
    {
        if self.next_token_is(&token) {
            self.advance();
            true
        } else {
            self.peek_error(token);
            false
        }
    }

    /// Steps past every token up to the next semicolon, stopping at the end
    /// of the input: the recovery that discards the rest of a malformed or
    /// finished `let`/`return` statement.
    fn skip_to_semicolon(&mut self)
        requires
            old(self).wf(),
        ensures
            final(self).wf(),
            final(self).text() == old(self).text(),
            final(self).errors_view() == old(self).errors_view(),
            stream_measure(old(self).text(), final(self).index()) <= stream_measure(
                old(self).text(),
                old(self).index(),
            ),
            forall|fuel: nat|
                fuel > stream_measure(old(self).text(), old(self).index())
                    ==> #[trigger] spec_skip_to_semicolon(old(self).text(), old(self).index(), fuel)
                    == Some(final(self).index()),
    {
        let ghost t_seq = self.text();
        let ghost i0 = self.index();
        let ghost mut used: nat = 0;
        proof {
            lemma_measure_nonneg(t_seq, i0);
        }
        while !(matches!(self.curr_token, Token::Semicolon) || matches!(
            self.curr_token,
            Token::Eof,
        ))
            invariant
                self.wf(),
                self.text() == t_seq,
                self.errors_view() == old(self).errors_view(),
                stream_measure(t_seq, self.index()) + used <= stream_measure(t_seq, i0),
                stream_measure(t_seq, self.index()) >= 0,
                forall|fuel: nat|
                    fuel > stream_measure(t_seq, i0) ==> #[trigger] spec_skip_to_semicolon(
                        t_seq,
                        i0,
                        fuel,
                    ) == spec_skip_to_semicolon(t_seq, self.index(), (fuel - used) as nat),
            decreases stream_measure(t_seq, self.index()),
        {
            let ghost i_cur = self.index();
            self.advance();
            proof {
                used = used + 1;
                lemma_measure_nonneg(t_seq, self.index());
                assert forall|fuel: nat|
                    fuel > stream_measure(t_seq, i0) implies #[trigger] spec_skip_to_semicolon(
                    t_seq,
                    i0,
                    fuel,
                ) == spec_skip_to_semicolon(t_seq, self.index(), (fuel - used) as nat) by {
                    assert(spec_skip_to_semicolon(t_seq, i0, fuel) == spec_skip_to_semicolon(
                        t_seq,
                        i_cur,
                        (fuel - (used - 1)) as nat,
                    ));
                    assert((fuel - (used - 1)) as nat >= 1);
                    assert(spec_skip_to_semicolon(t_seq, i_cur, (fuel - (used - 1)) as nat)
                        == spec_skip_to_semicolon(t_seq, (i_cur + 1) as nat, (fuel - used) as nat));
                }
            }
        }
        proof {
            assert forall|fuel: nat|
                fuel > stream_measure(t_seq, i0) implies #[trigger] spec_skip_to_semicolon(
                t_seq,
                i0,
                fuel,
            ) == Some(self.index()) by {
                assert(spec_skip_to_semicolon(t_seq, i0, fuel) == spec_skip_to_semicolon(
                    t_seq,
                    self.index(),
                    (fuel - used) as nat,
                ));
                assert((fuel - used) as nat >= 1);
            }
        }
    }
}

impl<'a> Parser<'a> {
    /// Parses a prefix expression: the `!` or `-` under the cursor applied to
    /// the operand after it, parsed at `Prefix` precedence.
    fn parse_prefix_expr(&mut self) -> (r: Option<Expr>)
        requires
            old(self).wf(),
            tok_of(old(self).text(), old(self).index()) is Bang || tok_of(
                old(self).text(),
                old(self).index(),
            ) is Minus,
        ensures
            final(self).wf(),
            final(self).text() == old(self).text(),
            final(self).errors_view() == old(self).errors_view(),
            stream_measure(old(self).text(), final(self).index()) < stream_measure(
                old(self).text(),
                old(self).index(),
            ),
            r is Some ==> (tok_of(old(self).text(), final(self).index()) is Ident || tok_of(
                old(self).text(),
                final(self).index(),
            ) is Int),
            forall|fuel: nat|
                fuel > stream_measure(old(self).text(), old(self).index())
                    ==> #[trigger] spec_parse_prefix_expr(old(self).text(), old(self).index(), fuel)
                    == Some((r.deep_view(), final(self).index())),
        decreases stream_measure(old(self).text(), old(self).index()), 1int,
    {
        let ghost t_seq = self.text();
        let ghost i0 = self.index();
        proof {
            lemma_measure_nonneg(t_seq, i0);
        }
        let operator = match self.curr_token {
            Token::Bang => Prefix::Not,
            Token::Minus => Prefix::Minus,
            _ => {
                proof {
                    assert(false);
                }
                Prefix::Not
            },
        };
        self.advance();
        let ghost i1 = self.index();
        proof {
            lemma_measure_nonneg(t_seq, i1);
        }
        let operand = self.parse_expr(Precedence::Prefix);
        match operand {
            Some(value) => {
                let ghost value_v = value@;
                let wrapped = Expr::Prefix(operator, Box::new(value));
                proof {
                    assert forall|fuel: nat|
                        fuel > stream_measure(t_seq, i0) implies #[trigger] spec_parse_prefix_expr(
                        t_seq,
                        i0,
                        fuel,
                    ) == Some((Some(wrapped@), self.index())) by {
                        assert(fuel - 1 > stream_measure(t_seq, i1));
                        assert(spec_parse_expr(t_seq, i1, Precedence::Prefix, (fuel - 1) as nat)
                            == Some((Some(value_v), self.index())));
                        assert(wrapped@ == ExprV::Prefix(
                            spec_prefix_of(tok_of(t_seq, i0)),
                            Box::new(value_v),
                        ));
                    }
                }
                Some(wrapped)
            },
            None => {
                proof {
                    assert forall|fuel: nat|
                        fuel > stream_measure(t_seq, i0) implies #[trigger] spec_parse_prefix_expr(
                        t_seq,
                        i0,
                        fuel,
                    ) == Some((None::<ExprV>, self.index())) by {
                        assert(fuel - 1 > stream_measure(t_seq, i1));
                        assert(spec_parse_expr(t_seq, i1, Precedence::Prefix, (fuel - 1) as nat)
                            == Some((None::<ExprV>, self.index())));
                    }
                }
                None
            },
        }
    }

    /// Parses the right side of the binary operator under the cursor and
    /// joins it with `left`. The right side is parsed at the operator's own
    /// precedence, so operators of equal precedence group to the left.
    fn parse_infix_expr(&mut self, left: Expr) -> (r: Option<Expr>)
        requires
            old(self).wf(),
            spec_is_infix_op(tok_of(old(self).text(), old(self).index())),
        ensures
            final(self).wf(),
            final(self).text() == old(self).text(),
            final(self).errors_view() == old(self).errors_view(),
            stream_measure(old(self).text(), final(self).index()) < stream_measure(
                old(self).text(),
                old(self).index(),
            ),
            r is Some ==> (tok_of(old(self).text(), final(self).index()) is Ident || tok_of(
                old(self).text(),
                final(self).index(),
            ) is Int),
            forall|fuel: nat|
                fuel > stream_measure(old(self).text(), old(self).index())
                    ==> #[trigger] spec_parse_infix_expr(
                    old(self).text(),
                    old(self).index(),
                    left@,
                    fuel,
                ) == Some((r.deep_view(), final(self).index())),
        decreases stream_measure(old(self).text(), old(self).index()), 1int,
    {
        let ghost t_seq = self.text();
        let ghost i0 = self.index();
        let ghost left_v = left@;
        proof {
            lemma_measure_nonneg(t_seq, i0);
        }
        let infix = match self.curr_token {
            Token::Plus => Infix::Plus,
            Token::Minus => Infix::Minus,
            Token::Slash => Infix::Divide,
            Token::Asterisk => Infix::Multiply,
            Token::Eq => Infix::Equal,
            Token::NotEq => Infix::NotEqual,
            Token::Lt => Infix::LessThan,
            Token::Gt => Infix::GreaterThan,
            _ => {
                proof {
                    assert(false);
                }
                Infix::Plus
            },
        };
        let precedence = self.curr_precedence();
        self.advance();
        let ghost i1 = self.index();
        proof {
            lemma_measure_nonneg(t_seq, i1);
        }
        match self.parse_expr(precedence) {
            Some(right) => {
                let ghost right_v = right@;
                let joined = Expr::Infix(Box::new(left), infix, Box::new(right));
                proof {
                    assert forall|fuel: nat|
                        fuel > stream_measure(t_seq, i0) implies #[trigger] spec_parse_infix_expr(
                        t_seq,
                        i0,
                        left_v,
                        fuel,
                    ) == Some((Some(joined@), self.index())) by {
                        assert(fuel - 1 > stream_measure(t_seq, i1));
                        assert(spec_parse_expr(
                            t_seq,
                            i1,
                            spec_precedence_of(tok_of(t_seq, i0)),
                            (fuel - 1) as nat,
                        ) == Some((Some(right_v), self.index())));
                        assert(joined@ == ExprV::Infix(
                            Box::new(left_v),
                            spec_infix_of(tok_of(t_seq, i0)),
                            Box::new(right_v),
                        ));
                    }
                }
                Some(joined)
            },
            None => {
                proof {
                    assert forall|fuel: nat|
                        fuel > stream_measure(t_seq, i0) implies #[trigger] spec_parse_infix_expr(
                        t_seq,
                        i0,
                        left_v,
                        fuel,
                    ) == Some((None::<ExprV>, self.index())) by {
                        assert(fuel - 1 > stream_measure(t_seq, i1));
                        assert(spec_parse_expr(
                            t_seq,
                            i1,
                            spec_precedence_of(tok_of(t_seq, i0)),
                            (fuel - 1) as nat,
                        ) == Some((None::<ExprV>, self.index())));
                    }
                }
                None
            },
        }
    }

    /// Parses one expression, absorbing every following binary operator that
    /// binds tighter than `precedence`. Returns `None`, with the state left
    /// consistent for recovery, where no expression starts at the cursor.
    #[verifier::loop_isolation(false)]
    #[verifier::rlimit(60)]
    fn parse_expr(&mut self, precedence: Precedence) -> (r: Option<Expr>)
        requires
            old(self).wf(),
        ensures
            final(self).wf(),
            final(self).text() == old(self).text(),
            final(self).errors_view() == old(self).errors_view(),
            stream_measure(old(self).text(), final(self).index()) <= stream_measure(
                old(self).text(),
                old(self).index(),
            ),
            r is Some ==> (tok_of(old(self).text(), final(self).index()) is Ident || tok_of(
                old(self).text(),
                final(self).index(),
            ) is Int),
            tok_of(old(self).text(), final(self).index()) is Eof && !(tok_of(
                old(self).text(),
                old(self).index(),
            ) is Eof) ==> stream_measure(old(self).text(), final(self).index()) < stream_measure(
                old(self).text(),
                old(self).index(),
            ),
            forall|fuel: nat|
                fuel > stream_measure(old(self).text(), old(self).index())
                    ==> #[trigger] spec_parse_expr(
                    old(self).text(),
                    old(self).index(),
                    precedence,
                    fuel,
                ) == Some((r.deep_view(), final(self).index())),
        decreases stream_measure(old(self).text(), old(self).index()), 2int,
    {
        let ghost t_seq = self.text();
        let ghost i0 = self.index();
        proof {
            lemma_measure_nonneg(t_seq, i0);
        }
        let left0 = match self.curr_token {
            Token::Ident(_) => self.parse_ident_expr(),
            Token::Int(_) => self.parse_int_expr(),
            Token::Bang => self.parse_prefix_expr(),
            Token::Minus => self.parse_prefix_expr(),
            _ => None,
        };
        let ghost mut used: nat = 0;
        proof {
            if tok_of(t_seq, i0) is Bang || tok_of(t_seq, i0) is Minus {
                used = 1;
            }
        }
        let mut left = match left0 {
            Some(e) => e,
            None => {
                proof {
                    assert forall|fuel: nat|
                        fuel > stream_measure(t_seq, i0) implies #[trigger] spec_parse_expr(
                        t_seq,
                        i0,
                        precedence,
                        fuel,
                    ) == Some((None::<ExprV>, self.index())) by {
                        if tok_of(t_seq, i0) is Bang || tok_of(t_seq, i0) is Minus {
                            assert(spec_parse_prefix_expr(t_seq, i0, fuel) == Some(
                                (None::<ExprV>, self.index()),
                            ));
                        }
                    }
                }
                return None;
            },
        };
        proof {
            assert forall|fuel: nat|
                fuel > stream_measure(t_seq, i0) implies #[trigger] spec_parse_expr(
                t_seq,
                i0,
                precedence,
                fuel,
            ) == spec_infix_loop(t_seq, self.index(), left@, precedence, (fuel - used) as nat) by {
                if tok_of(t_seq, i0) is Bang || tok_of(t_seq, i0) is Minus {
                    assert(spec_parse_prefix_expr(t_seq, i0, fuel) == Some(
                        (Some(left@), self.index()),
                    ));
                }
            }
        }
        loop
            invariant
                self.wf(),
                self.text() == t_seq,
                self.errors_view() == old(self).errors_view(),
                tok_of(t_seq, self.index()) is Ident || tok_of(t_seq, self.index()) is Int,
                stream_measure(t_seq, self.index()) >= 0,
                stream_measure(t_seq, self.index()) + used <= stream_measure(t_seq, i0),
                forall|fuel: nat|
                    fuel > stream_measure(t_seq, i0) ==> #[trigger] spec_parse_expr(
                        t_seq,
                        i0,
                        precedence,
                        fuel,
                    ) == spec_infix_loop(
                        t_seq,
                        self.index(),
                        left@,
                        precedence,
                        (fuel - used) as nat,
                    ),
            decreases stream_measure(t_seq, self.index()),
        {
            let next_is_semicolon = self.next_token_is(&Token::Semicolon);
            let next_prec = self.next_precedence();
            if next_is_semicolon || !precedence.lt(&next_prec) {
                proof {
                    assert forall|fuel: nat|
                        fuel > stream_measure(t_seq, i0) implies #[trigger] spec_parse_expr(
                        t_seq,
                        i0,
                        precedence,
                        fuel,
                    ) == Some((Some(left@), self.index())) by {
                        assert((fuel - used) as nat >= 1);
                    }
                }
                return Some(left);
            }
            let next_is_operator = matches!(
                self.next_token,
                Token::Plus | Token::Minus | Token::Slash | Token::Asterisk | Token::Eq
                    | Token::NotEq | Token::Lt | Token::Gt
            );
            if !next_is_operator {
                proof {
                    assert forall|fuel: nat|
                        fuel > stream_measure(t_seq, i0) implies #[trigger] spec_parse_expr(
                        t_seq,
                        i0,
                        precedence,
                        fuel,
                    ) == Some((Some(left@), self.index())) by {
                        assert((fuel - used) as nat >= 1);
                    }
                }
                return Some(left);
            }
            let ghost i_cur = self.index();
            let ghost left_v = left@;
            self.advance();
            proof {
                lemma_measure_nonneg(t_seq, self.index());
            }
            let step = self.parse_infix_expr(left);
            let ghost j = self.index();
            proof {
                used = used + 1;
            }
            match step {
                Some(combined) => {
                    proof {
                        assert forall|fuel: nat|
                            fuel > stream_measure(t_seq, i0) implies #[trigger] spec_parse_expr(
                            t_seq,
                            i0,
                            precedence,
                            fuel,
                        ) == spec_infix_loop(
                            t_seq,
                            j,
                            combined@,
                            precedence,
                            (fuel - used) as nat,
                        ) by {
                            let g = (fuel - (used - 1)) as nat;
                            assert(spec_parse_expr(t_seq, i0, precedence, fuel)
                                == spec_infix_loop(t_seq, i_cur, left_v, precedence, g));
                            assert(g > stream_measure(t_seq, i_cur));
                            assert(g - 1 > stream_measure(t_seq, (i_cur + 1) as nat));
                            assert(spec_parse_infix_expr(
                                t_seq,
                                (i_cur + 1) as nat,
                                left_v,
                                (g - 1) as nat,
                            ) == Some((Some(combined@), j)));
                        }
                    }
                    left = combined;
                },
                None => {
                    proof {
                        assert forall|fuel: nat|
                            fuel > stream_measure(t_seq, i0) implies #[trigger] spec_parse_expr(
                            t_seq,
                            i0,
                            precedence,
                            fuel,
                        ) == Some((None::<ExprV>, j)) by {
                            let g = (fuel - (used - 1)) as nat;
                            assert(spec_parse_expr(t_seq, i0, precedence, fuel)
                                == spec_infix_loop(t_seq, i_cur, left_v, precedence, g));
                            assert(g > stream_measure(t_seq, i_cur));
                            assert(g - 1 > stream_measure(t_seq, (i_cur + 1) as nat));
                            assert(spec_parse_infix_expr(
                                t_seq,
                                (i_cur + 1) as nat,
                                left_v,
                                (g - 1) as nat,
                            ) == Some((None::<ExprV>, j)));
                        }
                    }
                    return None;
                },
            }
        }
    }
}

/// One step of the program loop: parsing one statement and stepping past it
/// extends the already-collected statements and errors by exactly what the
/// specification-level parser yields for that statement.
proof fn lemma_program_chain_step(
    t_seq: Seq<char>,
    i0: nat,
    i_cur: nat,
    jj: nat,
    i_next: nat,
    used: nat,
    prog_pre: Seq<StatementV>,
    prog_now: Seq<StatementV>,
    d_pre: Seq<Seq<char>>,
    d_now: Seq<Seq<char>>,
    stmt_dv: Option<StatementV>,
    delta_stmt: Seq<Seq<char>>,
)
    requires
        used >= 1,
        stream_measure(t_seq, i_cur) + (used - 1) <= stream_measure(t_seq, i0),
        !(tok_of(t_seq, i_cur) is Eof),
        i_next == jj + 1,
        forall|f: nat|
            f > stream_measure(t_seq, i_cur) ==> #[trigger] spec_parse_statement(t_seq, i_cur, f)
                == Some((stmt_dv, jj, delta_stmt)),
        forall|f: nat|
            f > stream_measure(t_seq, i0) ==> #[trigger] spec_parse_program(t_seq, i0, f)
                == spec_prepend_program(
                prog_pre,
                d_pre,
                spec_parse_program(t_seq, i_cur, (f - (used - 1)) as nat),
            ),
        prog_now == match stmt_dv {
            Some(st) => prog_pre.push(st),
            None => prog_pre,
        },
        d_now == d_pre + delta_stmt,
    ensures
        forall|f: nat|
            f > stream_measure(t_seq, i0) ==> #[trigger] spec_parse_program(t_seq, i0, f)
                == spec_prepend_program(
                prog_now,
                d_now,
                spec_parse_program(t_seq, i_next, (f - used) as nat),
            ),
{
    assert forall|f: nat|
        f > stream_measure(t_seq, i0) implies #[trigger] spec_parse_program(t_seq, i0, f)
        == spec_prepend_program(
        prog_now,
        d_now,
        spec_parse_program(t_seq, i_next, (f - used) as nat),
    ) by {
        lemma_measure_nonneg(t_seq, i_cur);
        let g = (f - (used - 1)) as nat;
        assert(spec_parse_program(t_seq, i0, f) == spec_prepend_program(
            prog_pre,
            d_pre,
            spec_parse_program(t_seq, i_cur, g),
        ));
        assert(g > stream_measure(t_seq, i_cur));
        assert(spec_parse_statement(t_seq, i_cur, g) == Some((stmt_dv, jj, delta_stmt)));
        assert(spec_parse_program(t_seq, i_cur, g) == spec_prepend_program(
            match stmt_dv {
                Some(st) => seq![st],
                None => seq![],
            },
            delta_stmt,
            spec_parse_program(t_seq, i_next, (f - used) as nat),
        ));
        let rest = spec_parse_program(t_seq, i_next, (f - used) as nat);
        match rest {
            None => {},
            Some((more, k, more_errs)) => {
                match stmt_dv {
                    Some(st) => {
                        assert(prog_pre + (seq![st] + more) =~= prog_now + more);
                    },
                    None => {
                        assert(prog_pre + (seq![] + more) =~= prog_now + more);
                    },
                }
                assert(d_pre + (delta_stmt + more_errs) =~= d_now + more_errs);
            },
        }
    }
}

impl<'a> Parser<'a> {
    /// Parses a `let` statement. A missing identifier or `=` records one
    /// error and yields no statement; after the value, everything up to the
    /// next semicolon is discarded.
    fn parse_let_statement(&mut self) -> (r: Option<Statement>)
        requires
            old(self).wf(),
            tok_of(old(self).text(), old(self).index()) is Let,
        ensures
            final(self).wf(),
            final(self).text() == old(self).text(),
            stream_measure(old(self).text(), final(self).index()) <= stream_measure(
                old(self).text(),
                old(self).index(),
            ),
            tok_of(old(self).text(), final(self).index()) is Eof ==> stream_measure(
                old(self).text(),
                final(self).index(),
            ) < stream_measure(old(self).text(), old(self).index()),
            final(self).errors_view() == old(self).errors_view() + final(self).errors_view().skip(
                old(self).errors_view().len() as int,
            ),
            forall|fuel: nat|
                fuel > stream_measure(old(self).text(), old(self).index())
                    ==> #[trigger] spec_parse_let(old(self).text(), old(self).index(), fuel)
                    == Some(
                    (
                        r.deep_view(),
                        final(self).index(),
                        final(self).errors_view().skip(old(self).errors_view().len() as int),
                    ),
                ),
        decreases stream_measure(old(self).text(), old(self).index()), 3int,
    {
        let ghost t_seq = self.text();
        let ghost i0 = self.index();
        let ghost e0 = self.errors_view();
        proof {
            lemma_measure_nonneg(t_seq, i0);
        }
        match self.next_token {
            Token::Ident(_) => self.advance(),
            _ => {
                let msg = expected_ident_message(&self.next_token);
                let ghost before = self.errors.deep_view();
                self.errors.push(msg);
                proof {
                    assert(self.errors.deep_view() =~= before.push(
                        spec_expected_ident_message(tok_of(t_seq, (i0 + 1) as nat)),
                    ));
                    assert(self.errors_view().skip(e0.len() as int) =~= seq![
                        spec_expected_ident_message(tok_of(t_seq, (i0 + 1) as nat)),
                    ]);
                    assert(self.errors_view() =~= e0 + self.errors_view().skip(e0.len() as int));
                }
                return None;
            },
        };
        let name = match self.parse_ident() {
            Some(n) => n,
            None => {
                proof {
                    assert(false);
                }
                return None;
            },
        };
        if !self.expect_next_token(Token::Assign) {
            proof {
                assert(self.errors_view().skip(e0.len() as int) =~= seq![
                    spec_expected_message(TokenV::Assign, tok_of(t_seq, (i0 + 2) as nat)),
                ]);
                assert(self.errors_view() =~= e0 + self.errors_view().skip(e0.len() as int));
            }
            return None;
        }
        self.advance();
        let ghost i3 = self.index();
        proof {
            lemma_measure_nonneg(t_seq, i3);
        }
        let expression = match self.parse_expr(Precedence::Lowest) {
            Some(v) => v,
            None => {
                proof {
                    assert(self.errors_view().skip(e0.len() as int) =~= Seq::<Seq<char>>::empty());
                    assert(self.errors_view() =~= e0 + self.errors_view().skip(e0.len() as int));
                }
                return None;
            },
        };
        let ghost value_v = expression@;
        let ghost j = self.index();
        self.skip_to_semicolon();
        let ghost k = self.index();
        let stmt = Statement::Let(name, expression);
        proof {
            assert(self.errors_view().skip(e0.len() as int) =~= Seq::<Seq<char>>::empty());
            assert(self.errors_view() =~= e0 + self.errors_view().skip(e0.len() as int));
            assert forall|fuel: nat|
                fuel > stream_measure(t_seq, i0) implies #[trigger] spec_parse_let(
                t_seq,
                i0,
                fuel,
            ) == Some(
                (Some(stmt@), k, self.errors_view().skip(e0.len() as int)),
            ) by {
                assert(spec_parse_expr(t_seq, i3, Precedence::Lowest, fuel) == Some(
                    (Some(value_v), j),
                ));
                assert(fuel - 1 > stream_measure(t_seq, j));
                assert(spec_skip_to_semicolon(t_seq, j, (fuel - 1) as nat) == Some(k));
            }
        }
        Some(stmt)
    }

    /// Parses a `return` statement; a missing value yields `Return(None)`.
    /// After the value, everything up to the next semicolon is discarded.
    fn parse_return_statement(&mut self) -> (r: Option<Statement>)
        requires
            old(self).wf(),
            tok_of(old(self).text(), old(self).index()) is Return,
        ensures
            final(self).wf(),
            final(self).text() == old(self).text(),
            stream_measure(old(self).text(), final(self).index()) <= stream_measure(
                old(self).text(),
                old(self).index(),
            ),
            tok_of(old(self).text(), final(self).index()) is Eof ==> stream_measure(
                old(self).text(),
                final(self).index(),
            ) < stream_measure(old(self).text(), old(self).index()),
            final(self).errors_view() == old(self).errors_view() + final(self).errors_view().skip(
                old(self).errors_view().len() as int,
            ),
            forall|fuel: nat|
                fuel > stream_measure(old(self).text(), old(self).index())
                    ==> #[trigger] spec_parse_return(old(self).text(), old(self).index(), fuel)
                    == Some(
                    (
                        r.deep_view(),
                        final(self).index(),
                        final(self).errors_view().skip(old(self).errors_view().len() as int),
                    ),
                ),
        decreases stream_measure(old(self).text(), old(self).index()), 3int,
    {
        let ghost t_seq = self.text();
        let ghost i0 = self.index();
        let ghost e0 = self.errors_view();
        proof {
            lemma_measure_nonneg(t_seq, i0);
        }
        self.advance();
        let ghost i1 = self.index();
        proof {
            lemma_measure_nonneg(t_seq, i1);
        }
        let expression = self.parse_expr(Precedence::Lowest);
        let ghost value_dv = expression.deep_view();
        let ghost j = self.index();
        self.skip_to_semicolon();
        let ghost k = self.index();
        let stmt = Statement::Return(expression);
        proof {
            assert(self.errors_view().skip(e0.len() as int) =~= Seq::<Seq<char>>::empty());
            assert(self.errors_view() =~= e0 + self.errors_view().skip(e0.len() as int));
            assert(stmt@ == StatementV::Return(value_dv));
            assert forall|fuel: nat|
                fuel > stream_measure(t_seq, i0) implies #[trigger] spec_parse_return(
                t_seq,
                i0,
                fuel,
            ) == Some(
                (Some(stmt@), k, self.errors_view().skip(e0.len() as int)),
            ) by {
                assert(spec_parse_expr(t_seq, i1, Precedence::Lowest, fuel) == Some(
                    (value_dv, j),
                ));
                assert(fuel - 1 > stream_measure(t_seq, j));
                assert(spec_skip_to_semicolon(t_seq, j, (fuel - 1) as nat) == Some(k));
            }
        }
        Some(stmt)
    }

    /// Parses a bare expression as a statement; a trailing semicolon is
    /// consumed if present, but is not required.
    fn parse_expr_statement(&mut self) -> (r: Option<Statement>)
        requires
            old(self).wf(),
            !(tok_of(old(self).text(), old(self).index()) is Eof),
        ensures
            final(self).wf(),
            final(self).text() == old(self).text(),
            stream_measure(old(self).text(), final(self).index()) <= stream_measure(
                old(self).text(),
                old(self).index(),
            ),
            tok_of(old(self).text(), final(self).index()) is Eof ==> stream_measure(
                old(self).text(),
                final(self).index(),
            ) < stream_measure(old(self).text(), old(self).index()),
            final(self).errors_view() == old(self).errors_view() + final(self).errors_view().skip(
                old(self).errors_view().len() as int,
            ),
            forall|fuel: nat|
                fuel > stream_measure(old(self).text(), old(self).index())
                    ==> #[trigger] spec_parse_expr_statement(
                    old(self).text(),
                    old(self).index(),
                    fuel,
                ) == Some(
                    (
                        r.deep_view(),
                        final(self).index(),
                        final(self).errors_view().skip(old(self).errors_view().len() as int),
                    ),
                ),
        decreases stream_measure(old(self).text(), old(self).index()), 3int,
    {
        let ghost t_seq = self.text();
        let ghost i0 = self.index();
        let ghost e0 = self.errors_view();
        proof {
            lemma_measure_nonneg(t_seq, i0);
        }
        match self.parse_expr(Precedence::Lowest) {
            Some(e) => {
                let ghost expr_v = e@;
                let ghost j = self.index();
                if self.next_token_is(&Token::Semicolon) {
                    self.advance();
                }
                let stmt = Statement::Expr(e);
                proof {
                    assert(self.errors_view().skip(e0.len() as int)
                        =~= Seq::<Seq<char>>::empty());
                    assert(self.errors_view() =~= e0 + self.errors_view().skip(e0.len() as int));
                }
                Some(stmt)
            },
            None => {
                proof {
                    assert(self.errors_view().skip(e0.len() as int)
                        =~= Seq::<Seq<char>>::empty());
                    assert(self.errors_view() =~= e0 + self.errors_view().skip(e0.len() as int));
                }
                None
            },
        }
    }

    /// Statement dispatch: `let` and `return` statements by their keyword,
    /// anything else as an expression statement.
    fn parse_statement(&mut self) -> (r: Option<Statement>)
        requires
            old(self).wf(),
            !(tok_of(old(self).text(), old(self).index()) is Eof),
        ensures
            final(self).wf(),
            final(self).text() == old(self).text(),
            stream_measure(old(self).text(), final(self).index()) <= stream_measure(
                old(self).text(),
                old(self).index(),
            ),
            tok_of(old(self).text(), final(self).index()) is Eof ==> stream_measure(
                old(self).text(),
                final(self).index(),
            ) < stream_measure(old(self).text(), old(self).index()),
            final(self).errors_view() == old(self).errors_view() + final(self).errors_view().skip(
                old(self).errors_view().len() as int,
            ),
            forall|fuel: nat|
                fuel > stream_measure(old(self).text(), old(self).index())
                    ==> #[trigger] spec_parse_statement(old(self).text(), old(self).index(), fuel)
                    == Some(
                    (
                        r.deep_view(),
                        final(self).index(),
                        final(self).errors_view().skip(old(self).errors_view().len() as int),
                    ),
                ),
        decreases stream_measure(old(self).text(), old(self).index()), 4int,
    {
        match self.curr_token {
            Token::Let => self.parse_let_statement(),
            Token::Return => self.parse_return_statement(),
            _ => self.parse_expr_statement(),
        }
    }

    /// Parses the whole program: statements are parsed and collected until
    /// the current token is `EndOfInput`, skipping statements that failed
    /// (their errors, if any, were recorded).
    #[verifier::loop_isolation(false)]
    #[verifier::rlimit(100)]
    pub fn parse_program(&mut self) -> (r: Program)
        requires
            old(self).wf(),
        ensures
            final(self).wf(),
            final(self).text() == old(self).text(),
            final(self).errors_view() == old(self).errors_view() + final(self).errors_view().skip(
                old(self).errors_view().len() as int,
            ),
            forall|fuel: nat|
                fuel > stream_measure(old(self).text(), old(self).index())
                    ==> #[trigger] spec_parse_program(old(self).text(), old(self).index(), fuel)
                    == Some(
                    (
                        r.deep_view(),
                        final(self).index(),
                        final(self).errors_view().skip(old(self).errors_view().len() as int),
                    ),
                ),
    {
        let ghost t_seq = self.text();
        let ghost i0 = self.index();
        let ghost e0 = self.errors_view();
        let ghost n0 = e0.len() as int;
        proof {
            lemma_measure_nonneg(t_seq, i0);
        }
        let mut program: Program = Vec::new();
        let ghost mut used: nat = 0;
        proof {
            assert(program.deep_view() =~= Seq::<StatementV>::empty());
            assert(self.errors_view().skip(n0) =~= Seq::<Seq<char>>::empty());
            assert forall|fuel: nat|
                fuel > stream_measure(t_seq, i0) implies #[trigger] spec_parse_program(
                t_seq,
                i0,
                fuel,
            ) == spec_prepend_program(
                program.deep_view(),
                self.errors_view().skip(n0),
                spec_parse_program(t_seq, self.index(), (fuel - used) as nat),
            ) by {
                let rest = spec_parse_program(t_seq, i0, fuel);
                match rest {
                    None => {},
                    Some((more, k, more_errs)) => {
                        assert(Seq::<StatementV>::empty() + more =~= more);
                        assert(Seq::<Seq<char>>::empty() + more_errs =~= more_errs);
                    },
                }
            }
        }
        while !matches!(self.curr_token, Token::Eof)
            invariant
                self.wf(),
                self.text() == t_seq,
                self.errors_view() == e0 + self.errors_view().skip(n0),
                stream_measure(t_seq, self.index()) >= 0,
                stream_measure(t_seq, self.index()) + used <= stream_measure(t_seq, i0),
                forall|fuel: nat|
                    fuel > stream_measure(t_seq, i0) ==> #[trigger] spec_parse_program(
                        t_seq,
                        i0,
                        fuel,
                    ) == spec_prepend_program(
                        program.deep_view(),
                        self.errors_view().skip(n0),
                        spec_parse_program(t_seq, self.index(), (fuel - used) as nat),
                    ),
            decreases stream_measure(t_seq, self.index()),
        {
            let ghost i_cur = self.index();
            let ghost d_pre = self.errors_view().skip(n0);
            let ghost prog_pre = program.deep_view();
            let ghost e_cur = self.errors_view();
            let statement = self.parse_statement();
            let ghost stmt_dv = statement.deep_view();
            let ghost jj = self.index();
            let ghost delta_stmt = self.errors_view().skip(e_cur.len() as int);
            proof {
                assert(self.errors_view().skip(n0) =~= d_pre + delta_stmt);
            }
            match statement {
                Some(val) => {
                    let ghost before = program.deep_view();
                    program.push(val);
                    proof {
                        assert(program.deep_view() =~= before.push(val@));
                    }
                },
                None => {},
            }
            self.advance();
            proof {
                used = used + 1;
                lemma_measure_nonneg(t_seq, self.index());
                assert(program.deep_view() == match stmt_dv {
                    Some(st) => prog_pre.push(st),
                    None => prog_pre,
                });
                lemma_program_chain_step(
                    t_seq,
                    i0,
                    i_cur,
                    jj,
                    self.index(),
                    used,
                    prog_pre,
                    program.deep_view(),
                    d_pre,
                    self.errors_view().skip(n0),
                    stmt_dv,
                    delta_stmt,
                );
            }
        }
        proof {
            assert forall|fuel: nat|
                fuel > stream_measure(t_seq, i0) implies #[trigger] spec_parse_program(
                t_seq,
                i0,
                fuel,
            ) == Some(
                (program.deep_view(), self.index(), self.errors_view().skip(n0)),
            ) by {
                let g = (fuel - used) as nat;
                assert(g >= 1);
                assert(spec_parse_program(t_seq, self.index(), g) == Some(
                    (Seq::<StatementV>::empty(), self.index(), Seq::<Seq<char>>::empty()),
                ));
                assert(program.deep_view() + Seq::<StatementV>::empty() =~= program.deep_view());
                assert(self.errors_view().skip(n0) + Seq::<Seq<char>>::empty()
                    =~= self.errors_view().skip(n0));
            }
        }
        program
    }
}

/// Parses a whole text: tokenizes it and returns the program together with
/// every recorded parse error, exactly as the specification-level parser
/// says.
pub fn parse(input: &str) -> (r: (Program, ParseErrors))
    ensures
        r.0.deep_view() == spec_parse(input@).0,
        r.1.deep_view() == spec_parse(input@).1,
{
    let lexer = Lexer::new(input);
    let mut parser = Parser::new(lexer);
    let program = parser.parse_program();
    let errors = parser.get_errors();
    proof {
        lemma_measure_nonneg(input@, 0);
        let canonical = (stream_measure(input@, 0) + 1) as nat;
        assert(canonical > stream_measure(input@, 0));
        assert(spec_parse_program(input@, 0, canonical) == Some(
            (program.deep_view(), parser.index(), errors.deep_view()),
        ));
        assert(errors.deep_view() =~= Seq::<Seq<char>>::empty() + errors.deep_view());
    }
    (program, errors)
}

// ---------------------------------------------------------------------------
// PartialEq for Token (used by the lookahead tests and by callers).
// ---------------------------------------------------------------------------
impl PartialEq for Token {
    fn eq(&self, other: &Token) -> (r: bool) {
        match (self, other) {
            (Token::Illegal, Token::Illegal) => true,
            (Token::Eof, Token::Eof) => true,
            (Token::Ident(a), Token::Ident(b)) => *a == *b,
            (Token::Int(a), Token::Int(b)) => *a == *b,
            (Token::Boolean(a), Token::Boolean(b)) => *a == *b,
            (Token::Assign, Token::Assign) => true,
            (Token::Plus, Token::Plus) => true,
            (Token::Minus, Token::Minus) => true,
            (Token::Bang, Token::Bang) => true,
            (Token::Asterisk, Token::Asterisk) => true,
            (Token::Slash, Token::Slash) => true,
            (Token::Lt, Token::Lt) => true,
            (Token::Gt, Token::Gt) => true,
            (Token::Eq, Token::Eq) => true,
            (Token::NotEq, Token::NotEq) => true,
            (Token::Comma, Token::Comma) => true,
            (Token::Semicolon, Token::Semicolon) => true,
            (Token::Lparen, Token::Lparen) => true,
            (Token::Rparen, Token::Rparen) => true,
            (Token::Lbrace, Token::Lbrace) => true,
            (Token::Rbrace, Token::Rbrace) => true,
            (Token::Function, Token::Function) => true,
            (Token::Let, Token::Let) => true,
            (Token::If, Token::If) => true,
            (Token::Else, Token::Else) => true,
            (Token::Return, Token::Return) => true,
            _ => false,
        }
    }
}

impl vstd::std_specs::cmp::PartialEqSpecImpl for Token {
    open spec fn obeys_eq_spec() -> bool {
        true
    }

    open spec fn eq_spec(&self, other: &Token) -> bool {
        self@ == other@
    }
}

} // verus!
