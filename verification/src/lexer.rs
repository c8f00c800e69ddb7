//! The tokenizer: converts source text, one character at a time, into lexical
//! tokens. Its behaviour is pinned down by the specification-level step
//! function [`lex_next`], and [`tokenize`] returns exactly [`spec_tokens`] of
//! the input text.

use crate::token::{get_keyword, spec_keyword, Token, TokenV};
use vstd::arithmetic::div_mod::{lemma_fundamental_div_mod, lemma_mod_bound};
use vstd::prelude::*;
use vstd::string::StrSliceExecFns;

verus! {

/// The character at position `i`, with the NUL character standing in for
/// every position outside the text.
pub open spec fn char_at(s: Seq<char>, i: int) -> char {
    if 0 <= i < s.len() {
        s[i]
    } else {
        '\0'
    }
}

/// The whitespace characters that separate tokens: space, tab, newline and
/// carriage return, and nothing else.
pub open spec fn is_whitespace_char(c: char) -> bool {
    c == ' ' || c == '\t' || c == '\n' || c == '\r'
}

/// The characters that may form an identifier: ASCII letters and the
/// underscore.
pub open spec fn is_letter_char(c: char) -> bool {
    ('a' as u32) <= (c as u32) <= ('z' as u32) || ('A' as u32) <= (c as u32) <= ('Z' as u32) || c
        == '_'
}

/// The ASCII decimal digits.
pub open spec fn is_digit_char(c: char) -> bool {
    ('0' as u32) <= (c as u32) <= ('9' as u32)
}

/// The numeric value of a decimal digit character.
pub open spec fn digit_value(c: char) -> int {
    c as u32 - '0' as u32
}

/// The value of a run of decimal digit characters, most significant first.
pub open spec fn digits_value(s: Seq<char>) -> int
    decreases s.len(),
{
    if s.len() == 0 {
        0
    } else {
        digits_value(s.drop_last()) * 10 + digit_value(s.last())
    }
}

/// The first position at or after `p` that does not hold whitespace.
pub open spec fn whitespace_end(s: Seq<char>, p: int) -> int
    decreases s.len() - p,
{
    if 0 <= p < s.len() && is_whitespace_char(s[p]) {
        whitespace_end(s, p + 1)
    } else {
        p
    }
}

/// The end of the maximal run of identifier characters starting at `p`.
pub open spec fn identifier_end(s: Seq<char>, p: int) -> int
    decreases s.len() - p,
{
    if 0 <= p < s.len() && is_letter_char(s[p]) {
        identifier_end(s, p + 1)
    } else {
        p
    }
}

/// The end of the maximal run of digit characters starting at `p`.
pub open spec fn number_end(s: Seq<char>, p: int) -> int
    decreases s.len() - p,
{
    if 0 <= p < s.len() && is_digit_char(s[p]) {
        number_end(s, p + 1)
    } else {
        p
    }
}

/// One step of the tokenizer: the token found at position `p` of the text
/// (after skipping whitespace) and the position just after it.
///
/// A digit run whose value overflows the 64-bit signed range is a lexical
/// error and yields `Illegal` rather than wrapping or failing. A NUL
/// character inside the text reads as end of input, as it does for a
/// byte-indexed scanner.
pub open spec fn lex_next(s: Seq<char>, start: int) -> (TokenV, int) {
    let p = whitespace_end(s, start);
    let c = char_at(s, p);
    if is_letter_char(c) {
        let e = identifier_end(s, p);
        (spec_keyword(s.subrange(p, e)), e)
    } else if is_digit_char(c) {
        let e = number_end(s, p);
        let v = digits_value(s.subrange(p, e));
        if v <= i64::MAX as int {
            (TokenV::Int(v), e)
        } else {
            (TokenV::Illegal, e)
        }
    } else if c == '=' {
        if char_at(s, p + 1) == '=' {
            (TokenV::Eq, p + 2)
        } else {
            (TokenV::Assign, p + 1)
        }
    } else if c == '!' {
        if char_at(s, p + 1) == '=' {
            (TokenV::NotEq, p + 2)
        } else {
            (TokenV::Bang, p + 1)
        }
    } else if c == '+' {
        (TokenV::Plus, p + 1)
    } else if c == '-' {
        (TokenV::Minus, p + 1)
    } else if c == '/' {
        (TokenV::Slash, p + 1)
    } else if c == '*' {
        (TokenV::Asterisk, p + 1)
    } else if c == '<' {
        (TokenV::Lt, p + 1)
    } else if c == '>' {
        (TokenV::Gt, p + 1)
    } else if c == ';' {
        (TokenV::Semicolon, p + 1)
    } else if c == ',' {
        (TokenV::Comma, p + 1)
    } else if c == '(' {
        (TokenV::Lparen, p + 1)
    } else if c == ')' {
        (TokenV::Rparen, p + 1)
    } else if c == '{' {
        (TokenV::Lbrace, p + 1)
    } else if c == '}' {
        (TokenV::Rbrace, p + 1)
    } else if c == '\0' {
        if p >= s.len() {
            (TokenV::Eof, p)
        } else {
            (TokenV::Eof, p + 1)
        }
    } else {
        (TokenV::Illegal, p + 1)
    }
}

pub proof fn lemma_whitespace_end(s: Seq<char>, p: int)
    requires
        0 <= p,
    ensures
        p <= whitespace_end(s, p),
        p <= s.len() ==> whitespace_end(s, p) <= s.len(),
        !is_whitespace_char(char_at(s, whitespace_end(s, p))),
    decreases s.len() - p,
{
    if 0 <= p < s.len() && is_whitespace_char(s[p]) {
        lemma_whitespace_end(s, p + 1);
    }
}

pub proof fn lemma_identifier_end(s: Seq<char>, p: int)
    requires
        0 <= p,
    ensures
        p <= identifier_end(s, p),
        p <= s.len() ==> identifier_end(s, p) <= s.len(),
        is_letter_char(char_at(s, p)) ==> identifier_end(s, p) > p,
    decreases s.len() - p,
{
    if 0 <= p < s.len() && is_letter_char(s[p]) {
        lemma_identifier_end(s, p + 1);
    }
}

pub proof fn lemma_number_end(s: Seq<char>, p: int)
    requires
        0 <= p,
    ensures
        p <= number_end(s, p),
        p <= s.len() ==> number_end(s, p) <= s.len(),
        is_digit_char(char_at(s, p)) ==> number_end(s, p) > p,
    decreases s.len() - p,
{
    if 0 <= p < s.len() && is_digit_char(s[p]) {
        lemma_number_end(s, p + 1);
    }
}

/// Bounds of one tokenizer step: the position never moves backwards, never
/// leaves the text, moves strictly forward for every token but `Eof`, and
/// stalls only at the true end of the text, where the token is `Eof`.
pub proof fn lemma_lex_next_bounds(s: Seq<char>, p: int)
    requires
        0 <= p,
    ensures
        lex_next(s, p).1 >= p,
        p <= s.len() ==> lex_next(s, p).1 <= s.len(),
        !(lex_next(s, p).0 is Eof) ==> lex_next(s, p).1 > p,
        p >= s.len() ==> lex_next(s, p).0 is Eof && lex_next(s, p).1 == p,
        lex_next(s, p).0 is Eof && p < s.len() ==> lex_next(s, p).1 > p,
{
    lemma_whitespace_end(s, p);
    let q = whitespace_end(s, p);
    lemma_identifier_end(s, q);
    lemma_number_end(s, q);
}

/// The token sequence of the text from position `p` on, up to and including
/// the first `Eof`.
pub open spec fn tokens_from(s: Seq<char>, p: int) -> Seq<TokenV>
    decreases s.len() - p,
        when p >= 0
        via tokens_from_decreases
{
    let step = lex_next(s, p);
    if step.0 is Eof {
        seq![TokenV::Eof]
    } else {
        seq![step.0] + tokens_from(s, step.1)
    }
}

#[via_fn]
proof fn tokens_from_decreases(s: Seq<char>, p: int) {
    lemma_lex_next_bounds(s, p);
}

/// The full token sequence of a text: every token in order, ending with the
/// first `Eof`.
pub open spec fn spec_tokens(s: Seq<char>) -> Seq<TokenV> {
    tokens_from(s, 0)
}

/// The token sequence of any text ends with exactly one `EndOfInput` marker:
/// it is nonempty, its last token is `Eof`, and no earlier token is `Eof`.
pub proof fn lemma_tokens_from_end_with_eof(s: Seq<char>, p: int)
    requires
        0 <= p,
    ensures
        tokens_from(s, p).len() >= 1,
        tokens_from(s, p).last() is Eof,
        forall|i: int| 0 <= i < tokens_from(s, p).len() - 1 ==> !(tokens_from(s, p)[i] is Eof),
    decreases s.len() - p,
{
    lemma_lex_next_bounds(s, p);
    let step = lex_next(s, p);
    if !(step.0 is Eof) {
        lemma_tokens_from_end_with_eof(s, step.1);
    }
}

/// Law: every text tokenizes to a sequence that ends with exactly one
/// `EndOfInput`, with none earlier in the sequence.
pub proof fn lemma_tokens_end_with_eof(input: Seq<char>)
    ensures
        spec_tokens(input).len() >= 1,
        spec_tokens(input).last() is Eof,
        forall|i: int| 0 <= i < spec_tokens(input).len() - 1 ==> !(spec_tokens(input)[i] is Eof),
{
    lemma_tokens_from_end_with_eof(input, 0);
}

/// Law: the tokenizer is a pure function of the input text, so tokenizing the
/// same text twice yields identical token sequences.
pub proof fn lemma_tokenize_deterministic(
    input: Seq<char>,
    first: Seq<TokenV>,
    second: Seq<TokenV>,
)
    requires
        first == spec_tokens(input),
        second == spec_tokens(input),
    ensures
        first == second,
{
}

/// A cursor over the source text: the current position, a one-character
/// lookahead, and the character under the cursor (NUL at and past the end).
#[derive(Debug)]
pub struct Lexer<'a> {
    input: &'a str,
    pos: usize,
    next_pos: usize,
    ch: char,
}

impl<'a> Lexer<'a> {
    /// The text this lexer reads.
    pub closed spec fn text(&self) -> Seq<char> {
        self.input@
    }

    /// The current position, as a count of characters consumed.
    pub closed spec fn position(&self) -> int {
        self.pos as int
    }

    /// The cursor is inside the text (or just past it), the lookahead is one
    /// ahead of it, and the current character is the one under the cursor.
    pub closed spec fn wf(&self) -> bool {
        &&& self.pos <= self.text().len()
        &&& self.next_pos == if self.pos < self.text().len() {
            self.pos + 1
        } else {
            self.pos as int
        }
        &&& self.ch == char_at(self.text(), self.pos as int)
    }

    /// A lexer at the start of the given text.
    pub fn new(input: &'a str) -> (r: Lexer<'a>)
        ensures
            r.wf(),
            r.text() == input@,
            r.position() == 0,
    {
        let mut lexer = Lexer { input, pos: 0, next_pos: 0, ch: '\0' };
        lexer.read_char();
        lexer
    }

    /// Moves the cursor one character forward, stopping at the end of the
    /// text.
    fn read_char(&mut self)
        requires
            old(self).next_pos <= old(self).text().len(),
        ensures
            final(self).text() == old(self).text(),
            final(self).pos == old(self).next_pos,
            final(self).ch == char_at(old(self).text(), old(self).next_pos as int),
            final(self).next_pos == if old(self).next_pos < old(self).text().len() {
                old(self).next_pos + 1
            } else {
                old(self).next_pos as int
            },
    {
        self.pos = self.next_pos;
        if self.next_pos >= self.input.unicode_len() {
            self.ch = '\0';
        } else {
            self.ch = self.input.get_char(self.next_pos);
            self.next_pos = self.next_pos + 1;
        }
    }

    /// The character one past the cursor, NUL at the end of the text.
    fn peek_char(&mut self) -> (c: char)
        requires
            old(self).wf(),
        ensures
            *final(self) == *old(self),
            c == char_at(old(self).text(), old(self).position() + 1),
    {
        if self.next_pos >= self.input.unicode_len() {
            '\0'
        } else {
            self.input.get_char(self.next_pos)
        }
    }

    /// Moves the cursor past the run of whitespace under it.
    fn skip_whitespace(&mut self)
        requires
            old(self).wf(),
        ensures
            final(self).wf(),
            final(self).text() == old(self).text(),
            final(self).position() == whitespace_end(old(self).text(), old(self).position()),
    {
        while self.ch == ' ' || self.ch == '\t' || self.ch == '\n' || self.ch == '\r'
            invariant
                self.wf(),
                self.text() == old(self).text(),
                whitespace_end(self.text(), old(self).position()) == whitespace_end(
                    self.text(),
                    self.position(),
                ),
            decreases self.text().len() - self.position(),
        {
            self.read_char();
        }
    }

    /// Consumes the maximal identifier run under the cursor and resolves it
    /// through the keyword table.
    fn read_identifier(&mut self) -> (t: Token)
        requires
            old(self).wf(),
        ensures
            final(self).wf(),
            final(self).text() == old(self).text(),
            final(self).position() == identifier_end(old(self).text(), old(self).position()),
            t@ == spec_keyword(
                old(self).text().subrange(
                    old(self).position(),
                    identifier_end(old(self).text(), old(self).position()),
                ),
            ),
    {
        let start = self.pos;
        while is_letter(self.ch)
            invariant
                self.wf(),
                self.text() == old(self).text(),
                start <= self.pos,
                identifier_end(self.text(), start as int) == identifier_end(
                    self.text(),
                    self.position(),
                ),
            decreases self.text().len() - self.position(),
        {
            self.read_char();
        }
        let literal = self.input.substring_char(start, self.pos);
        get_keyword(literal)
    }

    /// Consumes the maximal digit run under the cursor and turns it into an
    /// integer token, or `Illegal` if its value overflows the 64-bit signed
    /// range.
    fn read_number(&mut self) -> (t: Token)
        requires
            old(self).wf(),
        ensures
            final(self).wf(),
            final(self).text() == old(self).text(),
            final(self).position() == number_end(old(self).text(), old(self).position()),
            t@ == ({
                let v = digits_value(
                    old(self).text().subrange(
                        old(self).position(),
                        number_end(old(self).text(), old(self).position()),
                    ),
                );
                if v <= i64::MAX as int {
                    TokenV::Int(v)
                } else {
                    TokenV::Illegal
                }
            }),
    {
        let ghost text = self.text();
        let ghost start_pos = self.position();
        let start = self.pos;
        let mut acc: i64 = 0;
        let mut fits: bool = true;
        while is_number(self.ch)
            invariant
                self.wf(),
                self.text() == text,
                start == start_pos,
                start <= self.pos,
                number_end(text, start as int) == number_end(text, self.position()),
                acc >= 0,
                fits ==> acc == digits_value(text.subrange(start as int, self.position())),
                !fits ==> digits_value(text.subrange(start as int, self.position())) > i64::MAX
                    as int,
            decreases self.text().len() - self.position(),
        {
            let ghost prefix = text.subrange(start as int, self.position());
            let digit_u32 = self.ch as u32;
            let d = (digit_u32 - 48) as i64;
            proof {
                assert(text.subrange(start as int, self.position() + 1).drop_last() =~= prefix);
                assert(text.subrange(start as int, self.position() + 1).last() == self.ch);
            }
            if fits && acc <= (i64::MAX - d) / 10 {
                proof {
                    lemma_fundamental_div_mod(i64::MAX - d, 10);
                    lemma_mod_bound(i64::MAX - d, 10);
                }
                acc = acc * 10 + d;
            } else if fits {
                proof {
                    lemma_fundamental_div_mod(i64::MAX - d, 10);
                    lemma_mod_bound(i64::MAX - d, 10);
                }
                fits = false;
            }
            self.read_char();
        }
        if fits {
            Token::Int(acc)
        } else {
            Token::Illegal
        }
    }

    /// Returns the next token of the text and moves the cursor past it: one
    /// step of the tokenizer, exactly as [`lex_next`] says. At the end of the
    /// text it keeps returning `Eof`.
    pub fn next_token(&mut self) -> (t: Token)
        requires
            old(self).wf(),
        ensures
            final(self).wf(),
            final(self).text() == old(self).text(),
            t@ == lex_next(old(self).text(), old(self).position()).0,
            final(self).position() == lex_next(old(self).text(), old(self).position()).1,
    {
        self.skip_whitespace();
        if is_letter(self.ch) {
            return self.read_identifier();
        }
        if is_number(self.ch) {
            return self.read_number();
        }
        let t: Token = if self.ch == '=' {
            if self.peek_char() == '=' {
                self.read_char();
                Token::Eq
            } else {
                Token::Assign
            }
        } else if self.ch == '!' {
            if self.peek_char() == '=' {
                self.read_char();
                Token::NotEq
            } else {
                Token::Bang
            }
        } else if self.ch == '+' {
            Token::Plus
        } else if self.ch == '-' {
            Token::Minus
        } else if self.ch == '/' {
            Token::Slash
        } else if self.ch == '*' {
            Token::Asterisk
        } else if self.ch == '<' {
            Token::Lt
        } else if self.ch == '>' {
            Token::Gt
        } else if self.ch == ';' {
            Token::Semicolon
        } else if self.ch == ',' {
            Token::Comma
        } else if self.ch == '(' {
            Token::Lparen
        } else if self.ch == ')' {
            Token::Rparen
        } else if self.ch == '{' {
            Token::Lbrace
        } else if self.ch == '}' {
            Token::Rbrace
        } else if self.ch == '\0' {
            Token::Eof
        } else {
            Token::Illegal
        };
        self.read_char();
        t
    }
}

/// Whether this character may continue an identifier.
fn is_letter(ch: char) -> (r: bool)
    ensures
        r == is_letter_char(ch),
{
    let u = ch as u32;
    (('a' as u32) <= u && u <= ('z' as u32)) || (('A' as u32) <= u && u <= ('Z' as u32)) || ch
        == '_'
}

/// Whether this character is a decimal digit.
fn is_number(ch: char) -> (r: bool)
    ensures
        r == is_digit_char(ch),
{
    let u = ch as u32;
    ('0' as u32) <= u && u <= ('9' as u32)
}

/// Tokenizes a whole text: returns every token in source order, ending with
/// the first `EndOfInput`. The result is exactly [`spec_tokens`] of the text,
/// so it is the same on every call with the same text.
pub fn tokenize(input: &str) -> (r: Vec<Token>)
    ensures
        r.deep_view() == spec_tokens(input@),
        r@.len() >= 1,
        r.deep_view().last() is Eof,
        forall|i: int| 0 <= i < r.deep_view().len() - 1 ==> !(r.deep_view()[i] is Eof),
{
    proof {
        lemma_tokens_end_with_eof(input@);
    }
    let mut lexer = Lexer::new(input);
    let mut out: Vec<Token> = Vec::new();
    loop
        invariant_except_break
            spec_tokens(input@) == out.deep_view() + tokens_from(input@, lexer.position()),
        invariant
            lexer.wf(),
            lexer.text() == input@,
        ensures
            out.deep_view() == spec_tokens(input@),
        decreases input@.len() - lexer.position(),
    {
        let ghost p0 = lexer.position();
        let ghost before = out.deep_view();
        let t = lexer.next_token();
        let is_eof = matches!(t, Token::Eof);
        out.push(t);
        proof {
            lemma_lex_next_bounds(input@, p0);
            assert(out.deep_view() =~= before.push(t@));
            assert(tokens_from(input@, p0) == if t@ is Eof {
                seq![TokenV::Eof]
            } else {
                seq![t@] + tokens_from(input@, lexer.position())
            });
            if t@ is Eof {
                assert(before + tokens_from(input@, p0) =~= before.push(t@));
            } else {
                assert(before + tokens_from(input@, p0) =~= before.push(t@) + tokens_from(
                    input@,
                    lexer.position(),
                ));
            }
        }
        if is_eof {
            break ;
        }
    }
    out
}

} // verus!
