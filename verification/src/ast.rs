//! The abstract syntax tree: expressions, statements and operator
//! precedences, together with their mathematical views and structural
//! equality.

use vstd::prelude::*;

verus! {

/// An identifier: the name of a variable.
#[derive(Debug, Clone)]
pub struct Ident(pub String);

impl View for Ident {
    type V = Seq<char>;

    open spec fn view(&self) -> Seq<char> {
        self.0@
    }
}

impl DeepView for Ident {
    type V = Seq<char>;

    open spec fn deep_view(&self) -> Seq<char> {
        self.0@
    }
}

/// A prefix (unary) operator.
#[derive(Debug, Clone, Copy, PartialEq, Eq, Structural)]
pub enum Prefix {
    Not,
    Minus,
}

/// An infix (binary) operator.
#[derive(Debug, Clone, Copy, PartialEq, Eq, Structural)]
pub enum Infix {
    Plus,
    Minus,
    Divide,
    Multiply,
    Equal,
    NotEqual,
    GreaterThanEqual,
    GreaterThan,
    LessThanEqual,
    LessThan,
}

/// A literal value.
#[derive(Debug, Clone)]
pub enum Literal {
    Int(i64),
    String(String),
}

/// The mathematical view of a literal.
pub enum LiteralV {
    Int(int),
    String(Seq<char>),
}

impl View for Literal {
    type V = LiteralV;

    open spec fn view(&self) -> LiteralV {
        match self {
            Literal::Int(value) => LiteralV::Int(*value as int),
            Literal::String(text) => LiteralV::String(text@),
        }
    }
}

impl DeepView for Literal {
    type V = LiteralV;

    open spec fn deep_view(&self) -> LiteralV {
        self.view()
    }
}

/// An expression: a strictly owning tree of identifiers, literals, prefix
/// applications and infix applications.
#[derive(Debug)]
pub enum Expr {
    Ident(Ident),
    Literal(Literal),
    Prefix(Prefix, Box<Expr>),
    Infix(Box<Expr>, Infix, Box<Expr>),
}

/// The mathematical view of an expression tree.
pub enum ExprV {
    Ident(Seq<char>),
    Literal(LiteralV),
    Prefix(Prefix, Box<ExprV>),
    Infix(Box<ExprV>, Infix, Box<ExprV>),
}

impl View for Expr {
    type V = ExprV;

    open spec fn view(&self) -> ExprV
        decreases self,
    {
        match self {
            Expr::Ident(name) => ExprV::Ident(name@),
            Expr::Literal(lit) => ExprV::Literal(lit@),
            Expr::Prefix(op, operand) => ExprV::Prefix(*op, Box::new((**operand)@)),
            Expr::Infix(left, op, right) => ExprV::Infix(
                Box::new((**left)@),
                *op,
                Box::new((**right)@),
            ),
        }
    }
}

impl DeepView for Expr {
    type V = ExprV;

    open spec fn deep_view(&self) -> ExprV {
        self.view()
    }
}

/// A statement: a no-op, a `let` binding, a `return`, or a bare expression.
#[derive(Debug)]
pub enum Statement {
    Blank,
    Let(Ident, Expr),
    Return(Option<Expr>),
    Expr(Expr),
}

/// The mathematical view of a statement.
pub enum StatementV {
    Blank,
    Let(Seq<char>, ExprV),
    Return(Option<ExprV>),
    Expr(ExprV),
}

impl View for Statement {
    type V = StatementV;

    open spec fn view(&self) -> StatementV {
        match self {
            Statement::Blank => StatementV::Blank,
            Statement::Let(name, value) => StatementV::Let(name@, value@),
            Statement::Return(value) => StatementV::Return(
                match value {
                    Some(e) => Some(e@),
                    None => None,
                },
            ),
            Statement::Expr(value) => StatementV::Expr(value@),
        }
    }
}

impl DeepView for Statement {
    type V = StatementV;

    open spec fn deep_view(&self) -> StatementV {
        self.view()
    }
}

/// A program: the statements of the source text in order.
pub type Program = Vec<Statement>;

/// Operator precedence, a totally ordered comparison key; higher binds
/// tighter.
#[derive(Debug, Clone, Copy, PartialEq, Eq, PartialOrd, Structural)]
pub enum Precedence {
    Lowest,
    Equals,
    LessGreater,
    Sum,
    Product,
    Prefix,
    Call,
}

/// The numeric rank of a precedence level, used to compare two levels.
pub open spec fn spec_prec_rank(p: Precedence) -> int {
    match p {
        Precedence::Lowest => 0,
        Precedence::Equals => 1,
        Precedence::LessGreater => 2,
        Precedence::Sum => 3,
        Precedence::Product => 4,
        Precedence::Prefix => 5,
        Precedence::Call => 6,
    }
}

impl Precedence {
    /// The numeric rank of this precedence level.
    pub fn rank(&self) -> (r: u8)
        ensures
            r as int == spec_prec_rank(*self),
    {
        match self {
            Precedence::Lowest => 0,
            Precedence::Equals => 1,
            Precedence::LessGreater => 2,
            Precedence::Sum => 3,
            Precedence::Product => 4,
            Precedence::Prefix => 5,
            Precedence::Call => 6,
        }
    }

    /// Whether this precedence level binds strictly less tightly than
    /// `other`.
    pub fn lt(&self, other: &Precedence) -> (r: bool)
        ensures
            r == (spec_prec_rank(*self) < spec_prec_rank(*other)),
    {
        self.rank() < other.rank()
    }
}

impl PartialEq for Ident {
    fn eq(&self, other: &Ident) -> (r: bool) {
        self.0 == other.0
    }
}

impl vstd::std_specs::cmp::PartialEqSpecImpl for Ident {
    open spec fn obeys_eq_spec() -> bool {
        true
    }

    open spec fn eq_spec(&self, other: &Ident) -> bool {
        self@ == other@
    }
}

impl PartialEq for Literal {
    fn eq(&self, other: &Literal) -> (r: bool) {
        match (self, other) {
            (Literal::Int(a), Literal::Int(b)) => *a == *b,
            (Literal::String(a), Literal::String(b)) => *a == *b,
            _ => false,
        }
    }
}

impl vstd::std_specs::cmp::PartialEqSpecImpl for Literal {
    open spec fn obeys_eq_spec() -> bool {
        true
    }

    open spec fn eq_spec(&self, other: &Literal) -> bool {
        self@ == other@
    }
}

impl PartialEq for Expr {
    fn eq(&self, other: &Expr) -> (r: bool)
        decreases *self,
    {
        match (self, other) {
            (Expr::Ident(a), Expr::Ident(b)) => *a == *b,
            (Expr::Literal(a), Expr::Literal(b)) => *a == *b,
            (Expr::Prefix(op_a, e_a), Expr::Prefix(op_b, e_b)) => *op_a == *op_b && (&**e_a).eq(
                &**e_b,
            ),
            (Expr::Infix(l_a, op_a, r_a), Expr::Infix(l_b, op_b, r_b)) => (&**l_a).eq(&**l_b)
                && *op_a == *op_b && (&**r_a).eq(&**r_b),
            _ => false,
        }
    }
}

impl vstd::std_specs::cmp::PartialEqSpecImpl for Expr {
    open spec fn obeys_eq_spec() -> bool {
        true
    }

    open spec fn eq_spec(&self, other: &Expr) -> bool {
        self@ == other@
    }
}

impl PartialEq for Statement {
    fn eq(&self, other: &Statement) -> (r: bool) {
        match (self, other) {
            (Statement::Blank, Statement::Blank) => true,
            (Statement::Let(n_a, v_a), Statement::Let(n_b, v_b)) => *n_a == *n_b && *v_a == *v_b,
            (Statement::Return(v_a), Statement::Return(v_b)) => match (v_a, v_b) {
                (Some(a), Some(b)) => *a == *b,
                (None, None) => true,
                _ => false,
            },
            (Statement::Expr(a), Statement::Expr(b)) => *a == *b,
            _ => false,
        }
    }
}

impl vstd::std_specs::cmp::PartialEqSpecImpl for Statement {
    open spec fn obeys_eq_spec() -> bool {
        true
    }

    open spec fn eq_spec(&self, other: &Statement) -> bool {
        self@ == other@
    }
}

} // verus!
