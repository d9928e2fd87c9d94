//! The abstract syntax tree: a program is a sequence of statements, and an
//! expression is a binary tree that owns its children.

use vstd::prelude::*;

verus! {

/// The four arithmetic operators of the language.
#[derive(Debug, Clone, Copy, PartialEq, Eq, Structural)]
pub enum BinaryOperator {
    Add,
    Sub,
    Mul,
    Div,
}

/// An arithmetic expression.
#[derive(Debug, PartialEq, Eq)]
pub enum Expression {
    NumberLiteral { value: i32 },
    VariableRef { index: usize },
    BinaryOp { operator: BinaryOperator, lhs: Box<Expression>, rhs: Box<Expression> },
}

/// A statement of a program.
#[derive(Debug, PartialEq, Eq)]
pub enum Statement {
    /// Declares the variable `name`, which lives in slot `index`, and gives it
    /// `initial_value` (the literal `0` when the source gave none).
    DeclareVariable { index: usize, name: String, initial_value: Expression },
    /// An expression whose value is the program's result.
    ExpressionStatement { expr: Expression },
}

/// What a [`Statement`] is, with the name as a sequence of characters.
pub enum StatementView {
    DeclareVariable { index: usize, name: Seq<char>, initial_value: Expression },
    ExpressionStatement { expr: Expression },
}

impl View for Statement {
    type V = StatementView;

    open spec fn view(&self) -> StatementView {
        match *self {
            Statement::DeclareVariable { index, name, initial_value } => StatementView::DeclareVariable {
                index,
                name: name@,
                initial_value,
            },
            Statement::ExpressionStatement { expr } => StatementView::ExpressionStatement { expr },
        }
    }
}

/// The statements of a program, each by its view.
pub open spec fn program_view(program: Seq<Statement>) -> Seq<StatementView> {
    Seq::new(program.len(), |i: int| program[i]@)
}

/// The initial value of a declaration that has no initialiser.
pub open spec fn default_initial_value() -> Expression {
    Expression::NumberLiteral { value: 0 }
}

impl Expression {
    /// Whether no variable occurs in the expression.
    pub open spec fn is_closed(self) -> bool
        decreases self,
    {
        match self {
            Expression::NumberLiteral { .. } => true,
            Expression::VariableRef { .. } => false,
            Expression::BinaryOp { lhs, rhs, .. } => lhs.is_closed() && rhs.is_closed(),
        }
    }
}

} // verus!
