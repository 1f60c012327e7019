//! Expressions: immutable trees describing computations over a table's
//! columns, built freely and evaluated only when a plan is executed.

use vstd::prelude::*;
use crate::value::Value;

verus! {

/// A binary operator between two expressions.
#[derive(Clone, Copy, PartialEq, Eq, Structural, Debug)]
pub enum Op {
    Plus,
    Minus,
    Multiply,
    Equals,
    Less,
    Greater,
    And,
    Or,
}

/// An aggregation applied to an expression under a groupby.
///
/// `First` is also the engine's documented default for a bare (non
/// aggregate) expression and for the wildcard under a groupby: each
/// group contributes the first value the expression takes on it.
#[derive(Clone, Copy, PartialEq, Eq, Structural, Debug)]
pub enum AggKind {
    Sum,
    Min,
    Max,
    Count,
    First,
}

/// An expression tree node. Expressions are pure descriptions: they
/// reference columns by name and carry no reference to any table.
#[derive(Debug)]
pub enum Expr {
    /// A column reference by name.
    Col(String),
    /// Every column (valid only as a whole aggregate under a groupby).
    Wildcard,
    /// Every column except the named ones (valid only as a whole
    /// aggregate under a groupby, wrapping the wildcard).
    Exclude(Box<Expr>, Vec<String>),
    /// A literal value, one per row.
    Lit(Value),
    /// A binary operation, elementwise over both operands.
    BinOp(Box<Expr>, Box<Expr>, Op),
    /// An aggregation of the inner expression over a group's rows.
    Agg(Box<Expr>, AggKind),
    /// The inner expression under another output name.
    Alias(Box<Expr>, String),
}

/// Builds a column reference.
pub fn col(name: String) -> (e: Expr)
    ensures
        e == Expr::Col(name),
{
    Expr::Col(name)
}

/// Builds the wildcard expression.
pub fn wildcard() -> (e: Expr)
    ensures
        e == Expr::Wildcard,
{
    Expr::Wildcard
}

/// Builds an integer literal.
pub fn lit_int(v: i64) -> (e: Expr)
    ensures
        e == Expr::Lit(Value::Int(v)),
{
    Expr::Lit(Value::Int(v))
}

/// Builds a boolean literal.
pub fn lit_bool(v: bool) -> (e: Expr)
    ensures
        e == Expr::Lit(Value::Bool(v)),
{
    Expr::Lit(Value::Bool(v))
}

impl Expr {
    /// Wraps the expression so that the named columns are excluded from
    /// its expansion.
    pub fn exclude(self, names: Vec<String>) -> (e: Expr)
        ensures
            e == Expr::Exclude(Box::new(self), names),
    {
        Expr::Exclude(Box::new(self), names)
    }

    /// Renames the expression's output column.
    pub fn alias(self, name: String) -> (e: Expr)
        ensures
            e == Expr::Alias(Box::new(self), name),
    {
        Expr::Alias(Box::new(self), name)
    }

    /// Aggregates the expression with the given kind.
    pub fn aggregate(self, kind: AggKind) -> (e: Expr)
        ensures
            e == Expr::Agg(Box::new(self), kind),
    {
        Expr::Agg(Box::new(self), kind)
    }

    /// Combines two expressions with a binary operator.
    pub fn apply_op(self, op: Op, rhs: Expr) -> (e: Expr)
        ensures
            e == Expr::BinOp(Box::new(self), Box::new(rhs), op),
    {
        Expr::BinOp(Box::new(self), Box::new(rhs), op)
    }
}

} // verus!
