//! Errors surfaced by schema resolution and plan execution.
//!
//! Building a plan never fails; every validation failure is reported when
//! the schema is resolved or the plan is executed, as the first error met
//! walking the plan bottom-up.

use vstd::prelude::*;
use vstd::string::StringExecFns;
use crate::value::DType;

verus! {

/// The mathematical model of an [`Error`]: the same variants with string
/// payloads abstracted to character sequences.
#[verifier::ext_equal]
pub enum ErrorV {
    /// A referenced column name is absent from the schema it is resolved
    /// against.
    UnknownColumn(Seq<char>),
    /// Two output columns would carry the same name.
    DuplicateColumn(Seq<char>),
    /// An operation met a value or column of the wrong type:
    /// expected type, actual type, and the operation's label.
    TypeMismatch(DType, DType, Seq<char>),
    /// A column was supplied with the wrong length: expected, actual.
    InvalidRange(int, int),
    /// An expression is structurally invalid for the position it stands in.
    SchemaResolutionFailure(Seq<char>),
    /// Evaluation itself failed (arithmetic overflow and the like).
    ExecutionFailure(Seq<char>),
}

/// An error from schema resolution or execution.
#[derive(Clone, Debug, PartialEq, Eq)]
pub enum Error {
    /// A referenced column name is absent from the schema it is resolved
    /// against.
    UnknownColumn(String),
    /// Two output columns would carry the same name.
    DuplicateColumn(String),
    /// An operation met a value or column of the wrong type:
    /// expected type, actual type, and the operation's label.
    TypeMismatch(DType, DType, String),
    /// A column was supplied with the wrong length: expected, actual.
    InvalidRange(usize, usize),
    /// An expression is structurally invalid for the position it stands in.
    SchemaResolutionFailure(String),
    /// Evaluation itself failed (arithmetic overflow and the like).
    ExecutionFailure(String),
}

impl View for Error {
    type V = ErrorV;

    open spec fn view(&self) -> ErrorV {
        match self {
            Error::UnknownColumn(n) => ErrorV::UnknownColumn(n@),
            Error::DuplicateColumn(n) => ErrorV::DuplicateColumn(n@),
            Error::TypeMismatch(e, a, c) => ErrorV::TypeMismatch(*e, *a, c@),
            Error::InvalidRange(e, a) => ErrorV::InvalidRange(*e as int, *a as int),
            Error::SchemaResolutionFailure(m) => ErrorV::SchemaResolutionFailure(m@),
            Error::ExecutionFailure(m) => ErrorV::ExecutionFailure(m@),
        }
    }
}

impl Error {
    /// A short human-readable description of the error's kind.
    pub fn kind_label(&self) -> (r: String)
        ensures
            r@ == match self@ {
                ErrorV::UnknownColumn(_) => "unknown column"@,
                ErrorV::DuplicateColumn(_) => "duplicate column"@,
                ErrorV::TypeMismatch(_, _, _) => "type mismatch"@,
                ErrorV::InvalidRange(_, _) => "invalid range"@,
                ErrorV::SchemaResolutionFailure(_) => "schema resolution failure"@,
                ErrorV::ExecutionFailure(_) => "execution failure"@,
            },
    {
        match self {
            Error::UnknownColumn(_) => String::from_str("unknown column"),
            Error::DuplicateColumn(_) => String::from_str("duplicate column"),
            Error::TypeMismatch(_, _, _) => String::from_str("type mismatch"),
            Error::InvalidRange(_, _) => String::from_str("invalid range"),
            Error::SchemaResolutionFailure(_) => String::from_str("schema resolution failure"),
            Error::ExecutionFailure(_) => String::from_str("execution failure"),
        }
    }
}

} // verus!
