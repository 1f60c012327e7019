//! Cell values and column data types.

use vstd::prelude::*;
use vstd::string::StringExecFns;

verus! {

/// The data type of a column: every non-null value in the column has
/// this type.
#[derive(Clone, Copy, PartialEq, Eq, Structural, Debug)]
pub enum DType {
    Int,
    Bool,
}

/// A single cell of a column: a typed value or a null marker.
#[derive(Clone, Copy, PartialEq, Eq, Structural, Debug)]
pub enum Value {
    Int(i64),
    Bool(bool),
    Null,
}

/// Whether a cell may sit in a column of data type `dt`: nulls fit
/// every column, other values must match the column's type.
pub open spec fn value_fits(v: Value, dt: DType) -> bool {
    match v {
        Value::Null => true,
        Value::Int(_) => dt is Int,
        Value::Bool(_) => dt is Bool,
    }
}

/// The textual label of a data type, as reported by `lf_dtypes`.
pub open spec fn spec_dtype_label(dt: DType) -> Seq<char> {
    match dt {
        DType::Int => "integer"@,
        DType::Bool => "boolean"@,
    }
}

/// Renders a data type as its textual label.
pub fn dtype_label(dt: DType) -> (r: String)
    ensures
        r@ == spec_dtype_label(dt),
{
    match dt {
        DType::Int => String::from_str("integer"),
        DType::Bool => String::from_str("boolean"),
    }
}

/// Executable check that `v` fits a column of type `dt`.
pub fn value_fits_dtype(v: &Value, dt: DType) -> (r: bool)
    ensures
        r == value_fits(*v, dt),
{
    match v {
        Value::Null => true,
        Value::Int(_) => matches!(dt, DType::Int),
        Value::Bool(_) => matches!(dt, DType::Bool),
    }
}

/// The data type a non-null value belongs to. A null fits every column,
/// so callers ask this only of non-null values.
pub open spec fn spec_dtype_of(v: Value) -> DType
    recommends
        !(v is Null),
{
    match v {
        Value::Bool(_) => DType::Bool,
        _ => DType::Int,
    }
}

/// Executable twin of [`spec_dtype_of`].
pub fn dtype_of(v: &Value) -> (r: DType)
    ensures
        r == spec_dtype_of(*v),
{
    match v {
        Value::Bool(_) => DType::Bool,
        _ => DType::Int,
    }
}

} // verus!
