//! A lazy columnar query engine: plans are immutable descriptions of
//! relational operations (select, drop, slice, head/tail, filter,
//! groupby-aggregate) over typed in-memory tables; nothing is computed
//! until a terminal `lf_collect` / `lf_fetch` call materializes a table.
//!
//! Every public operation carries a contract that pins its result down to
//! a mathematical model of tables and plans, and the optimizer is proved
//! to preserve the semantics of every plan it rewrites.

pub mod value;
pub mod error;
pub mod table;
pub mod expr;
pub mod plan;
pub mod schema;
pub mod eval;
pub mod group;
pub mod engine;
pub mod optimize;
pub mod laws;
pub mod describe;

pub use value::{DType, Value};
pub use error::Error;
pub use table::Table;
pub use expr::{Expr, Op, AggKind, col, wildcard, lit_int, lit_bool};
pub use plan::{
    LogicalPlan, scan, lf_select, lf_drop, lf_slice, lf_head, lf_tail, lf_filter_with,
    lf_groupby_agg,
};
pub use schema::{Schema, resolve_schema, lf_names, lf_dtypes};
pub use engine::{collect_plan, lf_collect, lf_fetch};
pub use optimize::optimize;
pub use describe::lf_describe_plan;
