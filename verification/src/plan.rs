//! The lazy logical plan: an immutable chain of relational operations.
//!
//! Each builder wraps its input plan in a new node in O(1) and never
//! mutates it; building records structure only and never fails — all
//! validation happens at schema resolution or execution time.

use vstd::prelude::*;
use crate::table::Table;
use crate::expr::Expr;

verus! {

/// A node of a lazy logical plan. Every non-scan node owns exactly one
/// input plan.
#[derive(Debug)]
pub enum LogicalPlan {
    /// The in-memory source table the plan reads from.
    Scan(Table),
    /// Exactly the named columns, in the given order.
    Select(Box<LogicalPlan>, Vec<String>),
    /// All input columns except the named ones; unknown names are
    /// silently ignored.
    DropCols(Box<LogicalPlan>, Vec<String>),
    /// A contiguous row range: offset (negative counts from the end) and
    /// length.
    Slice(Box<LogicalPlan>, i64, u32),
    /// The first `n` rows.
    Limit(Box<LogicalPlan>, u32),
    /// The last `n` rows.
    Tail(Box<LogicalPlan>, u32),
    /// Only the rows where the predicate is true (false and null rows
    /// are excluded).
    Filter(Box<LogicalPlan>, Expr),
    /// Rows partitioned by the key expressions, one output row per
    /// group, aggregated by the aggregate expressions. The flag records
    /// whether the caller asked for stable (first-occurrence) group
    /// order; this engine deterministically uses first-occurrence order
    /// for either flag value, as the relaxed mode permits.
    GroupByAgg(Box<LogicalPlan>, Vec<Expr>, Vec<Expr>, bool),
}

/// Every scan source of the plan is a well-formed table.
pub open spec fn plan_wf(p: LogicalPlan) -> bool
    decreases p,
{
    match p {
        LogicalPlan::Scan(t) => t@.wf(),
        LogicalPlan::Select(input, _) => plan_wf(*input),
        LogicalPlan::DropCols(input, _) => plan_wf(*input),
        LogicalPlan::Slice(input, _, _) => plan_wf(*input),
        LogicalPlan::Limit(input, _) => plan_wf(*input),
        LogicalPlan::Tail(input, _) => plan_wf(*input),
        LogicalPlan::Filter(input, _) => plan_wf(*input),
        LogicalPlan::GroupByAgg(input, _, _, _) => plan_wf(*input),
    }
}

/// Starts a plan from an in-memory table.
pub fn scan(table: Table) -> (p: LogicalPlan)
    ensures
        p == LogicalPlan::Scan(table),
{
    LogicalPlan::Scan(table)
}

/// Constrains the plan's output to exactly the named columns, in the
/// given order. An absent name fails at resolution or execution time,
/// never at build time.
pub fn lf_select(plan: LogicalPlan, columns: Vec<String>) -> (r: LogicalPlan)
    ensures
        r == LogicalPlan::Select(Box::new(plan), columns),
{
    LogicalPlan::Select(Box::new(plan), columns)
}

/// Drops the named columns, preserving the order of the rest; unknown
/// names are silently ignored.
pub fn lf_drop(plan: LogicalPlan, columns: Vec<String>) -> (r: LogicalPlan)
    ensures
        r == LogicalPlan::DropCols(Box::new(plan), columns),
{
    LogicalPlan::DropCols(Box::new(plan), columns)
}

/// Selects a contiguous row range; a negative offset counts from the
/// end (-1 is the last row), and a range beyond the rows yields an empty
/// result, never an error.
pub fn lf_slice(plan: LogicalPlan, offset: i64, length: u32) -> (r: LogicalPlan)
    ensures
        r == LogicalPlan::Slice(Box::new(plan), offset, length),
{
    LogicalPlan::Slice(Box::new(plan), offset, length)
}

/// Keeps the first `length` rows (all rows when fewer are available).
pub fn lf_head(plan: LogicalPlan, length: u32) -> (r: LogicalPlan)
    ensures
        r == LogicalPlan::Limit(Box::new(plan), length),
{
    LogicalPlan::Limit(Box::new(plan), length)
}

/// Keeps the last `length` rows (all rows when fewer are available).
pub fn lf_tail(plan: LogicalPlan, length: u32) -> (r: LogicalPlan)
    ensures
        r == LogicalPlan::Tail(Box::new(plan), length),
{
    LogicalPlan::Tail(Box::new(plan), length)
}

/// Keeps only the rows where the predicate evaluates to true.
pub fn lf_filter_with(plan: LogicalPlan, predicate: Expr) -> (r: LogicalPlan)
    ensures
        r == LogicalPlan::Filter(Box::new(plan), predicate),
{
    LogicalPlan::Filter(Box::new(plan), predicate)
}

/// Groups rows by the key expressions and aggregates each group with the
/// aggregate expressions; `stable` asks for first-occurrence group order.
pub fn lf_groupby_agg(plan: LogicalPlan, keys: Vec<Expr>, aggs: Vec<Expr>, stable: bool) -> (r:
    LogicalPlan)
    ensures
        r == LogicalPlan::GroupByAgg(Box::new(plan), keys, aggs, stable),
{
    LogicalPlan::GroupByAgg(Box::new(plan), keys, aggs, stable)
}

} // verus!
