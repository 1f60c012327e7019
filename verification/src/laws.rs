//! The laws of the engine, each proved from the public contracts:
//! collection is deterministic, a select resolves to exactly its names,
//! a head followed by an equal tail is the head alone, the groupby
//! ordering flag never changes the collected result of this engine, a
//! filter over an unresolvable predicate fails rather than returning an
//! empty table, and a fetch returns exactly the requested rows when the
//! plan produces enough.
//!
//! The optimizer's own law — `collect` of the optimized plan equals
//! `collect` of the original — is the `ensures` of
//! [`crate::optimize::optimize`] itself; the stable-grouping law — the
//! distinct keys stand in first-occurrence order — is
//! [`crate::group::lemma_uniq_keys_first_occurrence_order`], beside the
//! grouping definitions it speaks of.

use vstd::prelude::*;
use crate::error::ErrorV;
use crate::expr::Expr;
use crate::plan::{LogicalPlan, plan_wf};
use crate::table::{Table, TableV, names_view, table_res_view};
use crate::schema::{plan_schema, row_expr_schema, first_not_in};
use crate::eval::{tv_rows, slice_hi, lemma_tv_rows_wf};
use crate::engine::{eval_plan, spec_collect, spec_fetch, tail_lo, lemma_eval_plan_wf};
use crate::error::Error;

verus! {

/// Collecting one plan twice over the same source gives the same table:
/// both results equal the one mathematical value `spec_collect` assigns
/// to the plan.
pub proof fn lemma_collect_deterministic(
    p: LogicalPlan,
    r1: Result<Table, Error>,
    r2: Result<Table, Error>,
)
    requires
        table_res_view(r1) == spec_collect(p),
        table_res_view(r2) == spec_collect(p),
    ensures
        table_res_view(r1) == table_res_view(r2),
{
}

/// A select resolves to exactly the requested names, in their order; a
/// select whose first missing name is `m` fails with `UnknownColumn` on
/// that name.
pub proof fn lemma_select_resolves_names(p: LogicalPlan, columns: Vec<String>)
    ensures
        plan_schema(LogicalPlan::Select(Box::new(p), columns)) is Ok
            ==> plan_schema(LogicalPlan::Select(Box::new(p), columns))->Ok_0.names == names_view(
            columns,
        ),
        plan_schema(p) is Ok && first_not_in(
            names_view(columns),
            plan_schema(p)->Ok_0.names,
            0,
        ) < names_view(columns).len() ==> plan_schema(LogicalPlan::Select(Box::new(p), columns))
            == Err::<crate::schema::SchemaV, ErrorV>(
            ErrorV::UnknownColumn(
                names_view(columns)[first_not_in(
                    names_view(columns),
                    plan_schema(p)->Ok_0.names,
                    0,
                )],
            ),
        ),
{
}

/// Taking the first `k` rows and then the last `k` rows of them is the
/// same as taking the first `k` rows alone, whenever the plan produces
/// at least `k` rows.
pub proof fn lemma_head_then_tail(p: LogicalPlan, k: u32)
    requires
        plan_wf(p),
        spec_collect(p) is Ok,
        spec_collect(p)->Ok_0.nrows() >= k,
    ensures
        spec_collect(LogicalPlan::Tail(Box::new(LogicalPlan::Limit(Box::new(p), k)), k))
            == spec_collect(LogicalPlan::Limit(Box::new(p), k)),
{
    let t = eval_plan(p)->Ok_0;
    lemma_eval_plan_wf(p);
    let n = t.nrows();
    let h = slice_hi(n, 0, k as int);
    assert(h == k as int);
    let t1 = tv_rows(t, 0, h);
    lemma_tv_rows_wf(t, 0, h);
    assert(t1.nrows() == k as int);
    assert(tail_lo(t1.nrows(), k as int) == 0);
    let t2 = tv_rows(t1, 0, t1.nrows());
    assert(t2 =~= t1) by {
        assert forall|j: int| 0 <= j < t2.cols.len() implies t2.cols[j] == t1.cols[j] by {
            assert(t2.cols[j] == t1.cols[j].subrange(0, t1.nrows()));
            assert(t1.cols[j].len() == t1.nrows());
            assert(t1.cols[j].subrange(0, t1.nrows()) =~= t1.cols[j]);
        }
    }
}

/// This engine deterministically uses first-occurrence group order for
/// either value of the stability flag (as the relaxed mode permits), so
/// the flag never changes the collected result: the group set and every
/// aggregated value are identical.
pub proof fn lemma_groupby_flag_irrelevant(p: LogicalPlan, keys: Vec<Expr>, aggs: Vec<Expr>)
    ensures
        spec_collect(LogicalPlan::GroupByAgg(Box::new(p), keys, aggs, true)) == spec_collect(
            LogicalPlan::GroupByAgg(Box::new(p), keys, aggs, false),
        ),
{
}

/// A filter whose predicate does not resolve against the input's schema
/// (an unknown column among the rest) fails at collection with that
/// resolution error — never with a silently empty result.
pub proof fn lemma_filter_unresolvable_fails(p: LogicalPlan, e: Expr)
    requires
        plan_schema(p) is Ok,
        row_expr_schema(e, plan_schema(p)->Ok_0) is Err,
    ensures
        plan_schema(LogicalPlan::Filter(Box::new(p), e)) == Err::<crate::schema::SchemaV, ErrorV>(
            row_expr_schema(e, plan_schema(p)->Ok_0)->Err_0,
        ),
        spec_collect(LogicalPlan::Filter(Box::new(p), e)) == Err::<TableV, ErrorV>(
            row_expr_schema(e, plan_schema(p)->Ok_0)->Err_0,
        ),
{
}

/// A fetch of `n` rows from a plan whose result has at least `n` rows
/// returns exactly `n` rows; with fewer, it returns them all.
pub proof fn lemma_fetch_row_count(p: LogicalPlan, n: int)
    requires
        plan_wf(p),
        0 <= n,
        spec_collect(p) is Ok,
    ensures
        spec_fetch(p, n) is Ok,
        spec_collect(p)->Ok_0.nrows() >= n ==> spec_fetch(p, n)->Ok_0.nrows() == n,
        spec_collect(p)->Ok_0.nrows() < n ==> spec_fetch(p, n)->Ok_0.nrows() == spec_collect(
            p,
        )->Ok_0.nrows(),
{
    let t = spec_collect(p)->Ok_0;
    lemma_eval_plan_wf(p);
    lemma_tv_rows_wf(t, 0, slice_hi(t.nrows(), 0, n));
}

} // verus!
