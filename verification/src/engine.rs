//! The execution engine: a plan is evaluated bottom-up against its scan
//! source, producing a materialized table. `lf_collect` resolves the
//! schema first, so every validation error surfaces at collection even
//! before any data is touched; `lf_fetch` bounds the output's rows.

use vstd::prelude::*;
use crate::value::{DType, Value};
use crate::error::{Error, ErrorV};
use crate::expr::Expr;
use crate::plan::{LogicalPlan, plan_wf};
use crate::table::{Table, TableV, names_view, table_res_view, clone_names};
use crate::schema::{plan_schema, resolve_schema};
use crate::eval::{
    tv_rows, slice_lo, slice_hi, eval_expr_row, eval_expr, lemma_eval_expr_row_wf, sel_table,
    drop_table, filter_table, mask_keep, table_select, table_drop, table_rows, table_filter,
    lemma_sel_table_wf, lemma_drop_keep_t_wf, lemma_tv_rows_wf, lemma_filter_table_wf,
};
use crate::group::{gb_eval, run_groupby, lemma_gb_eval_wf};

verus! {

/// The first row a tail of `k` rows keeps, out of `n`.
pub open spec fn tail_lo(n: int, k: int) -> int {
    if n - k < 0 {
        0
    } else {
        n - k
    }
}

/// The table a plan evaluates to, bottom-up: each node's input is
/// evaluated first, then the node's own columnar operation is applied.
pub open spec fn eval_plan(p: LogicalPlan) -> Result<TableV, ErrorV>
    decreases p,
{
    match p {
        LogicalPlan::Scan(t) => Ok(t@),
        LogicalPlan::Select(input, ns) => match eval_plan(*input) {
            Err(e) => Err(e),
            Ok(t) => sel_table(t, names_view(ns)),
        },
        LogicalPlan::DropCols(input, ns) => match eval_plan(*input) {
            Err(e) => Err(e),
            Ok(t) => Ok(drop_table(t, names_view(ns))),
        },
        LogicalPlan::Slice(input, offset, len) => match eval_plan(*input) {
            Err(e) => Err(e),
            Ok(t) => Ok(
                tv_rows(
                    t,
                    slice_lo(t.nrows(), offset as int),
                    slice_hi(t.nrows(), offset as int, len as int),
                ),
            ),
        },
        LogicalPlan::Limit(input, k) => match eval_plan(*input) {
            Err(e) => Err(e),
            Ok(t) => Ok(tv_rows(t, 0, slice_hi(t.nrows(), 0, k as int))),
        },
        LogicalPlan::Tail(input, k) => match eval_plan(*input) {
            Err(e) => Err(e),
            Ok(t) => Ok(tv_rows(t, tail_lo(t.nrows(), k as int), t.nrows())),
        },
        LogicalPlan::Filter(input, e) => match eval_plan(*input) {
            Err(er) => Err(er),
            Ok(t) => match eval_expr_row(e, t) {
                Err(er) => Err(er),
                Ok((_, dt, vals)) => if dt is Bool {
                    Ok(filter_table(t, vals))
                } else {
                    Err(ErrorV::TypeMismatch(DType::Bool, dt, "filter"@))
                },
            },
        },
        LogicalPlan::GroupByAgg(input, keys, aggs, _) => match eval_plan(*input) {
            Err(e) => Err(e),
            Ok(t) => gb_eval(t, keys@, aggs@),
        },
    }
}

/// Every table a well-formed plan evaluates to is well-formed: its
/// columns share one length, its names are unique, and every cell fits
/// its column's type.
pub proof fn lemma_eval_plan_wf(p: LogicalPlan)
    requires
        plan_wf(p),
        eval_plan(p) is Ok,
    ensures
        eval_plan(p)->Ok_0.wf(),
    decreases p,
{
    match p {
        LogicalPlan::Scan(t) => {},
        LogicalPlan::Select(input, ns) => {
            lemma_eval_plan_wf(*input);
            lemma_sel_table_wf(eval_plan(*input)->Ok_0, names_view(ns));
        },
        LogicalPlan::DropCols(input, ns) => {
            lemma_eval_plan_wf(*input);
            let t = eval_plan(*input)->Ok_0;
            lemma_drop_keep_t_wf(t, names_view(ns), t.names.len() as int);
        },
        LogicalPlan::Slice(input, offset, len) => {
            lemma_eval_plan_wf(*input);
            let t = eval_plan(*input)->Ok_0;
            lemma_tv_rows_wf(
                t,
                slice_lo(t.nrows(), offset as int),
                slice_hi(t.nrows(), offset as int, len as int),
            );
        },
        LogicalPlan::Limit(input, k) => {
            lemma_eval_plan_wf(*input);
            let t = eval_plan(*input)->Ok_0;
            lemma_tv_rows_wf(t, 0, slice_hi(t.nrows(), 0, k as int));
        },
        LogicalPlan::Tail(input, k) => {
            lemma_eval_plan_wf(*input);
            let t = eval_plan(*input)->Ok_0;
            lemma_tv_rows_wf(t, tail_lo(t.nrows(), k as int), t.nrows());
        },
        LogicalPlan::Filter(input, e) => {
            lemma_eval_plan_wf(*input);
            let t = eval_plan(*input)->Ok_0;
            lemma_eval_expr_row_wf(e, t);
            lemma_filter_table_wf(t, eval_expr_row(e, t)->Ok_0.2);
        },
        LogicalPlan::GroupByAgg(input, keys, aggs, _) => {
            lemma_eval_plan_wf(*input);
            lemma_gb_eval_wf(eval_plan(*input)->Ok_0, keys@, aggs@);
        },
    }
}

/// What `lf_collect` returns: the plan's schema is resolved first, so
/// every schema error surfaces before any data is touched; then the plan
/// is evaluated bottom-up.
pub open spec fn spec_collect(p: LogicalPlan) -> Result<TableV, ErrorV> {
    match plan_schema(p) {
        Err(e) => Err(e),
        Ok(_) => eval_plan(p),
    }
}

/// Evaluates a plan bottom-up against its scan source.
pub fn run_plan(p: LogicalPlan) -> (r: Result<Table, Error>)
    requires
        plan_wf(p),
    ensures
        table_res_view(r) == eval_plan(p),
    decreases p,
{
    match p {
        LogicalPlan::Scan(t) => Ok(t),
        LogicalPlan::Select(input, ns) => {
            let ghost iv = *input;
            let t = match run_plan(*input) {
                Err(e) => {
                    return Err(e);
                },
                Ok(t) => t,
            };
            proof {
                lemma_eval_plan_wf(iv);
            }
            table_select(&t, &ns)
        },
        LogicalPlan::DropCols(input, ns) => {
            let ghost iv = *input;
            let t = match run_plan(*input) {
                Err(e) => {
                    return Err(e);
                },
                Ok(t) => t,
            };
            proof {
                lemma_eval_plan_wf(iv);
            }
            Ok(table_drop(&t, &ns))
        },
        LogicalPlan::Slice(input, offset, len) => {
            let ghost iv = *input;
            let t = match run_plan(*input) {
                Err(e) => {
                    return Err(e);
                },
                Ok(t) => t,
            };
            proof {
                lemma_eval_plan_wf(iv);
            }
            let n = t.n_rows();
            let lo: usize;
            let hi: usize;
            if offset >= 0 {
                lo = if offset as u64 > n as u64 {
                    n
                } else {
                    offset as usize
                };
                let e: u128 = offset as u128 + len as u128;
                hi = if e > n as u128 {
                    n
                } else {
                    e as usize
                };
            } else {
                let mag: u64 = if offset == i64::MIN {
                    9223372036854775808u64
                } else {
                    (-offset) as u64
                };
                proof {
                    assert(mag as int == -(offset as int));
                }
                lo = if mag >= n as u64 {
                    0
                } else {
                    n - mag as usize
                };
                if (n as u128) + (len as u128) < mag as u128 {
                    hi = 0;
                } else {
                    let e2: u128 = (n as u128) + (len as u128) - (mag as u128);
                    hi = if e2 > n as u128 {
                        n
                    } else {
                        e2 as usize
                    };
                }
            }
            proof {
                assert(lo as int == slice_lo(t@.nrows(), offset as int));
                assert(hi as int == slice_hi(t@.nrows(), offset as int, len as int));
            }
            Ok(table_rows(&t, lo, hi))
        },
        LogicalPlan::Limit(input, k) => {
            let ghost iv = *input;
            let t = match run_plan(*input) {
                Err(e) => {
                    return Err(e);
                },
                Ok(t) => t,
            };
            proof {
                lemma_eval_plan_wf(iv);
            }
            let n = t.n_rows();
            let hi: usize = if k as u64 >= n as u64 {
                n
            } else {
                k as usize
            };
            proof {
                assert(hi as int == slice_hi(t@.nrows(), 0, k as int));
            }
            Ok(table_rows(&t, 0, hi))
        },
        LogicalPlan::Tail(input, k) => {
            let ghost iv = *input;
            let t = match run_plan(*input) {
                Err(e) => {
                    return Err(e);
                },
                Ok(t) => t,
            };
            proof {
                lemma_eval_plan_wf(iv);
            }
            let n = t.n_rows();
            let lo: usize = if k as u64 >= n as u64 {
                0
            } else {
                n - k as usize
            };
            proof {
                assert(lo as int == tail_lo(t@.nrows(), k as int));
            }
            Ok(table_rows(&t, lo, n))
        },
        LogicalPlan::Filter(input, e) => {
            let ghost iv = *input;
            let t = match run_plan(*input) {
                Err(er) => {
                    return Err(er);
                },
                Ok(t) => t,
            };
            proof {
                lemma_eval_plan_wf(iv);
            }
            match eval_expr(&e, &t) {
                Err(er) => Err(er),
                Ok((_, dt, vals)) => {
                    if matches!(dt, DType::Bool) {
                        proof {
                            lemma_eval_expr_row_wf(e, t@);
                        }
                        Ok(table_filter(&t, &vals))
                    } else {
                        Err(Error::TypeMismatch(DType::Bool, dt, String::from_str("filter")))
                    }
                },
            }
        },
        LogicalPlan::GroupByAgg(input, keys, aggs, _) => {
            let ghost iv = *input;
            let t = match run_plan(*input) {
                Err(e) => {
                    return Err(e);
                },
                Ok(t) => t,
            };
            proof {
                lemma_eval_plan_wf(iv);
            }
            run_groupby(&t, &keys, &aggs)
        },
    }
}

/// Executes the whole plan and materializes its result table. The
/// schema is resolved first, so an invalid plan fails with the same
/// error here and at `lf_names`/`lf_dtypes`, never with a silently
/// empty result.
pub fn collect_plan(plan: LogicalPlan) -> (r: Result<Table, Error>)
    requires
        plan_wf(plan),
    ensures
        table_res_view(r) == spec_collect(plan),
        r is Ok ==> r->Ok_0@.wf(),
{
    let q = crate::optimize::optimize(plan);
    match resolve_schema(&q) {
        Err(e) => Err(e),
        Ok(_) => {
            let ghost qv = q;
            let out = run_plan(q);
            proof {
                if eval_plan(qv) is Ok {
                    lemma_eval_plan_wf(qv);
                }
            }
            out
        },
    }
}

/// What `lf_fetch` returns: the collected table cut to its first
/// `n` rows (all rows when fewer are available).
pub open spec fn spec_fetch(p: LogicalPlan, n: int) -> Result<TableV, ErrorV> {
    match spec_collect(p) {
        Err(e) => Err(e),
        Ok(t) => Ok(tv_rows(t, 0, slice_hi(t.nrows(), 0, n))),
    }
}

/// Executes the plan and returns at most `n_rows` rows: exactly the
/// first `n_rows` of the full result when it has that many.
pub fn lf_fetch(plan: LogicalPlan, n_rows: usize) -> (r: Result<Table, Error>)
    requires
        plan_wf(plan),
    ensures
        table_res_view(r) == spec_fetch(plan, n_rows as int),
{
    match collect_plan(plan) {
        Err(e) => Err(e),
        Ok(t) => {
            let n = t.n_rows();
            let hi: usize = if n_rows as u64 >= n as u64 {
                n
            } else {
                n_rows
            };
            proof {
                assert(hi as int == slice_hi(t@.nrows(), 0, n_rows as int));
            }
            Ok(table_rows(&t, 0, hi))
        },
    }
}

/// Materializes a plan. With an empty `groups` this is a plain collect;
/// with group names it collects the plan grouped stably by those columns,
/// every non-key column passed through by its groups' first values (the
/// wildcard aggregate's documented default).
pub fn lf_collect(plan: LogicalPlan, groups: Vec<String>) -> (r: Result<Table, Error>)
    requires
        plan_wf(plan),
    ensures
        groups@.len() == 0 ==> table_res_view(r) == spec_collect(plan),
        groups@.len() > 0 ==> exists|keys: Vec<Expr>, aggs: Vec<Expr>|
            {
                &&& keys@.len() == groups@.len()
                &&& (forall|k: int|
                    0 <= k < keys@.len() ==> keys@[k] == Expr::Col(groups@[k]))
                &&& aggs@ =~= seq![Expr::Wildcard]
                &&& table_res_view(r) == spec_collect(
                    LogicalPlan::GroupByAgg(Box::new(plan), keys, aggs, true),
                )
            },
{
    if groups.len() == 0 {
        return collect_plan(plan);
    }
    let mut keys: Vec<Expr> = Vec::new();
    let mut i: usize = 0;
    while i < groups.len()
        invariant
            i <= groups@.len(),
            keys@.len() == i,
            forall|k: int| 0 <= k < i ==> keys@[k] == Expr::Col(groups@[k]),
        decreases groups.len() - i,
    {
        keys.push(Expr::Col(groups[i].clone()));
        i += 1;
    }
    let aggs: Vec<Expr> = vec![Expr::Wildcard];
    proof {
        assert(aggs@ =~= seq![Expr::Wildcard]);
    }
    let ghost gkeys = keys;
    let ghost gaggs = aggs;
    let ghost gplan = plan;
    let plan2 = LogicalPlan::GroupByAgg(Box::new(plan), keys, aggs, true);
    let r = collect_plan(plan2);
    proof {
        assert(keys@.len() == groups@.len());
        assert(table_res_view(r) == spec_collect(
            LogicalPlan::GroupByAgg(Box::new(gplan), gkeys, gaggs, true),
        ));
    }
    r
}

} // verus!
