//! The plan optimizer: rewrites a plan into an equivalent one —
//! consecutive limits and consecutive tails are merged, and a select of
//! exactly the columns an inner select already produced is collapsed —
//! and is proved to leave
//! the resolved schema and the collected result of every well-formed
//! plan unchanged. Where no rewrite is known to preserve results, the
//! subtree is left as it stands: correctness dominates performance.

use vstd::prelude::*;
use crate::value::Value;
use crate::error::ErrorV;
use crate::plan::{LogicalPlan, plan_wf};
use crate::table::{
    TableV, names_view, idx_of_name, first_dup_name, lemma_idx_of_name, lemma_first_dup_name,
    lemma_no_dup_distinct, string_eq,
};
use crate::schema::{SchemaV, sel_schema, plan_schema, first_not_in, lemma_first_not_in};
use crate::eval::{tv_rows, slice_hi, sel_table, lemma_tv_rows_wf};
use crate::engine::{eval_plan, spec_collect, tail_lo, lemma_eval_plan_wf};

verus! {

/// Equality of two name lists, by their character sequences.
pub fn names_equal(a: &Vec<String>, b: &Vec<String>) -> (r: bool)
    ensures
        r == (names_view(*a) == names_view(*b)),
{
    if a.len() != b.len() {
        proof {
            assert(names_view(*a).len() == a@.len());
            assert(names_view(*b).len() == b@.len());
        }
        return false;
    }
    let mut i: usize = 0;
    while i < a.len()
        invariant
            i <= a@.len(),
            a@.len() == b@.len(),
            forall|k: int| 0 <= k < i ==> names_view(*a)[k] == names_view(*b)[k],
        decreases a@.len() - i,
    {
        proof {
            assert(names_view(*a)[i as int] == a@[i as int]@);
            assert(names_view(*b)[i as int] == b@[i as int]@);
        }
        if !string_eq(&a[i], &b[i]) {
            return false;
        }
        i += 1;
    }
    proof {
        assert(names_view(*a) =~= names_view(*b));
    }
    true
}

/// In a duplicate-free name list, every name's first occurrence is its
/// own position.
pub proof fn lemma_idx_of_self(ns: Seq<Seq<char>>)
    requires
        first_dup_name(ns, 0) == ns.len(),
    ensures
        forall|i: int| 0 <= i < ns.len() ==> idx_of_name(ns, #[trigger] ns[i], 0) == i,
{
    lemma_first_dup_name(ns, 0);
    lemma_no_dup_distinct(ns);
    assert forall|i: int| 0 <= i < ns.len() implies idx_of_name(ns, #[trigger] ns[i], 0) == i by {
        lemma_idx_of_name(ns, ns[i], 0);
        let j = idx_of_name(ns, ns[i], 0);
        assert(j <= i);
        if j < i {
            assert(ns[j] == ns[i]);
        }
    }
}

/// Selecting again exactly the columns a select already produced changes
/// nothing about the schema.
pub proof fn lemma_sel_schema_idem(s: SchemaV, ns: Seq<Seq<char>>)
    requires
        sel_schema(s, ns) is Ok,
    ensures
        sel_schema(sel_schema(s, ns)->Ok_0, ns) == sel_schema(s, ns),
{
    let s1 = sel_schema(s, ns)->Ok_0;
    lemma_first_dup_name(ns, 0);
    assert(first_dup_name(ns, 0) == ns.len());
    lemma_idx_of_self(ns);
    lemma_first_not_in(ns, ns, 0);
    assert forall|k: int|
        0 <= k < ns.len() implies idx_of_name(ns, #[trigger] ns[k], 0) < ns.len() by {}
    assert(first_not_in(ns, ns, 0) == ns.len()) by {
        if first_not_in(ns, ns, 0) < ns.len() {
            let m = first_not_in(ns, ns, 0);
            assert(idx_of_name(ns, ns[m], 0) == m);
        }
    }
    assert(sel_schema(s1, ns)->Ok_0.dtypes =~= s1.dtypes);
    assert(sel_schema(s1, ns) == Ok::<SchemaV, ErrorV>(s1));
}

/// Selecting again exactly the columns a select already produced changes
/// nothing about the data.
pub proof fn lemma_sel_table_idem(t: TableV, ns: Seq<Seq<char>>)
    requires
        sel_table(t, ns) is Ok,
    ensures
        sel_table(sel_table(t, ns)->Ok_0, ns) == sel_table(t, ns),
{
    let t1 = sel_table(t, ns)->Ok_0;
    lemma_first_dup_name(ns, 0);
    assert(first_dup_name(ns, 0) == ns.len());
    lemma_idx_of_self(ns);
    lemma_first_not_in(ns, ns, 0);
    assert(first_not_in(ns, ns, 0) == ns.len()) by {
        if first_not_in(ns, ns, 0) < ns.len() {
            let m = first_not_in(ns, ns, 0);
            assert(idx_of_name(ns, ns[m], 0) == m);
        }
    }
    assert(sel_table(t1, ns)->Ok_0.dtypes =~= t1.dtypes);
    assert(sel_table(t1, ns)->Ok_0.cols =~= t1.cols);
    assert(sel_table(t1, ns) == Ok::<TableV, ErrorV>(t1));
}

/// Taking the first `b` rows of the first `a` rows of a well-formed
/// table takes its first `min(a, b)` rows.
pub proof fn lemma_limit_limit(t: TableV, a: int, b: int)
    requires
        t.wf(),
        0 <= a,
        0 <= b,
    ensures
        tv_rows(
            tv_rows(t, 0, slice_hi(t.nrows(), 0, a)),
            0,
            slice_hi(tv_rows(t, 0, slice_hi(t.nrows(), 0, a)).nrows(), 0, b),
        ) == tv_rows(t, 0, slice_hi(t.nrows(), 0, if a < b { a } else { b })),
{
    let n = t.nrows();
    let h1 = slice_hi(n, 0, a);
    let t1 = tv_rows(t, 0, h1);
    lemma_tv_rows_wf(t, 0, h1);
    let h2 = slice_hi(t1.nrows(), 0, b);
    let m = slice_hi(n, 0, if a < b { a } else { b });
    assert(h2 == m);
    let left = tv_rows(t1, 0, h2);
    let right = tv_rows(t, 0, m);
    assert(left.cols =~= right.cols) by {
        assert forall|j: int| 0 <= j < left.cols.len() implies left.cols[j] == right.cols[j] by {
            assert(left.cols[j] == t1.cols[j].subrange(0, h2));
            assert(t1.cols[j] == t.cols[j].subrange(0, h1));
            assert(right.cols[j] == t.cols[j].subrange(0, m));
            assert(t1.cols[j].subrange(0, h2) =~= t.cols[j].subrange(0, m));
        }
    }
    assert(left =~= right);
}

/// Taking the last `b` rows of the last `a` rows of a well-formed table
/// takes its last `min(a, b)` rows.
pub proof fn lemma_tail_tail(t: TableV, a: int, b: int)
    requires
        t.wf(),
        0 <= a,
        0 <= b,
    ensures
        tv_rows(
            tv_rows(t, tail_lo(t.nrows(), a), t.nrows()),
            tail_lo(tv_rows(t, tail_lo(t.nrows(), a), t.nrows()).nrows(), b),
            tv_rows(t, tail_lo(t.nrows(), a), t.nrows()).nrows(),
        ) == tv_rows(t, tail_lo(t.nrows(), if a < b { a } else { b }), t.nrows()),
{
    let n = t.nrows();
    let lo1 = tail_lo(n, a);
    let t1 = tv_rows(t, lo1, n);
    lemma_tv_rows_wf(t, lo1, n);
    let n1 = t1.nrows();
    let lo2 = tail_lo(n1, b);
    let m = if a < b { a } else { b };
    let left = tv_rows(t1, lo2, n1);
    let right = tv_rows(t, tail_lo(n, m), n);
    assert(left.cols =~= right.cols) by {
        assert forall|j: int| 0 <= j < left.cols.len() implies left.cols[j] == right.cols[j] by {
            assert(left.cols[j] == t1.cols[j].subrange(lo2, n1));
            assert(t1.cols[j] == t.cols[j].subrange(lo1, n));
            assert(right.cols[j] == t.cols[j].subrange(tail_lo(n, m), n));
            assert(t1.cols[j].subrange(lo2, n1) =~= t.cols[j].subrange(tail_lo(n, m), n));
        }
    }
    assert(left =~= right);
}

/// Rewrites a plan into a semantically equivalent one. The resolved
/// schema is always preserved; for a well-formed plan the evaluated and
/// collected results are preserved too, so `describe` with optimization
/// shows a plan that collects to the same table. The function inspects
/// only the plan, never any data.
pub fn optimize(p: LogicalPlan) -> (r: LogicalPlan)
    ensures
        plan_wf(r) == plan_wf(p),
        plan_schema(r) == plan_schema(p),
        plan_wf(p) ==> eval_plan(r) == eval_plan(p),
        plan_wf(p) ==> spec_collect(r) == spec_collect(p),
    decreases p,
{
    match p {
        LogicalPlan::Scan(t) => LogicalPlan::Scan(t),
        LogicalPlan::Select(input, ns) => {
            let ghost iv = *input;
            let oi = optimize(*input);
            let ghost ov = oi;
            match oi {
                LogicalPlan::Select(i2, ns2) => {
                    if names_equal(&ns, &ns2) {
                        let r = LogicalPlan::Select(i2, ns);
                        proof {
                            let nsv = names_view(r->Select_1);
                            if plan_schema(*(r->Select_0)) is Ok {
                                let s2 = plan_schema(*(r->Select_0))->Ok_0;
                                if sel_schema(s2, nsv) is Ok {
                                    lemma_sel_schema_idem(s2, nsv);
                                }
                            }
                            if plan_wf(p) && eval_plan(*(r->Select_0)) is Ok {
                                let t2 = eval_plan(*(r->Select_0))->Ok_0;
                                if sel_table(t2, nsv) is Ok {
                                    lemma_sel_table_idem(t2, nsv);
                                }
                            }
                        }
                        r
                    } else {
                        LogicalPlan::Select(Box::new(LogicalPlan::Select(i2, ns2)), ns)
                    }
                },
                other => LogicalPlan::Select(Box::new(other), ns),
            }
        },
        LogicalPlan::DropCols(input, ns) => LogicalPlan::DropCols(Box::new(optimize(*input)), ns),
        LogicalPlan::Slice(input, offset, len) => LogicalPlan::Slice(
            Box::new(optimize(*input)),
            offset,
            len,
        ),
        LogicalPlan::Limit(input, k) => {
            let ghost iv = *input;
            let oi = optimize(*input);
            match oi {
                LogicalPlan::Limit(i2, k2) => {
                    let kk = if k < k2 {
                        k
                    } else {
                        k2
                    };
                    let r = LogicalPlan::Limit(i2, kk);
                    proof {
                        if plan_wf(p) && eval_plan(*(r->Limit_0)) is Ok {
                            let t2 = eval_plan(*(r->Limit_0))->Ok_0;
                            lemma_eval_plan_wf(*(r->Limit_0));
                            lemma_limit_limit(t2, k2 as int, k as int);
                        }
                    }
                    r
                },
                other => LogicalPlan::Limit(Box::new(other), k),
            }
        },
        LogicalPlan::Tail(input, k) => {
            let ghost iv = *input;
            let oi = optimize(*input);
            match oi {
                LogicalPlan::Tail(i2, k2) => {
                    let kk = if k < k2 {
                        k
                    } else {
                        k2
                    };
                    let r = LogicalPlan::Tail(i2, kk);
                    proof {
                        if plan_wf(p) && eval_plan(*(r->Tail_0)) is Ok {
                            let t2 = eval_plan(*(r->Tail_0))->Ok_0;
                            lemma_eval_plan_wf(*(r->Tail_0));
                            lemma_tail_tail(t2, k2 as int, k as int);
                        }
                    }
                    r
                },
                other => LogicalPlan::Tail(Box::new(other), k),
            }
        },
        LogicalPlan::Filter(input, e) => LogicalPlan::Filter(Box::new(optimize(*input)), e),
        LogicalPlan::GroupByAgg(input, keys, aggs, stable) => LogicalPlan::GroupByAgg(
            Box::new(optimize(*input)),
            keys,
            aggs,
            stable,
        ),
    }
}

} // verus!
