//! Groupby-aggregate: rows are partitioned by the equality of their key
//! tuples, groups appear in the order their key first appears in the
//! input, and each aggregate produces one value per group with
//! null-skipping semantics.

use vstd::prelude::*;
use vstd::string::StringExecFns;
use crate::value::{DType, Value, value_fits, dtype_of};
use crate::error::{Error, ErrorV};
use crate::expr::{Expr, AggKind};
use crate::table::{
    Table, TableV, names_view, cols_view, idx_of_name, first_dup_name, lemma_idx_of_name,
    lemma_first_dup_name, lemma_no_dup_distinct, find_name, find_first_dup, clone_names,
    string_eq,
};
use crate::schema::{agg_label, agg_label_str, agg_kind_type, agg_kind_type_of};
use crate::eval::{eval_expr_row, eval_expr, lemma_eval_expr_row_wf, copy_col};

verus! {

/// The key tuple of row `r`: one value per key column.
pub open spec fn key_tuple(kcols: Seq<Seq<Value>>, r: int) -> Seq<Value> {
    Seq::new(kcols.len(), |k: int| kcols[k][r])
}

/// The distinct key tuples of the first `n` rows, in the order each
/// first appears.
pub open spec fn uniq_keys(kcols: Seq<Seq<Value>>, n: int) -> Seq<Seq<Value>>
    decreases n,
{
    if n <= 0 {
        Seq::empty()
    } else {
        let prev = uniq_keys(kcols, n - 1);
        let kt = key_tuple(kcols, n - 1);
        if prev.contains(kt) {
            prev
        } else {
            prev.push(kt)
        }
    }
}

/// The rows among the first `n` whose key tuple is `kt`, in input order.
pub open spec fn group_rows(kcols: Seq<Seq<Value>>, n: int, kt: Seq<Value>) -> Seq<int>
    decreases n,
{
    if n <= 0 {
        Seq::empty()
    } else {
        let prev = group_rows(kcols, n - 1, kt);
        if key_tuple(kcols, n - 1) == kt {
            prev.push(n - 1)
        } else {
            prev
        }
    }
}

/// Every group row index is a valid row below `n`.
pub proof fn lemma_group_rows_bounds(kcols: Seq<Seq<Value>>, n: int, kt: Seq<Value>)
    ensures
        group_rows(kcols, n, kt).len() <= (if n < 0 { 0int } else { n }),
        forall|k: int|
            0 <= k < group_rows(kcols, n, kt).len() ==> 0 <= #[trigger] group_rows(
                kcols,
                n,
                kt,
            )[k] < n,
    decreases n,
{
    if n > 0 {
        lemma_group_rows_bounds(kcols, n - 1, kt);
    }
}

/// Every distinct key is the key tuple of some row below `n`, and has
/// one value per key column.
pub proof fn lemma_uniq_keys_members(kcols: Seq<Seq<Value>>, n: int)
    ensures
        forall|g: int|
            0 <= g < uniq_keys(kcols, n).len() ==> exists|r: int|
                0 <= r < n && #[trigger] uniq_keys(kcols, n)[g] == key_tuple(kcols, r),
        forall|g: int|
            0 <= g < uniq_keys(kcols, n).len() ==> (#[trigger] uniq_keys(kcols, n)[g]).len()
                == kcols.len(),
    decreases n,
{
    if n > 0 {
        lemma_uniq_keys_members(kcols, n - 1);
        let prev = uniq_keys(kcols, n - 1);
        let kt = key_tuple(kcols, n - 1);
        assert forall|g: int|
            0 <= g < uniq_keys(kcols, n).len() implies exists|r: int|
            0 <= r < n && #[trigger] uniq_keys(kcols, n)[g] == key_tuple(kcols, r) by {
            if g < prev.len() {
                let r0 = choose|r: int| 0 <= r < n - 1 && prev[g] == key_tuple(kcols, r);
                assert(0 <= r0 < n && uniq_keys(kcols, n)[g] == key_tuple(kcols, r0));
            } else {
                assert(uniq_keys(kcols, n)[g] == kt);
                assert(0 <= n - 1 < n && uniq_keys(kcols, n)[g] == key_tuple(kcols, n - 1));
            }
        }
    }
}

/// The values of a column at the given row indices.
pub open spec fn vals_at(vals: Seq<Value>, idxs: Seq<int>) -> Seq<Value> {
    Seq::new(idxs.len(), |g: int| vals[idxs[g]])
}

/// The first value of a group's cells, or null for an empty group.
pub open spec fn first_val(s: Seq<Value>) -> Value {
    if s.len() == 0 {
        Value::Null
    } else {
        s[0]
    }
}

/// The sum of the non-null cells among the first `i`: null when none, an
/// execution failure on overflow, a type mismatch on a non-integer cell.
pub open spec fn sum_upto(s: Seq<Value>, i: int) -> Result<Value, ErrorV>
    decreases i,
{
    if i <= 0 {
        Ok(Value::Null)
    } else {
        match sum_upto(s, i - 1) {
            Err(e) => Err(e),
            Ok(acc) => match s[i - 1] {
                Value::Null => Ok(acc),
                Value::Bool(_) => Err(ErrorV::TypeMismatch(DType::Int, DType::Bool, "sum"@)),
                Value::Int(x) => match acc {
                    Value::Null => Ok(Value::Int(x)),
                    Value::Int(a) => if i64::MIN <= a + x <= i64::MAX {
                        Ok(Value::Int((a + x) as i64))
                    } else {
                        Err(ErrorV::ExecutionFailure("arithmetic overflow"@))
                    },
                    Value::Bool(_) => Err(ErrorV::TypeMismatch(DType::Int, DType::Bool, "sum"@)),
                },
            },
        }
    }
}

/// The least (`Min`) or greatest (`Max`) non-null cell among the first
/// `i`: null when none, a type mismatch on a non-integer cell.
pub open spec fn extreme_upto(kind: AggKind, s: Seq<Value>, i: int) -> Result<Value, ErrorV>
    decreases i,
{
    if i <= 0 {
        Ok(Value::Null)
    } else {
        match extreme_upto(kind, s, i - 1) {
            Err(e) => Err(e),
            Ok(acc) => match s[i - 1] {
                Value::Null => Ok(acc),
                Value::Bool(_) => Err(
                    ErrorV::TypeMismatch(DType::Int, DType::Bool, agg_label(kind)),
                ),
                Value::Int(x) => match acc {
                    Value::Null => Ok(Value::Int(x)),
                    Value::Int(a) => if kind is Min {
                        Ok(Value::Int(if x < a { x } else { a }))
                    } else {
                        Ok(Value::Int(if x > a { x } else { a }))
                    },
                    Value::Bool(_) => Err(
                        ErrorV::TypeMismatch(DType::Int, DType::Bool, agg_label(kind)),
                    ),
                },
            },
        }
    }
}

/// How many of the first `i` cells are non-null.
pub open spec fn count_upto(s: Seq<Value>, i: int) -> int
    decreases i,
{
    if i <= 0 {
        0
    } else {
        count_upto(s, i - 1) + (if s[i - 1] is Null {
            0int
        } else {
            1int
        })
    }
}

/// Once a sum fails on a prefix, every longer prefix fails the same way.
pub proof fn lemma_sum_upto_stops(s: Seq<Value>, i: int, j: int)
    requires
        0 <= i <= j,
        sum_upto(s, i) is Err,
    ensures
        sum_upto(s, j) == sum_upto(s, i),
    decreases j - i,
{
    if j > i {
        lemma_sum_upto_stops(s, i, j - 1);
    }
}

/// Once a min or max fails on a prefix, every longer prefix fails the
/// same way.
pub proof fn lemma_extreme_upto_stops(kind: AggKind, s: Seq<Value>, i: int, j: int)
    requires
        0 <= i <= j,
        extreme_upto(kind, s, i) is Err,
    ensures
        extreme_upto(kind, s, j) == extreme_upto(kind, s, i),
    decreases j - i,
{
    if j > i {
        lemma_extreme_upto_stops(kind, s, i, j - 1);
    }
}

/// The value of an aggregation over one group's cells: nulls are
/// skipped; a group whose cells are all null aggregates to null (0 for
/// count); `First` takes the group's first cell as it stands.
pub open spec fn agg_value(kind: AggKind, s: Seq<Value>) -> Result<Value, ErrorV> {
    match kind {
        AggKind::Sum => sum_upto(s, s.len() as int),
        AggKind::Min | AggKind::Max => extreme_upto(kind, s, s.len() as int),
        AggKind::Count => if count_upto(s, s.len() as int) <= i64::MAX {
            Ok(Value::Int(count_upto(s, s.len() as int) as i64))
        } else {
            Err(ErrorV::ExecutionFailure("aggregate count overflow"@))
        },
        AggKind::First => Ok(first_val(s)),
    }
}

/// A successful sum is an integer or null.
pub proof fn lemma_sum_upto_fits(s: Seq<Value>, i: int)
    requires
        sum_upto(s, i) is Ok,
    ensures
        value_fits(sum_upto(s, i)->Ok_0, DType::Int),
    decreases i,
{
    if i > 0 {
        lemma_sum_upto_fits(s, i - 1);
    }
}

/// A successful min or max is an integer or null.
pub proof fn lemma_extreme_upto_fits(kind: AggKind, s: Seq<Value>, i: int)
    requires
        extreme_upto(kind, s, i) is Ok,
    ensures
        value_fits(extreme_upto(kind, s, i)->Ok_0, DType::Int),
    decreases i,
{
    if i > 0 {
        lemma_extreme_upto_fits(kind, s, i - 1);
    }
}

/// A successful aggregation fits the output type that
/// [`agg_kind_type`] declares for it.
pub proof fn lemma_agg_value_fits(kind: AggKind, s: Seq<Value>, dt: DType)
    requires
        agg_kind_type(kind, dt) is Ok,
        forall|k: int| 0 <= k < s.len() ==> value_fits(#[trigger] s[k], dt),
        agg_value(kind, s) is Ok,
    ensures
        value_fits(agg_value(kind, s)->Ok_0, agg_kind_type(kind, dt)->Ok_0),
{
    match kind {
        AggKind::Sum => {
            lemma_sum_upto_fits(s, s.len() as int);
        },
        AggKind::Min | AggKind::Max => {
            lemma_extreme_upto_fits(kind, s, s.len() as int);
        },
        AggKind::Count => {},
        AggKind::First => {},
    }
}

/// The aggregated values of the first `g` groups, stopping at the first
/// failing group.
pub open spec fn agg_col(kind: AggKind, vals: Seq<Value>, groups: Seq<Seq<int>>, g: int) -> Result<
    Seq<Value>,
    ErrorV,
>
    decreases g,
{
    if g <= 0 {
        Ok(Seq::empty())
    } else {
        match agg_col(kind, vals, groups, g - 1) {
            Err(e) => Err(e),
            Ok(s) => match agg_value(kind, vals_at(vals, groups[g - 1])) {
                Err(e) => Err(e),
                Ok(v) => Ok(s.push(v)),
            },
        }
    }
}

/// Once a prefix of the groups fails, every longer prefix fails the
/// same way.
pub proof fn lemma_agg_col_stops(
    kind: AggKind,
    vals: Seq<Value>,
    groups: Seq<Seq<int>>,
    i: int,
    j: int,
)
    requires
        0 <= i <= j,
        agg_col(kind, vals, groups, i) is Err,
    ensures
        agg_col(kind, vals, groups, j) == agg_col(kind, vals, groups, i),
    decreases j - i,
{
    if j > i {
        lemma_agg_col_stops(kind, vals, groups, i, j - 1);
    }
}

/// The first value of each group, for a pass-through column.
pub open spec fn first_col(vals: Seq<Value>, groups: Seq<Seq<int>>) -> Seq<Value> {
    Seq::new(groups.len(), |g: int| first_val(vals_at(vals, groups[g])))
}

/// The first `i` input columns not named in `excl`, each passed through
/// as its groups' first values.
pub open spec fn pass_keep(t: TableV, excl: Seq<Seq<char>>, groups: Seq<Seq<int>>, i: int) -> TableV
    decreases i,
{
    if i <= 0 {
        TableV { names: Seq::empty(), dtypes: Seq::empty(), cols: Seq::empty() }
    } else {
        let prev = pass_keep(t, excl, groups, i - 1);
        if idx_of_name(excl, t.names[i - 1], 0) < excl.len() {
            prev
        } else {
            TableV {
                names: prev.names.push(t.names[i - 1]),
                dtypes: prev.dtypes.push(t.dtypes[i - 1]),
                cols: prev.cols.push(first_col(t.cols[i - 1], groups)),
            }
        }
    }
}

/// The output columns of one aggregate expression over the groups: the
/// wildcard passes through every non-key column by first value; an
/// aggregation folds its inner expression's cells group by group; an
/// alias renames a single column; a bare expression defaults to `first`.
pub open spec fn agg_expr_eval(
    a: Expr,
    t: TableV,
    keyn: Seq<Seq<char>>,
    groups: Seq<Seq<int>>,
) -> Result<TableV, ErrorV>
    decreases a,
{
    match a {
        Expr::Wildcard => Ok(pass_keep(t, keyn, groups, t.names.len() as int)),
        Expr::Exclude(inner, ns) => if *inner is Wildcard {
            Ok(pass_keep(t, keyn + names_view(ns), groups, t.names.len() as int))
        } else {
            Err(ErrorV::SchemaResolutionFailure("exclude must wrap the wildcard"@))
        },
        Expr::Agg(inner, kind) => match eval_expr_row(*inner, t) {
            Err(e) => Err(e),
            Ok((n, dt, vals)) => match agg_kind_type(kind, dt) {
                Err(e) => Err(e),
                Ok(dt2) => match agg_col(kind, vals, groups, groups.len() as int) {
                    Err(e) => Err(e),
                    Ok(col) => Ok(TableV { names: seq![n], dtypes: seq![dt2], cols: seq![col] }),
                },
            },
        },
        Expr::Alias(inner, n) => match agg_expr_eval(*inner, t, keyn, groups) {
            Err(e) => Err(e),
            Ok(sub) => if sub.names.len() == 1 {
                Ok(TableV { names: seq![n@], dtypes: sub.dtypes, cols: sub.cols })
            } else {
                Err(ErrorV::SchemaResolutionFailure("alias on a multi-column aggregate"@))
            },
        },
        _ => match eval_expr_row(a, t) {
            Err(e) => Err(e),
            Ok((n, dt, vals)) => Ok(
                TableV { names: seq![n], dtypes: seq![dt], cols: seq![first_col(vals, groups)] },
            ),
        },
    }
}

/// The concatenated output columns of the first `i` aggregate
/// expressions, stopping at the first error.
pub open spec fn aggs_eval(
    aggs: Seq<Expr>,
    t: TableV,
    keyn: Seq<Seq<char>>,
    groups: Seq<Seq<int>>,
    i: int,
) -> Result<TableV, ErrorV>
    decreases i,
{
    if i <= 0 {
        Ok(TableV { names: Seq::empty(), dtypes: Seq::empty(), cols: Seq::empty() })
    } else {
        match aggs_eval(aggs, t, keyn, groups, i - 1) {
            Err(e) => Err(e),
            Ok(acc) => match agg_expr_eval(aggs[i - 1], t, keyn, groups) {
                Err(e) => Err(e),
                Ok(sub) => Ok(
                    TableV {
                        names: acc.names + sub.names,
                        dtypes: acc.dtypes + sub.dtypes,
                        cols: acc.cols + sub.cols,
                    },
                ),
            },
        }
    }
}

/// Once a prefix of the aggregates fails, every longer prefix fails the
/// same way.
pub proof fn lemma_aggs_eval_stops(
    aggs: Seq<Expr>,
    t: TableV,
    keyn: Seq<Seq<char>>,
    groups: Seq<Seq<int>>,
    i: int,
    j: int,
)
    requires
        0 <= i <= j,
        aggs_eval(aggs, t, keyn, groups, i) is Err,
    ensures
        aggs_eval(aggs, t, keyn, groups, j) == aggs_eval(aggs, t, keyn, groups, i),
    decreases j - i,
{
    if j > i {
        lemma_aggs_eval_stops(aggs, t, keyn, groups, i, j - 1);
    }
}

/// The names, types and cells of the first `i` key expressions,
/// evaluated over the whole input, stopping at the first error.
pub open spec fn keys_eval(keys: Seq<Expr>, t: TableV, i: int) -> Result<TableV, ErrorV>
    decreases i,
{
    if i <= 0 {
        Ok(TableV { names: Seq::empty(), dtypes: Seq::empty(), cols: Seq::empty() })
    } else {
        match keys_eval(keys, t, i - 1) {
            Err(e) => Err(e),
            Ok(acc) => match eval_expr_row(keys[i - 1], t) {
                Err(e) => Err(e),
                Ok((n, dt, vals)) => Ok(
                    TableV {
                        names: acc.names.push(n),
                        dtypes: acc.dtypes.push(dt),
                        cols: acc.cols.push(vals),
                    },
                ),
            },
        }
    }
}

/// Once a prefix of the keys fails, every longer prefix fails the same way.
pub proof fn lemma_keys_eval_stops(keys: Seq<Expr>, t: TableV, i: int, j: int)
    requires
        0 <= i <= j,
        keys_eval(keys, t, i) is Err,
    ensures
        keys_eval(keys, t, j) == keys_eval(keys, t, i),
    decreases j - i,
{
    if j > i {
        lemma_keys_eval_stops(keys, t, i, j - 1);
    }
}

/// A successful key evaluation over a well-formed table yields one name,
/// one type and one column per key, every column as long as the input
/// and typed as declared.
pub proof fn lemma_keys_eval_wf(keys: Seq<Expr>, t: TableV, i: int)
    requires
        0 <= i,
        t.wf(),
        keys_eval(keys, t, i) is Ok,
    ensures
        keys_eval(keys, t, i)->Ok_0.names.len() == i,
        keys_eval(keys, t, i)->Ok_0.dtypes.len() == i,
        keys_eval(keys, t, i)->Ok_0.cols.len() == i,
        forall|k: int|
            0 <= k < i ==> (#[trigger] keys_eval(keys, t, i)->Ok_0.cols[k]).len() == t.nrows(),
        forall|k: int, r: int|
            0 <= k < i && 0 <= r < t.nrows() ==> value_fits(
                #[trigger] keys_eval(keys, t, i)->Ok_0.cols[k][r],
                keys_eval(keys, t, i)->Ok_0.dtypes[k],
            ),
    decreases i,
{
    if i > 0 {
        lemma_keys_eval_wf(keys, t, i - 1);
        lemma_eval_expr_row_wf(keys[i - 1], t);
        let prev = keys_eval(keys, t, i - 1)->Ok_0;
        let cur = keys_eval(keys, t, i)->Ok_0;
        assert forall|k: int|
            0 <= k < i implies (#[trigger] cur.cols[k]).len() == t.nrows() by {
            if k < i - 1 {
                assert(cur.cols[k] == prev.cols[k]);
            }
        }
        assert forall|k: int, r: int|
            0 <= k < i && 0 <= r < t.nrows() implies value_fits(
            #[trigger] cur.cols[k][r],
            cur.dtypes[k],
        ) by {
            if k < i - 1 {
                assert(cur.cols[k] == prev.cols[k]);
                assert(cur.dtypes[k] == prev.dtypes[k]);
            }
        }
    }
}

/// The group index columns of the distinct keys, in first-occurrence
/// order.
pub open spec fn gb_groups(kcols: Seq<Seq<Value>>, n: int) -> Seq<Seq<int>> {
    Seq::new(uniq_keys(kcols, n).len(), |g: int| group_rows(kcols, n, uniq_keys(kcols, n)[g]))
}

/// The result of a groupby-aggregate over a materialized input table:
/// key columns (one value per group, in first-occurrence order), then
/// aggregate columns, with a duplicate-name check over the whole output.
pub open spec fn gb_eval(t: TableV, keys: Seq<Expr>, aggs: Seq<Expr>) -> Result<TableV, ErrorV> {
    match keys_eval(keys, t, keys.len() as int) {
        Err(e) => Err(e),
        Ok(kt) => {
            let n = t.nrows();
            let uk = uniq_keys(kt.cols, n);
            let groups = gb_groups(kt.cols, n);
            match aggs_eval(aggs, t, kt.names, groups, aggs.len() as int) {
                Err(e) => Err(e),
                Ok(at) => {
                    let keycols = Seq::new(
                        kt.names.len(),
                        |k: int| Seq::new(uk.len(), |g: int| uk[g][k]),
                    );
                    let all = TableV {
                        names: kt.names + at.names,
                        dtypes: kt.dtypes + at.dtypes,
                        cols: keycols + at.cols,
                    };
                    let d = first_dup_name(all.names, 0);
                    if d < all.names.len() {
                        Err(ErrorV::DuplicateColumn(all.names[d]))
                    } else {
                        Ok(all)
                    }
                },
            }
        },
    }
}

/// The row indices of a vector, as mathematical integers.
pub open spec fn idxs_view(v: Vec<usize>) -> Seq<int> {
    v@.map_values(|x: usize| x as int)
}

/// The groups of a partition, each as its row indices.
pub open spec fn groups_view(g: Vec<Vec<usize>>) -> Seq<Seq<int>> {
    g@.map_values(|v: Vec<usize>| idxs_view(v))
}

/// Equality of two rows of values.
pub fn values_eq(a: &Vec<Value>, b: &Vec<Value>) -> (r: bool)
    ensures
        r == (a@ == b@),
{
    if a.len() != b.len() {
        proof {
            assert(a@ != b@);
        }
        return false;
    }
    let mut i: usize = 0;
    while i < a.len()
        invariant
            i <= a@.len(),
            a@.len() == b@.len(),
            forall|k: int| 0 <= k < i ==> a@[k] == b@[k],
        decreases a@.len() - i,
    {
        if !(a[i] == b[i]) {
            proof {
                assert(a@[i as int] != b@[i as int]);
            }
            return false;
        }
        i += 1;
    }
    proof {
        assert(a@ =~= b@);
    }
    true
}

/// The key tuple of row `r`, one value per key column.
pub fn key_tuple_exec(kcols: &Vec<Vec<Value>>, r: usize) -> (out: Vec<Value>)
    requires
        forall|j: int|
            0 <= j < cols_view(*kcols).len() ==> r < (#[trigger] cols_view(*kcols)[j]).len(),
    ensures
        out@ == key_tuple(cols_view(*kcols), r as int),
{
    let ghost kcv = cols_view(*kcols);
    proof {
        assert(kcv.len() == kcols@.len());
    }
    let mut out: Vec<Value> = Vec::new();
    let mut j: usize = 0;
    while j < kcols.len()
        invariant
            j <= kcols@.len(),
            kcv == cols_view(*kcols),
            kcv.len() == kcols@.len(),
            forall|q: int| 0 <= q < kcv.len() ==> r < (#[trigger] kcv[q]).len(),
            out@.len() == j,
            forall|k: int| 0 <= k < j ==> out@[k] == kcv[k][r as int],
        decreases kcols@.len() - j,
    {
        proof {
            assert(kcv[j as int] == kcols@[j as int]@);
        }
        out.push(kcols[j][r]);
        j += 1;
    }
    proof {
        assert(out@ =~= key_tuple(kcv, r as int));
    }
    out
}

/// The distinct key tuples of the first `n` rows, in first-occurrence
/// order.
pub fn uniq_of_keys(kcols: &Vec<Vec<Value>>, n: usize) -> (uniq: Vec<Vec<Value>>)
    requires
        forall|j: int|
            0 <= j < cols_view(*kcols).len() ==> (#[trigger] cols_view(*kcols)[j]).len() == n,
    ensures
        cols_view(uniq) == uniq_keys(cols_view(*kcols), n as int),
{
    let ghost kcv = cols_view(*kcols);
    let mut uniq: Vec<Vec<Value>> = Vec::new();
    proof {
        assert(cols_view(uniq) =~= uniq_keys(kcv, 0));
    }
    let mut r: usize = 0;
    while r < n
        invariant
            r <= n,
            kcv == cols_view(*kcols),
            forall|j: int| 0 <= j < kcv.len() ==> (#[trigger] kcv[j]).len() == n,
            cols_view(uniq) == uniq_keys(kcv, r as int),
        decreases n - r,
    {
        let kt = key_tuple_exec(kcols, r);
        let mut found: bool = false;
        let mut g: usize = 0;
        while g < uniq.len()
            invariant
                g <= uniq@.len(),
                kt@ == key_tuple(kcv, r as int),
                cols_view(uniq) == uniq_keys(kcv, r as int),
                found == exists|k: int| 0 <= k < g && cols_view(uniq)[k] == kt@,
            decreases uniq@.len() - g,
        {
            proof {
                assert(cols_view(uniq)[g as int] == uniq@[g as int]@);
            }
            if values_eq(&uniq[g], &kt) {
                found = true;
                proof {
                    assert(cols_view(uniq)[g as int] == kt@);
                }
            }
            g += 1;
        }
        if !found {
            proof {
                if uniq_keys(kcv, r as int).contains(kt@) {
                    let k = choose|k: int|
                        0 <= k < uniq_keys(kcv, r as int).len() && uniq_keys(kcv, r as int)[k]
                            == kt@;
                    assert(cols_view(uniq)[k] == kt@);
                }
            }
            uniq.push(kt);
            proof {
                assert(cols_view(uniq) =~= uniq_keys(kcv, r + 1));
            }
        } else {
            proof {
                let k = choose|k: int|
                    0 <= k < cols_view(uniq).len() && cols_view(uniq)[k] == kt@;
                assert(uniq_keys(kcv, r as int).contains(kt@));
            }
        }
        r += 1;
    }
    uniq
}

/// The rows among the first `n` whose key tuple is `kt`, in input order.
pub fn rows_of_key(kcols: &Vec<Vec<Value>>, n: usize, kt: &Vec<Value>) -> (rows: Vec<usize>)
    requires
        forall|j: int|
            0 <= j < cols_view(*kcols).len() ==> (#[trigger] cols_view(*kcols)[j]).len() == n,
    ensures
        idxs_view(rows) == group_rows(cols_view(*kcols), n as int, kt@),
{
    let ghost kcv = cols_view(*kcols);
    let mut rows: Vec<usize> = Vec::new();
    proof {
        assert(idxs_view(rows) =~= group_rows(kcv, 0, kt@));
    }
    let mut r: usize = 0;
    while r < n
        invariant
            r <= n,
            kcv == cols_view(*kcols),
            forall|j: int| 0 <= j < kcv.len() ==> (#[trigger] kcv[j]).len() == n,
            idxs_view(rows) == group_rows(kcv, r as int, kt@),
        decreases n - r,
    {
        let here = key_tuple_exec(kcols, r);
        if values_eq(&here, kt) {
            rows.push(r);
            proof {
                assert(idxs_view(rows) =~= group_rows(kcv, r + 1, kt@));
            }
        }
        r += 1;
    }
    rows
}

/// The first cell of a group, or null for an empty group.
pub fn first_of_rows(c: &Vec<Value>, rows: &Vec<usize>) -> (v: Value)
    requires
        forall|k: int| 0 <= k < rows@.len() ==> (#[trigger] rows@[k]) < c@.len(),
    ensures
        v == first_val(vals_at(c@, idxs_view(*rows))),
{
    if rows.len() == 0 {
        Value::Null
    } else {
        proof {
            assert(vals_at(c@, idxs_view(*rows))[0] == c@[rows@[0] as int]);
        }
        c[rows[0]]
    }
}

/// Folds one aggregation over the cells of one group.
pub fn fold_agg(kind: AggKind, c: &Vec<Value>, rows: &Vec<usize>) -> (r: Result<Value, Error>)
    requires
        forall|k: int| 0 <= k < rows@.len() ==> (#[trigger] rows@[k]) < c@.len(),
    ensures
        match agg_value(kind, vals_at(c@, idxs_view(*rows))) {
            Ok(v) => r == Ok::<Value, Error>(v),
            Err(e) => r matches Err(q) && q@ == e,
        },
{
    let ghost s = vals_at(c@, idxs_view(*rows));
    proof {
        assert(s.len() == rows@.len());
    }
    match kind {
        AggKind::First => Ok(first_of_rows(c, rows)),
        AggKind::Count => {
            let mut count: usize = 0;
            let mut i: usize = 0;
            while i < rows.len()
                invariant
                    i <= rows@.len(),
                    s == vals_at(c@, idxs_view(*rows)),
                    s.len() == rows@.len(),
                    forall|k: int| 0 <= k < rows@.len() ==> (#[trigger] rows@[k]) < c@.len(),
                    count <= i,
                    count as int == count_upto(s, i as int),
                decreases rows@.len() - i,
            {
                proof {
                    assert(s[i as int] == c@[rows@[i as int] as int]);
                }
                let v = c[rows[i]];
                if !matches!(v, Value::Null) {
                    count += 1;
                }
                i += 1;
            }
            if count as u64 <= i64::MAX as u64 {
                Ok(Value::Int(count as i64))
            } else {
                Err(Error::ExecutionFailure(String::from_str("aggregate count overflow")))
            }
        },
        AggKind::Sum => {
            let mut acc: Value = Value::Null;
            let mut i: usize = 0;
            while i < rows.len()
                invariant
                    i <= rows@.len(),
                    s == vals_at(c@, idxs_view(*rows)),
                    s.len() == rows@.len(),
                    matches!(kind, AggKind::Sum),
                    forall|k: int| 0 <= k < rows@.len() ==> (#[trigger] rows@[k]) < c@.len(),
                    sum_upto(s, i as int) == Ok::<Value, ErrorV>(acc),
                decreases rows@.len() - i,
            {
                proof {
                    assert(s[i as int] == c@[rows@[i as int] as int]);
                }
                let v = c[rows[i]];
                match v {
                    Value::Null => {},
                    Value::Bool(_) => {
                        proof {
                            lemma_sum_upto_stops(s, i + 1, s.len() as int);
                        }
                        return Err(
                            Error::TypeMismatch(DType::Int, DType::Bool, String::from_str("sum")),
                        );
                    },
                    Value::Int(x) => match acc {
                        Value::Null => {
                            acc = Value::Int(x);
                        },
                        Value::Int(a) => match a.checked_add(x) {
                            Some(z) => {
                                acc = Value::Int(z);
                            },
                            None => {
                                proof {
                                    lemma_sum_upto_stops(s, i + 1, s.len() as int);
                                }
                                return Err(
                                    Error::ExecutionFailure(
                                        String::from_str("arithmetic overflow"),
                                    ),
                                );
                            },
                        },
                        Value::Bool(_) => {
                            proof {
                                lemma_sum_upto_stops(s, i + 1, s.len() as int);
                            }
                            return Err(
                                Error::TypeMismatch(
                                    DType::Int,
                                    DType::Bool,
                                    String::from_str("sum"),
                                ),
                            );
                        },
                    },
                }
                i += 1;
            }
            Ok(acc)
        },
        AggKind::Min | AggKind::Max => {
            let mut acc: Value = Value::Null;
            let mut i: usize = 0;
            while i < rows.len()
                invariant
                    i <= rows@.len(),
                    s == vals_at(c@, idxs_view(*rows)),
                    s.len() == rows@.len(),
                    matches!(kind, AggKind::Min) || matches!(kind, AggKind::Max),
                    forall|k: int| 0 <= k < rows@.len() ==> (#[trigger] rows@[k]) < c@.len(),
                    extreme_upto(kind, s, i as int) == Ok::<Value, ErrorV>(acc),
                decreases rows@.len() - i,
            {
                proof {
                    assert(s[i as int] == c@[rows@[i as int] as int]);
                }
                let v = c[rows[i]];
                match v {
                    Value::Null => {},
                    Value::Bool(_) => {
                        proof {
                            lemma_extreme_upto_stops(kind, s, i + 1, s.len() as int);
                        }
                        return Err(
                            Error::TypeMismatch(DType::Int, DType::Bool, agg_label_str(kind)),
                        );
                    },
                    Value::Int(x) => match acc {
                        Value::Null => {
                            acc = Value::Int(x);
                        },
                        Value::Int(a) => {
                            let keep_new = if matches!(kind, AggKind::Min) {
                                x < a
                            } else {
                                x > a
                            };
                            if keep_new {
                                acc = Value::Int(x);
                            }
                        },
                        Value::Bool(_) => {
                            proof {
                                lemma_extreme_upto_stops(kind, s, i + 1, s.len() as int);
                            }
                            return Err(
                                Error::TypeMismatch(DType::Int, DType::Bool, agg_label_str(kind)),
                            );
                        },
                    },
                }
                i += 1;
            }
            Ok(acc)
        },
    }
}

/// Every group index of `groups` is a valid row of a table with `n` rows.
pub open spec fn groups_in_bounds(groups: Seq<Seq<int>>, n: int) -> bool {
    forall|g: int, k: int|
        0 <= g < groups.len() && 0 <= k < groups[g].len() ==> 0 <= #[trigger] groups[g][k] < n
}

/// Passes through every input column not named in `excl`, each as its
/// groups' first values.
pub fn pass_cols(t: &Table, excl: &Vec<String>, groups: &Vec<Vec<usize>>) -> (r: Table)
    requires
        t@.wf(),
        groups_in_bounds(groups_view(*groups), t@.nrows()),
    ensures
        r@ == pass_keep(t@, names_view(*excl), groups_view(*groups), t@.names.len() as int),
{
    let ghost tv = t@;
    let ghost exv = names_view(*excl);
    let ghost gv = groups_view(*groups);
    let mut names: Vec<String> = Vec::new();
    let mut dtypes: Vec<DType> = Vec::new();
    let mut cols: Vec<Vec<Value>> = Vec::new();
    proof {
        assert(names_view(names) =~= pass_keep(tv, exv, gv, 0).names);
        assert(dtypes@ =~= pass_keep(tv, exv, gv, 0).dtypes);
        assert(cols_view(cols) =~= pass_keep(tv, exv, gv, 0).cols);
        assert(tv.names.len() == t.names@.len());
    }
    let mut i: usize = 0;
    while i < t.names.len()
        invariant
            t@ == tv,
            tv.wf(),
            tv.names.len() == t.names@.len(),
            i <= t.names@.len(),
            exv == names_view(*excl),
            gv == groups_view(*groups),
            gv.len() == groups@.len(),
            groups_in_bounds(gv, tv.nrows()),
            names_view(names) == pass_keep(tv, exv, gv, i as int).names,
            dtypes@ == pass_keep(tv, exv, gv, i as int).dtypes,
            cols_view(cols) == pass_keep(tv, exv, gv, i as int).cols,
        decreases t.names@.len() - i,
    {
        proof {
            assert(tv.names[i as int] == t.names@[i as int]@);
            assert(exv.len() == excl@.len());
        }
        let j = find_name(excl, &t.names[i]);
        if j == excl.len() {
            proof {
                assert(tv.cols[i as int] == t.cols@[i as int]@);
                assert(tv.cols[i as int].len() == tv.nrows());
            }
            let src = &t.cols[i];
            let mut col: Vec<Value> = Vec::new();
            let mut g: usize = 0;
            while g < groups.len()
                invariant
                    g <= groups@.len(),
                    gv == groups_view(*groups),
                    gv.len() == groups@.len(),
                    groups_in_bounds(gv, src@.len() as int),
                    col@.len() == g,
                    forall|q: int|
                        0 <= q < g ==> col@[q] == first_val(vals_at(src@, gv[q])),
                decreases groups@.len() - g,
            {
                proof {
                    assert(gv[g as int] == idxs_view(groups@[g as int]));
                    assert forall|k: int|
                        0 <= k < groups@[g as int]@.len() implies (
                    #[trigger] groups@[g as int]@[k]) < src@.len() by {
                        assert(gv[g as int][k] == groups@[g as int]@[k] as int);
                        assert(0 <= gv[g as int][k] < src@.len());
                    }
                }
                let v = first_of_rows(src, &groups[g]);
                col.push(v);
                g += 1;
            }
            proof {
                assert(col@ =~= first_col(tv.cols[i as int], gv));
            }
            names.push(t.names[i].clone());
            dtypes.push(t.dtypes[i]);
            cols.push(col);
            proof {
                assert(idx_of_name(exv, tv.names[i as int], 0) == exv.len());
                assert(names_view(names) =~= pass_keep(tv, exv, gv, i + 1).names);
                assert(dtypes@ =~= pass_keep(tv, exv, gv, i + 1).dtypes);
                assert(cols_view(cols) =~= pass_keep(tv, exv, gv, i + 1).cols);
            }
        } else {
            proof {
                lemma_idx_of_name(exv, tv.names[i as int], 0);
                assert(idx_of_name(exv, tv.names[i as int], 0) < exv.len());
                assert(pass_keep(tv, exv, gv, i + 1) == pass_keep(tv, exv, gv, i as int));
            }
        }
        i += 1;
    }
    Table { names, dtypes, cols }
}

/// Evaluates one aggregate expression over the groups.
pub fn run_agg_expr(a: &Expr, t: &Table, keyn: &Vec<String>, groups: &Vec<Vec<usize>>) -> (r:
    Result<Table, Error>)
    requires
        t@.wf(),
        groups_in_bounds(groups_view(*groups), t@.nrows()),
    ensures
        match agg_expr_eval(*a, t@, names_view(*keyn), groups_view(*groups)) {
            Ok(tv) => r matches Ok(u) && u@ == tv,
            Err(e) => r matches Err(q) && q@ == e,
        },
    decreases *a,
{
    let ghost keynv = names_view(*keyn);
    let ghost gv = groups_view(*groups);
    match a {
        Expr::Wildcard => Ok(pass_cols(t, keyn, groups)),
        Expr::Exclude(inner, ns) => {
            if matches!(&**inner, Expr::Wildcard) {
                let mut excl = clone_names(keyn);
                let mut i: usize = 0;
                while i < ns.len()
                    invariant
                        i <= ns.len(),
                        keynv == names_view(*keyn),
                        names_view(excl).len() == keynv.len() + i,
                        forall|k: int| 0 <= k < keynv.len() ==> names_view(excl)[k] == keynv[k],
                        forall|k: int|
                            0 <= k < i ==> names_view(excl)[keynv.len() + k] == names_view(*ns)[k],
                    decreases ns.len() - i,
                {
                    excl.push(ns[i].clone());
                    i += 1;
                }
                proof {
                    assert(names_view(excl) =~= keynv + names_view(*ns));
                }
                Ok(pass_cols(t, &excl, groups))
            } else {
                Err(Error::SchemaResolutionFailure(String::from_str("exclude must wrap the wildcard")))
            }
        },
        Expr::Agg(inner, kind) => {
            let (n, dt, vals) = match eval_expr(&*inner, t) {
                Err(e) => {
                    return Err(e);
                },
                Ok(p) => p,
            };
            let dt2 = match agg_kind_type_of(*kind, dt) {
                Err(e) => {
                    return Err(e);
                },
                Ok(d) => d,
            };
            proof {
                lemma_eval_expr_row_wf(*(a->Agg_0), t@);
            }
            let mut col: Vec<Value> = Vec::new();
            let mut g: usize = 0;
            while g < groups.len()
                invariant
                    g <= groups@.len(),
                    gv == groups_view(*groups),
                    gv.len() == groups@.len(),
                    a is Agg,
                    *kind == a->Agg_1,
                    eval_expr_row(*(a->Agg_0), t@) matches Ok(p) && p.2 == vals@,
                    agg_kind_type(a->Agg_1, eval_expr_row(*(a->Agg_0), t@)->Ok_0.1) == Ok::<
                        DType,
                        ErrorV,
                    >(dt2),
                    vals@.len() == t@.nrows(),
                    groups_in_bounds(gv, vals@.len() as int),
                    agg_col(*kind, vals@, gv, g as int) == Ok::<Seq<Value>, ErrorV>(col@),
                decreases groups@.len() - g,
            {
                proof {
                    assert(gv[g as int] == idxs_view(groups@[g as int]));
                    assert forall|k: int|
                        0 <= k < groups@[g as int]@.len() implies (
                    #[trigger] groups@[g as int]@[k]) < vals@.len() by {
                        assert(gv[g as int][k] == groups@[g as int]@[k] as int);
                        assert(0 <= gv[g as int][k] < vals@.len());
                    }
                }
                match fold_agg(*kind, &vals, &groups[g]) {
                    Err(e) => {
                        proof {
                            lemma_agg_col_stops(*kind, vals@, gv, g + 1, gv.len() as int);
                        }
                        return Err(e);
                    },
                    Ok(v) => {
                        col.push(v);
                    },
                }
                g += 1;
            }
            let names: Vec<String> = vec![n];
            let dtypes: Vec<DType> = vec![dt2];
            let cols: Vec<Vec<Value>> = vec![col];
            proof {
                assert(names_view(names) =~= seq![eval_expr_row(*(a->Agg_0), t@)->Ok_0.0]);
                assert(dtypes@ =~= seq![
                    agg_kind_type(a->Agg_1, eval_expr_row(*(a->Agg_0), t@)->Ok_0.1)->Ok_0,
                ]);
                assert(cols_view(cols) =~= seq![
                    agg_col(
                        a->Agg_1,
                        eval_expr_row(*(a->Agg_0), t@)->Ok_0.2,
                        gv,
                        gv.len() as int,
                    )->Ok_0,
                ]);
            }
            Ok(Table { names, dtypes, cols })
        },
        Expr::Alias(inner, n) => match run_agg_expr(&*inner, t, keyn, groups) {
            Err(e) => Err(e),
            Ok(sub) => {
                if sub.names.len() == 1 {
                    let names: Vec<String> = vec![n.clone()];
                    proof {
                        assert(names_view(names) =~= seq![n@]);
                    }
                    Ok(Table { names, dtypes: sub.dtypes, cols: sub.cols })
                } else {
                    Err(
                        Error::SchemaResolutionFailure(
                            String::from_str("alias on a multi-column aggregate"),
                        ),
                    )
                }
            },
        },
        _ => {
            let (n, dt, vals) = match eval_expr(a, t) {
                Err(e) => {
                    return Err(e);
                },
                Ok(p) => p,
            };
            proof {
                lemma_eval_expr_row_wf(*a, t@);
            }
            let mut col: Vec<Value> = Vec::new();
            let mut g: usize = 0;
            while g < groups.len()
                invariant
                    g <= groups@.len(),
                    gv == groups_view(*groups),
                    gv.len() == groups@.len(),
                    vals@.len() == t@.nrows(),
                    groups_in_bounds(gv, vals@.len() as int),
                    col@.len() == g,
                    forall|q: int| 0 <= q < g ==> col@[q] == first_val(vals_at(vals@, gv[q])),
                decreases groups@.len() - g,
            {
                proof {
                    assert(gv[g as int] == idxs_view(groups@[g as int]));
                    assert forall|k: int|
                        0 <= k < groups@[g as int]@.len() implies (
                    #[trigger] groups@[g as int]@[k]) < vals@.len() by {
                        assert(gv[g as int][k] == groups@[g as int]@[k] as int);
                        assert(0 <= gv[g as int][k] < vals@.len());
                    }
                }
                let v = first_of_rows(&vals, &groups[g]);
                col.push(v);
                g += 1;
            }
            let names: Vec<String> = vec![n];
            let dtypes: Vec<DType> = vec![dt];
            let ghost valsv = vals@;
            let cols: Vec<Vec<Value>> = vec![col];
            proof {
                assert(names_view(names) =~= seq![eval_expr_row(*a, t@)->Ok_0.0]);
                assert(dtypes@ =~= seq![eval_expr_row(*a, t@)->Ok_0.1]);
                assert(cols_view(cols)[0] =~= first_col(valsv, gv));
                assert(cols_view(cols) =~= seq![first_col(eval_expr_row(*a, t@)->Ok_0.2, gv)]);
            }
            Ok(Table { names, dtypes, cols })
        },
    }
}


/// Evaluates all key expressions over the input table.
pub fn run_keys(keys: &Vec<Expr>, t: &Table) -> (r: Result<Table, Error>)
    requires
        t@.wf(),
    ensures
        match keys_eval(keys@, t@, keys@.len() as int) {
            Ok(tv) => r matches Ok(u) && u@ == tv,
            Err(e) => r matches Err(q) && q@ == e,
        },
{
    let mut names: Vec<String> = Vec::new();
    let mut dtypes: Vec<DType> = Vec::new();
    let mut cols: Vec<Vec<Value>> = Vec::new();
    proof {
        assert(names_view(names) =~= Seq::<Seq<char>>::empty());
        assert(dtypes@ =~= Seq::<DType>::empty());
        assert(cols_view(cols) =~= Seq::<Seq<Value>>::empty());
    }
    let mut i: usize = 0;
    while i < keys.len()
        invariant
            t@.wf(),
            i <= keys@.len(),
            keys_eval(keys@, t@, i as int) == Ok::<TableV, ErrorV>(
                TableV { names: names_view(names), dtypes: dtypes@, cols: cols_view(cols) },
            ),
        decreases keys.len() - i,
    {
        match eval_expr(&keys[i], t) {
            Err(e) => {
                proof {
                    lemma_keys_eval_stops(keys@, t@, i + 1, keys@.len() as int);
                }
                return Err(e);
            },
            Ok((n, dt, vals)) => {
                let ghost prev = keys_eval(keys@, t@, i as int)->Ok_0;
                names.push(n);
                dtypes.push(dt);
                cols.push(vals);
                proof {
                    assert(names_view(names) =~= prev.names.push(
                        eval_expr_row(keys@[i as int], t@)->Ok_0.0,
                    ));
                    assert(cols_view(cols) =~= prev.cols.push(
                        eval_expr_row(keys@[i as int], t@)->Ok_0.2,
                    ));
                }
            },
        }
        i += 1;
    }
    Ok(Table { names, dtypes, cols })
}

/// Evaluates all aggregate expressions over the groups, concatenating
/// their output columns.
pub fn run_aggs(aggs: &Vec<Expr>, t: &Table, keyn: &Vec<String>, groups: &Vec<Vec<usize>>) -> (r:
    Result<Table, Error>)
    requires
        t@.wf(),
        groups_in_bounds(groups_view(*groups), t@.nrows()),
    ensures
        match aggs_eval(
            aggs@,
            t@,
            names_view(*keyn),
            groups_view(*groups),
            aggs@.len() as int,
        ) {
            Ok(tv) => r matches Ok(u) && u@ == tv,
            Err(e) => r matches Err(q) && q@ == e,
        },
{
    let ghost keynv = names_view(*keyn);
    let ghost gv = groups_view(*groups);
    let mut names: Vec<String> = Vec::new();
    let mut dtypes: Vec<DType> = Vec::new();
    let mut cols: Vec<Vec<Value>> = Vec::new();
    proof {
        assert(names_view(names) =~= Seq::<Seq<char>>::empty());
        assert(dtypes@ =~= Seq::<DType>::empty());
        assert(cols_view(cols) =~= Seq::<Seq<Value>>::empty());
    }
    let mut i: usize = 0;
    while i < aggs.len()
        invariant
            t@.wf(),
            i <= aggs@.len(),
            keynv == names_view(*keyn),
            gv == groups_view(*groups),
            groups_in_bounds(gv, t@.nrows()),
            aggs_eval(aggs@, t@, keynv, gv, i as int) == Ok::<TableV, ErrorV>(
                TableV { names: names_view(names), dtypes: dtypes@, cols: cols_view(cols) },
            ),
        decreases aggs.len() - i,
    {
        match run_agg_expr(&aggs[i], t, keyn, groups) {
            Err(e) => {
                proof {
                    lemma_aggs_eval_stops(aggs@, t@, keynv, gv, i + 1, aggs@.len() as int);
                }
                return Err(e);
            },
            Ok(sub) => {
                let ghost base_n = names_view(names);
                let ghost base_d = dtypes@;
                let ghost base_c = cols_view(cols);
                let ghost subv = sub@;
                let Table { names: sn, dtypes: sd, cols: sc } = sub;
                let mut k: usize = 0;
                while k < sn.len()
                    invariant
                        k <= sn@.len(),
                        subv.names == names_view(sn),
                        subv.names.len() == sn@.len(),
                        names_view(names).len() == base_n.len() + k,
                        forall|q: int| 0 <= q < base_n.len() ==> names_view(names)[q] == base_n[q],
                        forall|q: int|
                            0 <= q < k ==> names_view(names)[base_n.len() + q] == subv.names[q],
                    decreases sn@.len() - k,
                {
                    proof {
                        assert(subv.names[k as int] == sn@[k as int]@);
                    }
                    names.push(sn[k].clone());
                    k += 1;
                }
                let mut k: usize = 0;
                while k < sd.len()
                    invariant
                        k <= sd@.len(),
                        subv.dtypes == sd@,
                        dtypes@.len() == base_d.len() + k,
                        forall|q: int| 0 <= q < base_d.len() ==> dtypes@[q] == base_d[q],
                        forall|q: int| 0 <= q < k ==> dtypes@[base_d.len() + q] == subv.dtypes[q],
                    decreases sd@.len() - k,
                {
                    dtypes.push(sd[k]);
                    k += 1;
                }
                let mut sc = sc;
                let mut k: usize = 0;
                while k < sc.len()
                    invariant
                        k <= sc@.len(),
                        subv.cols.len() + k == sc@.len() + k,
                        subv.cols == cols_view(sc).skip(0),
                        subv.cols.len() == sc@.len(),
                        cols_view(cols).len() == base_c.len() + k,
                        forall|q: int|
                            0 <= q < base_c.len() ==> cols_view(cols)[q] == base_c[q],
                        forall|q: int|
                            0 <= q < k ==> cols_view(cols)[base_c.len() + q] == subv.cols[q],
                        forall|q: int|
                            k <= q < sc@.len() ==> cols_view(sc)[q] == subv.cols[q],
                    decreases sc@.len() - k,
                {
                    proof {
                        assert(cols_view(sc)[k as int] == sc@[k as int]@);
                    }
                    let c = copy_col(&sc[k]);
                    cols.push(c);
                    k += 1;
                }
                proof {
                    assert(names_view(names) =~= base_n + subv.names);
                    assert(dtypes@ =~= base_d + subv.dtypes);
                    assert(cols_view(cols) =~= base_c + subv.cols);
                }
            },
        }
        i += 1;
    }
    Ok(Table { names, dtypes, cols })
}

/// Executes a groupby-aggregate over a materialized input table.
pub fn run_groupby(t: &Table, keys: &Vec<Expr>, aggs: &Vec<Expr>) -> (r: Result<Table, Error>)
    requires
        t@.wf(),
    ensures
        match gb_eval(t@, keys@, aggs@) {
            Ok(tv) => r matches Ok(u) && u@ == tv,
            Err(e) => r matches Err(q) && q@ == e,
        },
{
    let kt = match run_keys(keys, t) {
        Err(e) => {
            return Err(e);
        },
        Ok(x) => x,
    };
    proof {
        lemma_keys_eval_wf(keys@, t@, keys@.len() as int);
    }
    let Table { names: ktn, dtypes: ktd, cols: kcols } = kt;
    let ghost kcv = cols_view(kcols);
    let n = t.n_rows();
    proof {
        assert(kcv.len() == kcols@.len());
        assert(forall|j: int| 0 <= j < kcv.len() ==> (#[trigger] kcv[j]).len() == n);
    }
    let uniq = uniq_of_keys(&kcols, n);
    let ghost ukv = uniq_keys(kcv, n as int);
    proof {
        lemma_uniq_keys_members(kcv, n as int);
        assert(cols_view(uniq).len() == uniq@.len());
    }
    let mut groups: Vec<Vec<usize>> = Vec::new();
    let mut g: usize = 0;
    while g < uniq.len()
        invariant
            g <= uniq@.len(),
            kcv == cols_view(kcols),
            cols_view(uniq) == ukv,
            ukv.len() == uniq@.len(),
            forall|j: int| 0 <= j < kcv.len() ==> (#[trigger] kcv[j]).len() == n,
            groups@.len() == g,
            forall|q: int|
                0 <= q < g ==> idxs_view(#[trigger] groups@[q]) == group_rows(
                    kcv,
                    n as int,
                    ukv[q],
                ),
        decreases uniq@.len() - g,
    {
        proof {
            assert(cols_view(uniq)[g as int] == uniq@[g as int]@);
        }
        let rows = rows_of_key(&kcols, n, &uniq[g]);
        groups.push(rows);
        g += 1;
    }
    proof {
        assert(groups_view(groups) =~= gb_groups(kcv, n as int)) by {
            assert forall|q: int|
                0 <= q < groups@.len() implies groups_view(groups)[q] == gb_groups(
                kcv,
                n as int,
            )[q] by {
                assert(groups_view(groups)[q] == idxs_view(groups@[q]));
            }
        }
        assert(groups_in_bounds(groups_view(groups), t@.nrows())) by {
            assert forall|q: int, k: int|
                0 <= q < groups_view(groups).len() && 0 <= k < groups_view(groups)[q].len()
                    implies 0 <= #[trigger] groups_view(groups)[q][k] < t@.nrows() by {
                lemma_group_rows_bounds(kcv, n as int, ukv[q]);
                assert(groups_view(groups)[q] == group_rows(kcv, n as int, ukv[q]));
            }
        }
    }
    let at = match run_aggs(aggs, t, &ktn, &groups) {
        Err(e) => {
            return Err(e);
        },
        Ok(x) => x,
    };
    // key output columns: one value per group, in first-occurrence order
    let mut keycols: Vec<Vec<Value>> = Vec::new();
    let mut k: usize = 0;
    while k < ktn.len()
        invariant
            k <= ktn@.len(),
            kcv == cols_view(kcols),
            kcv.len() == ktn@.len(),
            cols_view(uniq) == ukv,
            ukv.len() == uniq@.len(),
            forall|q: int| 0 <= q < ukv.len() ==> (#[trigger] ukv[q]).len() == kcv.len(),
            keycols@.len() == k,
            forall|q: int|
                0 <= q < k ==> (#[trigger] keycols@[q])@ == Seq::new(
                    ukv.len(),
                    |g2: int| ukv[g2][q],
                ),
        decreases ktn@.len() - k,
    {
        let mut col: Vec<Value> = Vec::new();
        let mut g: usize = 0;
        while g < uniq.len()
            invariant
                g <= uniq@.len(),
                k < ktn@.len(),
                kcv.len() == ktn@.len(),
                cols_view(uniq) == ukv,
                ukv.len() == uniq@.len(),
                forall|q: int| 0 <= q < ukv.len() ==> (#[trigger] ukv[q]).len() == kcv.len(),
                col@.len() == g,
                forall|q: int| 0 <= q < g ==> col@[q] == ukv[q][k as int],
            decreases uniq@.len() - g,
        {
            proof {
                assert(cols_view(uniq)[g as int] == uniq@[g as int]@);
                assert(ukv[g as int].len() == kcv.len());
            }
            col.push(uniq[g][k]);
            g += 1;
        }
        proof {
            assert(col@ =~= Seq::new(ukv.len(), |g2: int| ukv[g2][k as int]));
        }
        keycols.push(col);
        k += 1;
    }
    // assemble: key columns then aggregate columns
    let ghost ktv = keys_eval(keys@, t@, keys@.len() as int)->Ok_0;
    let ghost atv = aggs_eval(
        aggs@,
        t@,
        ktv.names,
        gb_groups(kcv, n as int),
        aggs@.len() as int,
    )->Ok_0;
    let mut names = ktn;
    let mut dtypes = ktd;
    let mut cols = keycols;
    let ghost base_n = names_view(names);
    let ghost base_d = dtypes@;
    let ghost base_c = cols_view(cols);
    proof {
        assert(base_c =~= Seq::new(ktv.names.len(), |q: int| Seq::new(ukv.len(), |g2: int| ukv[g2][q])));
    }
    let Table { names: an, dtypes: ad, cols: ac } = at;
    let ghost anv = names_view(an);
    let mut k: usize = 0;
    while k < an.len()
        invariant
            k <= an@.len(),
            anv == names_view(an),
            anv.len() == an@.len(),
            names_view(names).len() == base_n.len() + k,
            forall|q: int| 0 <= q < base_n.len() ==> names_view(names)[q] == base_n[q],
            forall|q: int| 0 <= q < k ==> names_view(names)[base_n.len() + q] == anv[q],
        decreases an@.len() - k,
    {
        proof {
            assert(anv[k as int] == an@[k as int]@);
        }
        names.push(an[k].clone());
        k += 1;
    }
    let mut k: usize = 0;
    while k < ad.len()
        invariant
            k <= ad@.len(),
            dtypes@.len() == base_d.len() + k,
            forall|q: int| 0 <= q < base_d.len() ==> dtypes@[q] == base_d[q],
            forall|q: int| 0 <= q < k ==> dtypes@[base_d.len() + q] == ad@[q],
        decreases ad@.len() - k,
    {
        dtypes.push(ad[k]);
        k += 1;
    }
    let ghost acv = cols_view(ac);
    let mut ac = ac;
    let mut k: usize = 0;
    while k < ac.len()
        invariant
            k <= ac@.len(),
            acv.len() == ac@.len(),
            forall|q: int| 0 <= q < ac@.len() ==> cols_view(ac)[q] == acv[q],
            cols_view(cols).len() == base_c.len() + k,
            forall|q: int| 0 <= q < base_c.len() ==> cols_view(cols)[q] == base_c[q],
            forall|q: int| 0 <= q < k ==> cols_view(cols)[base_c.len() + q] == acv[q],
        decreases ac@.len() - k,
    {
        proof {
            assert(cols_view(ac)[k as int] == ac@[k as int]@);
        }
        let c = copy_col(&ac[k]);
        cols.push(c);
        k += 1;
    }
    proof {
        assert(names_view(names) =~= ktv.names + anv);
        assert(dtypes@ =~= ktv.dtypes + atv.dtypes);
        assert(cols_view(cols) =~= base_c + acv);
    }
    let d = find_first_dup(&names);
    if d < names.len() {
        proof {
            assert(names_view(names)[d as int] == names@[d as int]@);
        }
        return Err(Error::DuplicateColumn(names[d].clone()));
    }
    Ok(Table { names, dtypes, cols })
}


/// A successful per-group aggregation column has one value per group,
/// each fitting the aggregation's output type.
pub proof fn lemma_agg_col_wf(
    kind: AggKind,
    vals: Seq<Value>,
    groups: Seq<Seq<int>>,
    dt: DType,
    g: int,
)
    requires
        0 <= g <= groups.len(),
        agg_kind_type(kind, dt) is Ok,
        forall|k: int| 0 <= k < vals.len() ==> value_fits(#[trigger] vals[k], dt),
        groups_in_bounds(groups, vals.len() as int),
        agg_col(kind, vals, groups, g) is Ok,
    ensures
        agg_col(kind, vals, groups, g)->Ok_0.len() == g,
        forall|q: int|
            0 <= q < g ==> value_fits(
                #[trigger] agg_col(kind, vals, groups, g)->Ok_0[q],
                agg_kind_type(kind, dt)->Ok_0,
            ),
    decreases g,
{
    if g > 0 {
        lemma_agg_col_wf(kind, vals, groups, dt, g - 1);
        let s = vals_at(vals, groups[g - 1]);
        assert(forall|k: int| 0 <= k < s.len() ==> value_fits(#[trigger] s[k], dt)) by {
            assert(forall|k: int|
                0 <= k < s.len() ==> #[trigger] s[k] == vals[groups[g - 1][k]]);
        }
        lemma_agg_value_fits(kind, s, dt);
        let prev = agg_col(kind, vals, groups, g - 1)->Ok_0;
        let cur = agg_col(kind, vals, groups, g)->Ok_0;
        assert forall|q: int|
            0 <= q < g implies value_fits(#[trigger] cur[q], agg_kind_type(kind, dt)->Ok_0) by {
            if q < g - 1 {
                assert(cur[q] == prev[q]);
            } else {
                assert(cur[q] == agg_value(kind, s)->Ok_0);
            }
        }
    }
}

/// The pass-through columns are well-typed, one value per group.
pub proof fn lemma_pass_keep_wf(t: TableV, excl: Seq<Seq<char>>, groups: Seq<Seq<int>>, i: int)
    requires
        t.wf(),
        0 <= i <= t.names.len(),
        groups_in_bounds(groups, t.nrows()),
    ensures
        pass_keep(t, excl, groups, i).names.len() == pass_keep(t, excl, groups, i).dtypes.len(),
        pass_keep(t, excl, groups, i).names.len() == pass_keep(t, excl, groups, i).cols.len(),
        forall|q: int|
            0 <= q < pass_keep(t, excl, groups, i).cols.len() ==> (#[trigger] pass_keep(
                t,
                excl,
                groups,
                i,
            ).cols[q]).len() == groups.len(),
        forall|q: int, g: int|
            0 <= q < pass_keep(t, excl, groups, i).cols.len() && 0 <= g < groups.len()
                ==> value_fits(
                #[trigger] pass_keep(t, excl, groups, i).cols[q][g],
                pass_keep(t, excl, groups, i).dtypes[q],
            ),
    decreases i,
{
    if i > 0 {
        lemma_pass_keep_wf(t, excl, groups, i - 1);
        let prev = pass_keep(t, excl, groups, i - 1);
        let cur = pass_keep(t, excl, groups, i);
        if !(idx_of_name(excl, t.names[i - 1], 0) < excl.len()) {
            let newcol = first_col(t.cols[i - 1], groups);
            assert(newcol.len() == groups.len());
            assert forall|q: int, g: int|
                0 <= q < cur.cols.len() && 0 <= g < groups.len() implies value_fits(
                #[trigger] cur.cols[q][g],
                cur.dtypes[q],
            ) by {
                if q < prev.cols.len() {
                    assert(cur.cols[q] == prev.cols[q]);
                    assert(cur.dtypes[q] == prev.dtypes[q]);
                } else {
                    assert(cur.cols[q] == newcol);
                    assert(cur.dtypes[q] == t.dtypes[i - 1]);
                    let s = vals_at(t.cols[i - 1], groups[g]);
                    assert(newcol[g] == first_val(s));
                    if s.len() > 0 {
                        assert(s[0] == t.cols[i - 1][groups[g][0]]);
                    }
                }
            }
            assert forall|q: int|
                0 <= q < cur.cols.len() implies (#[trigger] cur.cols[q]).len()
                == groups.len() by {
                if q < prev.cols.len() {
                    assert(cur.cols[q] == prev.cols[q]);
                } else {
                    assert(cur.cols[q] == newcol);
                }
            }
        }
    }
}

/// A successful aggregate expression yields arity-consistent columns,
/// one value per group, each fitting its column's type.
pub proof fn lemma_agg_expr_eval_wf(a: Expr, t: TableV, keyn: Seq<Seq<char>>, groups: Seq<Seq<int>>)
    requires
        t.wf(),
        groups_in_bounds(groups, t.nrows()),
        agg_expr_eval(a, t, keyn, groups) is Ok,
    ensures
        agg_expr_eval(a, t, keyn, groups)->Ok_0.names.len() == agg_expr_eval(
            a,
            t,
            keyn,
            groups,
        )->Ok_0.dtypes.len(),
        agg_expr_eval(a, t, keyn, groups)->Ok_0.names.len() == agg_expr_eval(
            a,
            t,
            keyn,
            groups,
        )->Ok_0.cols.len(),
        forall|q: int|
            0 <= q < agg_expr_eval(a, t, keyn, groups)->Ok_0.cols.len() ==> (
            #[trigger] agg_expr_eval(a, t, keyn, groups)->Ok_0.cols[q]).len() == groups.len(),
        forall|q: int, g: int|
            0 <= q < agg_expr_eval(a, t, keyn, groups)->Ok_0.cols.len() && 0 <= g < groups.len()
                ==> value_fits(
                #[trigger] agg_expr_eval(a, t, keyn, groups)->Ok_0.cols[q][g],
                agg_expr_eval(a, t, keyn, groups)->Ok_0.dtypes[q],
            ),
    decreases a,
{
    match a {
        Expr::Wildcard => {
            lemma_pass_keep_wf(t, keyn, groups, t.names.len() as int);
        },
        Expr::Exclude(inner, ns) => {
            lemma_pass_keep_wf(t, keyn + names_view(ns), groups, t.names.len() as int);
        },
        Expr::Agg(inner, kind) => {
            lemma_eval_expr_row_wf(*inner, t);
            let vals = eval_expr_row(*inner, t)->Ok_0.2;
            let dt = eval_expr_row(*inner, t)->Ok_0.1;
            lemma_agg_col_wf(kind, vals, groups, dt, groups.len() as int);
        },
        Expr::Alias(inner, n) => {
            lemma_agg_expr_eval_wf(*inner, t, keyn, groups);
            let sub = agg_expr_eval(*inner, t, keyn, groups)->Ok_0;
            let cur = agg_expr_eval(a, t, keyn, groups)->Ok_0;
            assert(cur.cols == sub.cols);
            assert(cur.dtypes == sub.dtypes);
        },
        _ => {
            lemma_eval_expr_row_wf(a, t);
            let vals = eval_expr_row(a, t)->Ok_0.2;
            let cur = agg_expr_eval(a, t, keyn, groups)->Ok_0;
            assert(cur.cols[0] == first_col(vals, groups));
            assert forall|q: int, g: int|
                0 <= q < cur.cols.len() && 0 <= g < groups.len() implies value_fits(
                #[trigger] cur.cols[q][g],
                cur.dtypes[q],
            ) by {
                let s = vals_at(vals, groups[g]);
                assert(cur.cols[q][g] == first_val(s));
                if s.len() > 0 {
                    assert(s[0] == vals[groups[g][0]]);
                }
            }
        },
    }
}

/// Successful aggregate evaluation yields arity-consistent, well-typed
/// columns, one value per group.
pub proof fn lemma_aggs_eval_wf(
    aggs: Seq<Expr>,
    t: TableV,
    keyn: Seq<Seq<char>>,
    groups: Seq<Seq<int>>,
    i: int,
)
    requires
        0 <= i,
        t.wf(),
        groups_in_bounds(groups, t.nrows()),
        aggs_eval(aggs, t, keyn, groups, i) is Ok,
    ensures
        aggs_eval(aggs, t, keyn, groups, i)->Ok_0.names.len() == aggs_eval(
            aggs,
            t,
            keyn,
            groups,
            i,
        )->Ok_0.dtypes.len(),
        aggs_eval(aggs, t, keyn, groups, i)->Ok_0.names.len() == aggs_eval(
            aggs,
            t,
            keyn,
            groups,
            i,
        )->Ok_0.cols.len(),
        forall|q: int|
            0 <= q < aggs_eval(aggs, t, keyn, groups, i)->Ok_0.cols.len() ==> (
            #[trigger] aggs_eval(aggs, t, keyn, groups, i)->Ok_0.cols[q]).len() == groups.len(),
        forall|q: int, g: int|
            0 <= q < aggs_eval(aggs, t, keyn, groups, i)->Ok_0.cols.len() && 0 <= g
                < groups.len() ==> value_fits(
                #[trigger] aggs_eval(aggs, t, keyn, groups, i)->Ok_0.cols[q][g],
                aggs_eval(aggs, t, keyn, groups, i)->Ok_0.dtypes[q],
            ),
    decreases i,
{
    if i > 0 {
        lemma_aggs_eval_wf(aggs, t, keyn, groups, i - 1);
        lemma_agg_expr_eval_wf(aggs[i - 1], t, keyn, groups);
        let prev = aggs_eval(aggs, t, keyn, groups, i - 1)->Ok_0;
        let sub = agg_expr_eval(aggs[i - 1], t, keyn, groups)->Ok_0;
        let cur = aggs_eval(aggs, t, keyn, groups, i)->Ok_0;
        assert forall|q: int|
            0 <= q < cur.cols.len() implies (#[trigger] cur.cols[q]).len() == groups.len() by {
            if q < prev.cols.len() {
                assert(cur.cols[q] == prev.cols[q]);
            } else {
                assert(cur.cols[q] == sub.cols[q - prev.cols.len()]);
            }
        }
        assert forall|q: int, g: int|
            0 <= q < cur.cols.len() && 0 <= g < groups.len() implies value_fits(
            #[trigger] cur.cols[q][g],
            cur.dtypes[q],
        ) by {
            if q < prev.cols.len() {
                assert(cur.cols[q] == prev.cols[q]);
                assert(cur.dtypes[q] == prev.dtypes[q]);
            } else {
                assert(cur.cols[q] == sub.cols[q - prev.cols.len()]);
                assert(cur.dtypes[q] == sub.dtypes[q - prev.dtypes.len()]);
            }
        }
    }
}

/// A successful groupby-aggregate over a well-formed table is
/// well-formed, with one row per distinct key.
pub proof fn lemma_gb_eval_wf(t: TableV, keys: Seq<Expr>, aggs: Seq<Expr>)
    requires
        t.wf(),
        gb_eval(t, keys, aggs) is Ok,
    ensures
        gb_eval(t, keys, aggs)->Ok_0.wf(),
        gb_eval(t, keys, aggs)->Ok_0.nrows() == (if gb_eval(t, keys, aggs)->Ok_0.cols.len() == 0 {
            0int
        } else {
            uniq_keys(keys_eval(keys, t, keys.len() as int)->Ok_0.cols, t.nrows()).len() as int
        }),
{
    let kt = keys_eval(keys, t, keys.len() as int)->Ok_0;
    lemma_keys_eval_wf(keys, t, keys.len() as int);
    let n = t.nrows();
    let uk = uniq_keys(kt.cols, n);
    let groups = gb_groups(kt.cols, n);
    lemma_uniq_keys_members(kt.cols, n);
    assert(groups_in_bounds(groups, n)) by {
        assert forall|g: int, k: int|
            0 <= g < groups.len() && 0 <= k < groups[g].len() implies 0 <= #[trigger] groups[g][k]
            < n by {
            lemma_group_rows_bounds(kt.cols, n, uk[g]);
            assert(groups[g] == group_rows(kt.cols, n, uk[g]));
        }
    }
    let at = aggs_eval(aggs, t, kt.names, groups, aggs.len() as int)->Ok_0;
    lemma_aggs_eval_wf(aggs, t, kt.names, groups, aggs.len() as int);
    let keycols = Seq::new(kt.names.len(), |k: int| Seq::new(uk.len(), |g: int| uk[g][k]));
    let all = gb_eval(t, keys, aggs)->Ok_0;
    assert(all.names == kt.names + at.names);
    assert(all.cols == keycols + at.cols);
    lemma_first_dup_name(all.names, 0);
    lemma_no_dup_distinct(all.names);
    assert forall|j: int| 0 <= j < all.cols.len() implies (#[trigger] all.cols[j]).len()
        == uk.len() by {
        if j < keycols.len() {
            assert(all.cols[j] == keycols[j]);
        } else {
            assert(all.cols[j] == at.cols[j - keycols.len()]);
        }
    }
    assert forall|j: int, rr: int|
        0 <= j < all.cols.len() && 0 <= rr < uk.len() implies value_fits(
        #[trigger] all.cols[j][rr],
        all.dtypes[j],
    ) by {
        if j < keycols.len() {
            assert(all.cols[j] == keycols[j]);
            assert(all.dtypes[j] == kt.dtypes[j]);
            assert(all.cols[j][rr] == uk[rr][j]);
            let r0 = choose|r: int| 0 <= r < n && #[trigger] uk[rr] == key_tuple(kt.cols, r);
            assert(uk[rr][j] == kt.cols[j][r0]);
        } else {
            assert(all.cols[j] == at.cols[j - keycols.len()]);
            assert(all.dtypes[j] == at.dtypes[j - keycols.len()]);
        }
    }
    if all.cols.len() > 0 {
        assert(all.cols[0].len() == uk.len());
    }
}

/// The first row at or after `i` (and below `n`) whose key tuple is
/// `kt`, or `n` when there is none.
pub open spec fn first_row_of(kcols: Seq<Seq<Value>>, n: int, kt: Seq<Value>, i: int) -> int
    decreases n - i,
{
    if i < 0 || i >= n {
        n
    } else if key_tuple(kcols, i) == kt {
        i
    } else {
        first_row_of(kcols, n, kt, i + 1)
    }
}

/// Characterizes [`first_row_of`].
pub proof fn lemma_first_row_of(kcols: Seq<Seq<Value>>, n: int, kt: Seq<Value>, i: int)
    requires
        0 <= i <= n,
    ensures
        i <= first_row_of(kcols, n, kt, i) <= n,
        first_row_of(kcols, n, kt, i) < n ==> key_tuple(kcols, first_row_of(kcols, n, kt, i))
            == kt,
        forall|r: int| i <= r < first_row_of(kcols, n, kt, i) ==> key_tuple(kcols, r) != kt,
        first_row_of(kcols, n, kt, i) == n ==> forall|r: int|
            i <= r < n ==> key_tuple(kcols, r) != kt,
    decreases n - i,
{
    if i < n && key_tuple(kcols, i) != kt {
        lemma_first_row_of(kcols, n, kt, i + 1);
    }
}

/// Growing the row bound past an already-found first occurrence does not
/// move it; when nothing was found, the new last row decides.
pub proof fn lemma_first_row_of_extend(kcols: Seq<Seq<Value>>, n: int, kt: Seq<Value>, i: int)
    requires
        0 <= i <= n - 1,
    ensures
        first_row_of(kcols, n - 1, kt, i) < n - 1 ==> first_row_of(kcols, n, kt, i)
            == first_row_of(kcols, n - 1, kt, i),
        first_row_of(kcols, n - 1, kt, i) == n - 1 ==> first_row_of(kcols, n, kt, i) == (
        if key_tuple(kcols, n - 1) == kt {
            n - 1
        } else {
            n
        }),
    decreases n - i,
{
    if i < n - 1 && key_tuple(kcols, i) != kt {
        lemma_first_row_of_extend(kcols, n, kt, i + 1);
    } else {
        assert(first_row_of(kcols, n, kt, n) == n);
    }
}

/// Every key tuple of the first `n` rows occurs among the distinct keys.
pub proof fn lemma_uniq_keys_complete(kcols: Seq<Seq<Value>>, n: int)
    ensures
        forall|r: int| 0 <= r < n ==> uniq_keys(kcols, n).contains(key_tuple(kcols, r)),
    decreases n,
{
    if n > 0 {
        lemma_uniq_keys_complete(kcols, n - 1);
        let prev = uniq_keys(kcols, n - 1);
        let kt = key_tuple(kcols, n - 1);
        assert forall|r: int|
            0 <= r < n implies uniq_keys(kcols, n).contains(key_tuple(kcols, r)) by {
            if r < n - 1 {
                let j = choose|j: int|
                    0 <= j < prev.len() && prev[j] == key_tuple(kcols, r);
                assert(uniq_keys(kcols, n)[j] == key_tuple(kcols, r));
            } else {
                if prev.contains(kt) {
                    let j = choose|j: int| 0 <= j < prev.len() && prev[j] == kt;
                    assert(uniq_keys(kcols, n)[j] == kt);
                } else {
                    assert(uniq_keys(kcols, n)[prev.len() as int] == kt);
                }
            }
        }
    }
}

/// Stable grouping: the distinct keys stand in the order of their first
/// occurrence — an earlier group's key first appears on an earlier row.
pub proof fn lemma_uniq_keys_first_occurrence_order(
    kcols: Seq<Seq<Value>>,
    n: int,
    g1: int,
    g2: int,
)
    requires
        0 <= g1 < g2 < uniq_keys(kcols, n).len(),
    ensures
        first_row_of(kcols, n, uniq_keys(kcols, n)[g1], 0) < first_row_of(
            kcols,
            n,
            uniq_keys(kcols, n)[g2],
            0,
        ),
    decreases n,
{
    let uk = uniq_keys(kcols, n);
    let prev = uniq_keys(kcols, n - 1);
    let kt = key_tuple(kcols, n - 1);
    lemma_uniq_keys_members(kcols, n - 1);
    lemma_uniq_keys_complete(kcols, n - 1);
    assert(n > 0);
    // a key already among the first n-1 rows keeps its first occurrence
    assert forall|g: int|
        0 <= g < prev.len() implies first_row_of(kcols, n, #[trigger] prev[g], 0)
        == first_row_of(kcols, n - 1, prev[g], 0) && first_row_of(kcols, n - 1, prev[g], 0) < n
        - 1 by {
        let r0 = choose|r: int| 0 <= r < n - 1 && prev[g] == key_tuple(kcols, r);
        lemma_first_row_of(kcols, n - 1, prev[g], 0);
        if first_row_of(kcols, n - 1, prev[g], 0) == n - 1 {
            assert(key_tuple(kcols, r0) != prev[g]);
        }
        lemma_first_row_of_extend(kcols, n, prev[g], 0);
    }
    if prev.contains(kt) {
        lemma_uniq_keys_first_occurrence_order(kcols, n - 1, g1, g2);
    } else {
        if g2 < prev.len() {
            lemma_uniq_keys_first_occurrence_order(kcols, n - 1, g1, g2);
        } else {
            // uk[g2] is the key first seen on the last row
            assert(uk[g2] == kt);
            assert(first_row_of(kcols, n - 1, kt, 0) == n - 1) by {
                lemma_first_row_of(kcols, n - 1, kt, 0);
                if first_row_of(kcols, n - 1, kt, 0) < n - 1 {
                    let f = first_row_of(kcols, n - 1, kt, 0);
                    assert(uniq_keys(kcols, n - 1).contains(key_tuple(kcols, f)));
                }
            }
            lemma_first_row_of_extend(kcols, n, kt, 0);
            assert(first_row_of(kcols, n, kt, 0) == n - 1);
            assert(uk[g1] == prev[g1]);
        }
    }
}

} // verus!
