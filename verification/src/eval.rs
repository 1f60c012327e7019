//! Execution of plans over materialized tables: the row-range
//! operations, columnar select and drop, and elementwise expression
//! evaluation with null propagation.

use vstd::prelude::*;
use vstd::string::StringExecFns;
use crate::value::{DType, Value, value_fits, spec_dtype_of, dtype_of};
use crate::error::{Error, ErrorV};
use crate::expr::{Expr, Op};
use crate::table::{
    Table, TableV, names_view, cols_view, idx_of_name, first_dup_name, lemma_idx_of_name,
    lemma_first_dup_name, lemma_no_dup_distinct, find_name, find_first_dup, clone_names,
};
use crate::schema::{op_label, op_label_str, binop_type, binop_type_of, first_not_in,
    lemma_first_not_in};

verus! {

/// The rows `lo..hi` of the table, each column cut to that range.
pub open spec fn tv_rows(t: TableV, lo: int, hi: int) -> TableV {
    TableV {
        names: t.names,
        dtypes: t.dtypes,
        cols: t.cols.map_values(|c: Seq<Value>| c.subrange(lo, hi)),
    }
}

/// The first row index a slice takes: the offset, counted from the end
/// when negative, clamped into `0..=n`.
pub open spec fn slice_lo(n: int, offset: int) -> int {
    let s = if offset >= 0 {
        offset
    } else {
        n + offset
    };
    if s < 0 {
        0
    } else if s > n {
        n
    } else {
        s
    }
}

/// One past the last row index a slice takes: offset plus length,
/// clamped into `slice_lo..=n`. A range beyond the rows is empty.
pub open spec fn slice_hi(n: int, offset: int, len: int) -> int {
    let s = if offset >= 0 {
        offset
    } else {
        n + offset
    };
    let e = s + len;
    let lo = slice_lo(n, offset);
    if e < lo {
        lo
    } else if e > n {
        n
    } else {
        e
    }
}

/// An arithmetic operator on two non-null integers: the exact result
/// when it fits in `i64`, an execution failure on overflow.
pub open spec fn cell_arith(op: Op, x: i64, y: i64) -> Result<Value, ErrorV> {
    let z: int = match op {
        Op::Plus => x + y,
        Op::Minus => x - y,
        _ => x * y,
    };
    if i64::MIN <= z <= i64::MAX {
        Ok(Value::Int(z as i64))
    } else {
        Err(ErrorV::ExecutionFailure("arithmetic overflow"@))
    }
}

/// One cell of a binary operation: null if either operand is null,
/// otherwise the operator applied to two values of the right types, and
/// a `TypeMismatch` when a value has the wrong type.
pub open spec fn cell_op(op: Op, a: Value, b: Value) -> Result<Value, ErrorV> {
    if a is Null || b is Null {
        Ok(Value::Null)
    } else {
        match op {
            Op::Plus | Op::Minus | Op::Multiply => match (a, b) {
                (Value::Int(x), Value::Int(y)) => cell_arith(op, x, y),
                _ => Err(
                    ErrorV::TypeMismatch(
                        DType::Int,
                        if !(a is Int) {
                            spec_dtype_of(a)
                        } else {
                            spec_dtype_of(b)
                        },
                        op_label(op),
                    ),
                ),
            },
            Op::Equals => match (a, b) {
                (Value::Int(x), Value::Int(y)) => Ok(Value::Bool(x == y)),
                (Value::Bool(x), Value::Bool(y)) => Ok(Value::Bool(x == y)),
                _ => Err(ErrorV::TypeMismatch(spec_dtype_of(a), spec_dtype_of(b), op_label(op))),
            },
            Op::Less | Op::Greater => match (a, b) {
                (Value::Int(x), Value::Int(y)) => Ok(
                    Value::Bool(
                        if op is Less {
                            x < y
                        } else {
                            x > y
                        },
                    ),
                ),
                _ => Err(
                    ErrorV::TypeMismatch(
                        DType::Int,
                        if !(a is Int) {
                            spec_dtype_of(a)
                        } else {
                            spec_dtype_of(b)
                        },
                        op_label(op),
                    ),
                ),
            },
            Op::And | Op::Or => match (a, b) {
                (Value::Bool(x), Value::Bool(y)) => Ok(
                    Value::Bool(
                        if op is And {
                            x && y
                        } else {
                            x || y
                        },
                    ),
                ),
                _ => Err(
                    ErrorV::TypeMismatch(
                        DType::Bool,
                        if !(a is Bool) {
                            spec_dtype_of(a)
                        } else {
                            spec_dtype_of(b)
                        },
                        op_label(op),
                    ),
                ),
            },
        }
    }
}

/// Executable twin of [`cell_op`].
pub fn cell_op_exec(op: Op, a: Value, b: Value) -> (r: Result<Value, Error>)
    ensures
        match cell_op(op, a, b) {
            Ok(v) => r == Ok::<Value, Error>(v),
            Err(e) => r matches Err(q) && q@ == e,
        },
{
    if matches!(a, Value::Null) || matches!(b, Value::Null) {
        return Ok(Value::Null);
    }
    match op {
        Op::Plus | Op::Minus | Op::Multiply => match (a, b) {
            (Value::Int(x), Value::Int(y)) => {
                let z = match op {
                    Op::Plus => x.checked_add(y),
                    Op::Minus => x.checked_sub(y),
                    _ => x.checked_mul(y),
                };
                match z {
                    Some(v) => Ok(Value::Int(v)),
                    None => Err(Error::ExecutionFailure(String::from_str("arithmetic overflow"))),
                }
            },
            _ => Err(
                Error::TypeMismatch(
                    DType::Int,
                    if !matches!(a, Value::Int(_)) {
                        dtype_of(&a)
                    } else {
                        dtype_of(&b)
                    },
                    op_label_str(op),
                ),
            ),
        },
        Op::Equals => match (a, b) {
            (Value::Int(x), Value::Int(y)) => Ok(Value::Bool(x == y)),
            (Value::Bool(x), Value::Bool(y)) => Ok(Value::Bool(x == y)),
            _ => Err(Error::TypeMismatch(dtype_of(&a), dtype_of(&b), op_label_str(op))),
        },
        Op::Less | Op::Greater => match (a, b) {
            (Value::Int(x), Value::Int(y)) => Ok(
                Value::Bool(
                    if matches!(op, Op::Less) {
                        x < y
                    } else {
                        x > y
                    },
                ),
            ),
            _ => Err(
                Error::TypeMismatch(
                    DType::Int,
                    if !matches!(a, Value::Int(_)) {
                        dtype_of(&a)
                    } else {
                        dtype_of(&b)
                    },
                    op_label_str(op),
                ),
            ),
        },
        Op::And | Op::Or => match (a, b) {
            (Value::Bool(x), Value::Bool(y)) => Ok(
                Value::Bool(
                    if matches!(op, Op::And) {
                        x && y
                    } else {
                        x || y
                    },
                ),
            ),
            _ => Err(
                Error::TypeMismatch(
                    DType::Bool,
                    if !matches!(a, Value::Bool(_)) {
                        dtype_of(&a)
                    } else {
                        dtype_of(&b)
                    },
                    op_label_str(op),
                ),
            ),
        },
    }
}

/// The first `i` cells of a binary operation over two columns, stopping
/// at the first failing cell.
pub open spec fn zip_op(op: Op, l: Seq<Value>, r: Seq<Value>, i: int) -> Result<Seq<Value>, ErrorV>
    decreases i,
{
    if i <= 0 {
        Ok(Seq::empty())
    } else {
        match zip_op(op, l, r, i - 1) {
            Err(e) => Err(e),
            Ok(s) => match cell_op(op, l[i - 1], r[i - 1]) {
                Err(e) => Err(e),
                Ok(v) => Ok(s.push(v)),
            },
        }
    }
}

/// Once a prefix of a zip fails, every longer prefix fails the same way.
pub proof fn lemma_zip_op_stops(op: Op, l: Seq<Value>, r: Seq<Value>, i: int, j: int)
    requires
        0 <= i <= j,
        zip_op(op, l, r, i) is Err,
    ensures
        zip_op(op, l, r, j) == zip_op(op, l, r, i),
    decreases j - i,
{
    if j > i {
        lemma_zip_op_stops(op, l, r, i, j - 1);
    }
}

/// A successful zip of `i` cells has `i` cells, each fitting the
/// operator's output type.
pub proof fn lemma_zip_op_wf(op: Op, l: Seq<Value>, r: Seq<Value>, lt: DType, rt: DType, i: int)
    requires
        0 <= i,
        binop_type(op, lt, rt) is Ok,
        forall|k: int| 0 <= k < i ==> value_fits(#[trigger] l[k], lt),
        forall|k: int| 0 <= k < i ==> value_fits(#[trigger] r[k], rt),
        zip_op(op, l, r, i) is Ok,
    ensures
        zip_op(op, l, r, i)->Ok_0.len() == i,
        forall|k: int|
            0 <= k < i ==> value_fits(
                #[trigger] zip_op(op, l, r, i)->Ok_0[k],
                binop_type(op, lt, rt)->Ok_0,
            ),
    decreases i,
{
    if i > 0 {
        lemma_zip_op_wf(op, l, r, lt, rt, i - 1);
    }
}

/// The row-context value of an expression over a table: its output name,
/// output type, and one value per input row.
pub open spec fn eval_expr_row(e: Expr, t: TableV) -> Result<(Seq<char>, DType, Seq<Value>), ErrorV>
    decreases e,
{
    match e {
        Expr::Col(n) => {
            let j = idx_of_name(t.names, n@, 0);
            if j < t.names.len() {
                Ok((n@, t.dtypes[j], t.cols[j]))
            } else {
                Err(ErrorV::UnknownColumn(n@))
            }
        },
        Expr::Lit(v) => match v {
            Value::Int(_) => Ok(("literal"@, DType::Int, Seq::new(t.nrows() as nat, |r: int| v))),
            Value::Bool(_) => Ok(("literal"@, DType::Bool, Seq::new(t.nrows() as nat, |r: int| v))),
            Value::Null => Err(ErrorV::SchemaResolutionFailure("null literal"@)),
        },
        Expr::BinOp(l, r, op) => match eval_expr_row(*l, t) {
            Err(e) => Err(e),
            Ok((ln, lt, lv)) => match eval_expr_row(*r, t) {
                Err(e) => Err(e),
                Ok((_, rt, rv)) => match binop_type(op, lt, rt) {
                    Err(e) => Err(e),
                    Ok(dt) => match zip_op(op, lv, rv, lv.len() as int) {
                        Err(e) => Err(e),
                        Ok(vals) => Ok((ln, dt, vals)),
                    },
                },
            },
        },
        Expr::Agg(_, _) => Err(ErrorV::SchemaResolutionFailure("aggregate outside groupby"@)),
        Expr::Wildcard => Err(ErrorV::SchemaResolutionFailure("wildcard outside groupby"@)),
        Expr::Exclude(_, _) => Err(ErrorV::SchemaResolutionFailure("exclude outside groupby"@)),
        Expr::Alias(inner, n) => match eval_expr_row(*inner, t) {
            Err(e) => Err(e),
            Ok((_, dt, vals)) => Ok((n@, dt, vals)),
        },
    }
}

/// A successful row evaluation over a well-formed table yields one value
/// per row, each fitting the output type.
pub proof fn lemma_eval_expr_row_wf(e: Expr, t: TableV)
    requires
        t.wf(),
        eval_expr_row(e, t) is Ok,
    ensures
        eval_expr_row(e, t)->Ok_0.2.len() == t.nrows(),
        forall|k: int|
            0 <= k < t.nrows() ==> value_fits(
                #[trigger] eval_expr_row(e, t)->Ok_0.2[k],
                eval_expr_row(e, t)->Ok_0.1,
            ),
    decreases e,
{
    match e {
        Expr::Col(n) => {
            lemma_idx_of_name(t.names, n@, 0);
        },
        Expr::Lit(v) => {},
        Expr::BinOp(l, r, op) => {
            lemma_eval_expr_row_wf(*l, t);
            lemma_eval_expr_row_wf(*r, t);
            let lv = eval_expr_row(*l, t)->Ok_0.2;
            let rv = eval_expr_row(*r, t)->Ok_0.2;
            let lt = eval_expr_row(*l, t)->Ok_0.1;
            let rt = eval_expr_row(*r, t)->Ok_0.1;
            lemma_zip_op_wf(op, lv, rv, lt, rt, lv.len() as int);
        },
        Expr::Alias(inner, n) => {
            lemma_eval_expr_row_wf(*inner, t);
        },
        _ => {},
    }
}

/// Copies a column of values.
pub fn copy_col(c: &Vec<Value>) -> (r: Vec<Value>)
    ensures
        r@ == c@,
{
    let mut out: Vec<Value> = Vec::new();
    let mut i: usize = 0;
    while i < c.len()
        invariant
            i <= c@.len(),
            out@.len() == i,
            forall|k: int| 0 <= k < i ==> out@[k] == c@[k],
        decreases c@.len() - i,
    {
        out.push(c[i]);
        i += 1;
    }
    proof {
        assert(out@ =~= c@);
    }
    out
}

/// Evaluates a row expression over a table, producing its output name,
/// type, and one value per input row.
pub fn eval_expr(e: &Expr, t: &Table) -> (r: Result<(String, DType, Vec<Value>), Error>)
    requires
        t@.wf(),
    ensures
        match eval_expr_row(*e, t@) {
            Ok(p) => r matches Ok(q) && q.0@ == p.0 && q.1 == p.1 && q.2@ == p.2,
            Err(er) => r matches Err(q) && q@ == er,
        },
    decreases *e,
{
    match e {
        Expr::Col(n) => {
            let j = find_name(&t.names, n);
            if j < t.names.len() {
                proof {
                    lemma_idx_of_name(t@.names, n@, 0);
                    assert(t@.cols[j as int] == t.cols@[j as int]@);
                }
                Ok((n.clone(), t.dtypes[j], copy_col(&t.cols[j])))
            } else {
                Err(Error::UnknownColumn(n.clone()))
            }
        },
        Expr::Lit(v) => {
            if matches!(v, Value::Null) {
                return Err(Error::SchemaResolutionFailure(String::from_str("null literal")));
            }
            let n = t.n_rows();
            let mut out: Vec<Value> = Vec::new();
            let mut i: usize = 0;
            while i < n
                invariant
                    i <= n,
                    out@.len() == i,
                    forall|k: int| 0 <= k < i ==> out@[k] == *v,
                decreases n - i,
            {
                out.push(*v);
                i += 1;
            }
            proof {
                assert(out@ =~= Seq::new(t@.nrows() as nat, |r: int| *v));
            }
            match v {
                Value::Int(_) => Ok((String::from_str("literal"), DType::Int, out)),
                _ => Ok((String::from_str("literal"), DType::Bool, out)),
            }
        },
        Expr::BinOp(l, r, op) => {
            let (ln, lt, lv) = match eval_expr(&*l, t) {
                Err(e) => {
                    return Err(e);
                },
                Ok(p) => p,
            };
            let (_rn, rt, rv) = match eval_expr(&*r, t) {
                Err(e) => {
                    return Err(e);
                },
                Ok(p) => p,
            };
            let dt = match binop_type_of(*op, lt, rt) {
                Err(e) => {
                    return Err(e);
                },
                Ok(d) => d,
            };
            proof {
                lemma_eval_expr_row_wf(*(e->BinOp_0), t@);
                lemma_eval_expr_row_wf(*(e->BinOp_1), t@);
            }
            let mut out: Vec<Value> = Vec::new();
            let mut i: usize = 0;
            while i < lv.len()
                invariant
                    i <= lv@.len(),
                    lv@.len() == rv@.len(),
                    e is BinOp,
                    eval_expr_row(*(e->BinOp_0), t@) matches Ok(pl) && pl.0 == ln@ && pl.2 == lv@,
                    eval_expr_row(*(e->BinOp_1), t@) matches Ok(pr) && pr.2 == rv@,
                    binop_type(
                        e->BinOp_2,
                        eval_expr_row(*(e->BinOp_0), t@)->Ok_0.1,
                        eval_expr_row(*(e->BinOp_1), t@)->Ok_0.1,
                    ) == Ok::<DType, ErrorV>(dt),
                    *op == e->BinOp_2,
                    zip_op(*op, lv@, rv@, i as int) == Ok::<Seq<Value>, ErrorV>(out@),
                decreases lv@.len() - i,
            {
                match cell_op_exec(*op, lv[i], rv[i]) {
                    Err(er) => {
                        proof {
                            assert(zip_op(*op, lv@, rv@, i + 1) is Err);
                            lemma_zip_op_stops(*op, lv@, rv@, i + 1, lv@.len() as int);
                        }
                        return Err(er);
                    },
                    Ok(v) => {
                        out.push(v);
                    },
                }
                i += 1;
            }
            Ok((ln, dt, out))
        },
        Expr::Agg(_, _) => Err(
            Error::SchemaResolutionFailure(String::from_str("aggregate outside groupby")),
        ),
        Expr::Wildcard => Err(
            Error::SchemaResolutionFailure(String::from_str("wildcard outside groupby")),
        ),
        Expr::Exclude(_, _) => Err(
            Error::SchemaResolutionFailure(String::from_str("exclude outside groupby")),
        ),
        Expr::Alias(inner, n) => match eval_expr(&*inner, t) {
            Err(e) => Err(e),
            Ok((_, dt, vals)) => Ok((n.clone(), dt, vals)),
        },
    }
}

/// The cells of `c` at the rows where the mask is true: false and null
/// mask cells drop the row.
pub open spec fn mask_keep(c: Seq<Value>, m: Seq<Value>) -> Seq<Value>
    decreases m.len(),
{
    if m.len() == 0 {
        Seq::empty()
    } else {
        let prev = mask_keep(c.drop_last(), m.drop_last());
        if m.last() == Value::Bool(true) {
            prev.push(c.last())
        } else {
            prev
        }
    }
}

/// The number of rows a mask keeps does not depend on the column.
pub proof fn lemma_mask_keep_len(c: Seq<Value>, m: Seq<Value>)
    requires
        c.len() == m.len(),
    ensures
        mask_keep(c, m).len() == mask_keep(m, m).len(),
    decreases m.len(),
{
    if m.len() > 0 {
        lemma_mask_keep_len(c.drop_last(), m.drop_last());
    }
}

/// Every cell a mask keeps is a cell of the column, so it fits the
/// column's type.
pub proof fn lemma_mask_keep_typed(c: Seq<Value>, m: Seq<Value>, dt: DType)
    requires
        c.len() == m.len(),
        forall|k: int| 0 <= k < c.len() ==> value_fits(#[trigger] c[k], dt),
    ensures
        forall|k: int|
            0 <= k < mask_keep(c, m).len() ==> value_fits(#[trigger] mask_keep(c, m)[k], dt),
    decreases m.len(),
{
    if m.len() > 0 {
        assert(forall|k: int| 0 <= k < c.len() - 1 ==> #[trigger] c.drop_last()[k] == c[k]);
        lemma_mask_keep_typed(c.drop_last(), m.drop_last(), dt);
        assert(value_fits(c[c.len() - 1], dt));
        let prev = mask_keep(c.drop_last(), m.drop_last());
        assert forall|k: int|
            0 <= k < mask_keep(c, m).len() implies value_fits(
            #[trigger] mask_keep(c, m)[k],
            dt,
        ) by {
            if m.last() == Value::Bool(true) {
                if k < prev.len() {
                    assert(mask_keep(c, m)[k] == prev[k]);
                } else {
                    assert(mask_keep(c, m)[k] == c.last());
                }
            } else {
                assert(mask_keep(c, m)[k] == prev[k]);
            }
        }
    }
}

/// Keeps the cells of `c` at the rows where the mask is true.
pub fn filter_col(c: &Vec<Value>, m: &Vec<Value>) -> (r: Vec<Value>)
    requires
        c@.len() == m@.len(),
    ensures
        r@ == mask_keep(c@, m@),
{
    let mut out: Vec<Value> = Vec::new();
    let mut i: usize = 0;
    while i < c.len()
        invariant
            i <= c@.len(),
            c@.len() == m@.len(),
            out@ == mask_keep(c@.subrange(0, i as int), m@.subrange(0, i as int)),
        decreases c@.len() - i,
    {
        proof {
            assert(c@.subrange(0, i + 1).drop_last() =~= c@.subrange(0, i as int));
            assert(m@.subrange(0, i + 1).drop_last() =~= m@.subrange(0, i as int));
            assert(c@.subrange(0, i + 1).last() == c@[i as int]);
            assert(m@.subrange(0, i + 1).last() == m@[i as int]);
        }
        if matches!(m[i], Value::Bool(true)) {
            out.push(c[i]);
        }
        i += 1;
    }
    proof {
        assert(c@.subrange(0, c@.len() as int) =~= c@);
        assert(m@.subrange(0, m@.len() as int) =~= m@);
    }
    out
}

/// The table with only the rows where the mask is true.
pub open spec fn filter_table(t: TableV, m: Seq<Value>) -> TableV {
    TableV {
        names: t.names,
        dtypes: t.dtypes,
        cols: t.cols.map_values(|c: Seq<Value>| mask_keep(c, m)),
    }
}

/// The table restricted to the named columns, in the given order: the
/// same checks and errors as a select's schema, with the data attached.
pub open spec fn sel_table(t: TableV, ns: Seq<Seq<char>>) -> Result<TableV, ErrorV> {
    let m = first_not_in(ns, t.names, 0);
    if m < ns.len() {
        Err(ErrorV::UnknownColumn(ns[m]))
    } else {
        let d = first_dup_name(ns, 0);
        if d < ns.len() {
            Err(ErrorV::DuplicateColumn(ns[d]))
        } else {
            Ok(
                TableV {
                    names: ns,
                    dtypes: Seq::new(ns.len(), |i: int| t.dtypes[idx_of_name(t.names, ns[i], 0)]),
                    cols: Seq::new(ns.len(), |i: int| t.cols[idx_of_name(t.names, ns[i], 0)]),
                },
            )
        }
    }
}

/// The first `i` columns of `t` whose names are not in `ns`, in order.
pub open spec fn drop_keep_t(t: TableV, ns: Seq<Seq<char>>, i: int) -> TableV
    decreases i,
{
    if i <= 0 {
        TableV { names: Seq::empty(), dtypes: Seq::empty(), cols: Seq::empty() }
    } else {
        let prev = drop_keep_t(t, ns, i - 1);
        if idx_of_name(ns, t.names[i - 1], 0) < ns.len() {
            prev
        } else {
            TableV {
                names: prev.names.push(t.names[i - 1]),
                dtypes: prev.dtypes.push(t.dtypes[i - 1]),
                cols: prev.cols.push(t.cols[i - 1]),
            }
        }
    }
}

/// The table without the named columns; unknown names are ignored.
pub open spec fn drop_table(t: TableV, ns: Seq<Seq<char>>) -> TableV {
    drop_keep_t(t, ns, t.names.len() as int)
}

/// Selects the named columns of a materialized table.
pub fn table_select(t: &Table, ns: &Vec<String>) -> (r: Result<Table, Error>)
    requires
        t@.wf(),
    ensures
        match sel_table(t@, names_view(*ns)) {
            Ok(tv) => r matches Ok(u) && u@ == tv,
            Err(e) => r matches Err(q) && q@ == e,
        },
{
    let ghost nsv = names_view(*ns);
    let ghost tv = t@;
    proof {
        assert(nsv.len() == ns@.len());
        lemma_first_not_in(nsv, tv.names, 0);
    }
    let mut i: usize = 0;
    while i < ns.len()
        invariant
            t@ == tv,
            tv.wf(),
            i <= ns.len(),
            nsv == names_view(*ns),
            first_not_in(nsv, tv.names, 0) >= i,
        decreases ns.len() - i,
    {
        proof {
            assert(nsv[i as int] == ns@[i as int]@);
        }
        let j = find_name(&t.names, &ns[i]);
        if j == t.names.len() {
            proof {
                lemma_first_not_in(nsv, tv.names, 0);
                if first_not_in(nsv, tv.names, 0) > i {
                    assert(idx_of_name(tv.names, #[trigger] nsv[i as int], 0) < tv.names.len());
                }
                assert(first_not_in(nsv, tv.names, 0) == i);
            }
            return Err(Error::UnknownColumn(ns[i].clone()));
        }
        proof {
            lemma_idx_of_name(tv.names, nsv[i as int], 0);
            lemma_first_not_in(nsv, tv.names, 0);
            if first_not_in(nsv, tv.names, 0) == i {
                assert(false);
            }
        }
        i += 1;
    }
    proof {
        lemma_first_not_in(nsv, tv.names, 0);
        assert(first_not_in(nsv, tv.names, 0) == nsv.len());
    }
    let d = find_first_dup(ns);
    if d < ns.len() {
        proof {
            assert(nsv[d as int] == ns@[d as int]@);
        }
        return Err(Error::DuplicateColumn(ns[d].clone()));
    }
    let mut dtypes: Vec<DType> = Vec::new();
    let mut cols: Vec<Vec<Value>> = Vec::new();
    let mut i: usize = 0;
    while i < ns.len()
        invariant
            t@ == tv,
            tv.wf(),
            i <= ns.len(),
            nsv == names_view(*ns),
            first_not_in(nsv, tv.names, 0) == nsv.len(),
            dtypes@.len() == i,
            cols@.len() == i,
            forall|k: int|
                0 <= k < i ==> dtypes@[k] == tv.dtypes[idx_of_name(tv.names, nsv[k], 0)],
            forall|k: int|
                0 <= k < i ==> (#[trigger] cols@[k])@ == tv.cols[idx_of_name(tv.names, nsv[k], 0)],
        decreases ns.len() - i,
    {
        proof {
            assert(nsv[i as int] == ns@[i as int]@);
            lemma_first_not_in(nsv, tv.names, 0);
            lemma_idx_of_name(tv.names, nsv[i as int], 0);
            assert(tv.names.len() == t.names@.len());
            assert(tv.cols.len() == t.cols@.len());
        }
        let j = find_name(&t.names, &ns[i]);
        dtypes.push(t.dtypes[j]);
        proof {
            assert(tv.cols[j as int] == t.cols@[j as int]@);
        }
        let c = copy_col(&t.cols[j]);
        cols.push(c);
        i += 1;
    }
    let names = clone_names(ns);
    proof {
        assert(dtypes@ =~= Seq::new(
            nsv.len(),
            |k: int| tv.dtypes[idx_of_name(tv.names, nsv[k], 0)],
        ));
        assert(cols_view(cols) =~= Seq::new(
            nsv.len(),
            |k: int| tv.cols[idx_of_name(tv.names, nsv[k], 0)],
        ));
    }
    Ok(Table { names, dtypes, cols })
}

/// Drops the named columns of a materialized table.
pub fn table_drop(t: &Table, ns: &Vec<String>) -> (r: Table)
    requires
        t@.wf(),
    ensures
        r@ == drop_table(t@, names_view(*ns)),
{
    let ghost nsv = names_view(*ns);
    let ghost tv = t@;
    proof {
        assert(tv.names.len() == t.names@.len());
    }
    let mut names: Vec<String> = Vec::new();
    let mut dtypes: Vec<DType> = Vec::new();
    let mut cols: Vec<Vec<Value>> = Vec::new();
    let mut i: usize = 0;
    while i < t.names.len()
        invariant
            t@ == tv,
            tv.wf(),
            tv.names.len() == t.names@.len(),
            i <= t.names@.len(),
            nsv == names_view(*ns),
            names_view(names) == drop_keep_t(tv, nsv, i as int).names,
            dtypes@ == drop_keep_t(tv, nsv, i as int).dtypes,
            cols_view(cols) == drop_keep_t(tv, nsv, i as int).cols,
        decreases t.names@.len() - i,
    {
        proof {
            assert(tv.names[i as int] == t.names@[i as int]@);
            assert(nsv.len() == ns@.len());
        }
        let j = find_name(ns, &t.names[i]);
        if j == ns.len() {
            names.push(t.names[i].clone());
            dtypes.push(t.dtypes[i]);
            let c = copy_col(&t.cols[i]);
            proof {
                assert(c@ == tv.cols[i as int]);
            }
            cols.push(c);
            proof {
                assert(idx_of_name(nsv, tv.names[i as int], 0) == nsv.len());
                assert(names_view(names) =~= drop_keep_t(tv, nsv, i + 1).names);
                assert(dtypes@ =~= drop_keep_t(tv, nsv, i + 1).dtypes);
                assert(cols_view(cols) =~= drop_keep_t(tv, nsv, i + 1).cols);
            }
        } else {
            proof {
                lemma_idx_of_name(nsv, tv.names[i as int], 0);
                assert(idx_of_name(nsv, tv.names[i as int], 0) < nsv.len());
                assert(drop_keep_t(tv, nsv, i + 1) == drop_keep_t(tv, nsv, i as int));
            }
        }
        i += 1;
    }
    Table { names, dtypes, cols }
}

/// Copies the rows `lo..hi` of a materialized table.
pub fn table_rows(t: &Table, lo: usize, hi: usize) -> (r: Table)
    requires
        t@.wf(),
        lo <= hi,
        hi <= t@.nrows(),
    ensures
        r@ == tv_rows(t@, lo as int, hi as int),
{
    let ghost tv = t@;
    let mut cols: Vec<Vec<Value>> = Vec::new();
    let mut j: usize = 0;
    while j < t.cols.len()
        invariant
            t@ == tv,
            tv.wf(),
            lo <= hi,
            hi <= tv.nrows(),
            j <= t.cols@.len(),
            tv.cols.len() == t.cols@.len(),
            cols@.len() == j,
            forall|k: int|
                0 <= k < j ==> (#[trigger] cols@[k])@ == tv.cols[k].subrange(lo as int, hi as int),
        decreases t.cols@.len() - j,
    {
        proof {
            assert(tv.cols[j as int] == t.cols@[j as int]@);
            assert(tv.cols[j as int].len() == tv.nrows());
        }
        let src = &t.cols[j];
        let mut c: Vec<Value> = Vec::new();
        let mut r: usize = lo;
        while r < hi
            invariant
                lo <= r <= hi,
                hi <= src@.len(),
                c@.len() == r - lo,
                forall|k: int| 0 <= k < r - lo ==> c@[k] == src@[lo + k],
            decreases hi - r,
        {
            c.push(src[r]);
            r += 1;
        }
        proof {
            assert(c@ =~= tv.cols[j as int].subrange(lo as int, hi as int));
        }
        cols.push(c);
        j += 1;
    }
    proof {
        assert(cols_view(cols) =~= tv.cols.map_values(
            |c: Seq<Value>| c.subrange(lo as int, hi as int),
        ));
    }
    Table { names: clone_names(&t.names), dtypes: crate::schema::clone_dtypes(&t.dtypes), cols }
}

/// Keeps only the rows of a materialized table where the mask is true.
pub fn table_filter(t: &Table, m: &Vec<Value>) -> (r: Table)
    requires
        t@.wf(),
        m@.len() == t@.nrows(),
    ensures
        r@ == filter_table(t@, m@),
{
    let ghost tv = t@;
    let mut cols: Vec<Vec<Value>> = Vec::new();
    let mut j: usize = 0;
    while j < t.cols.len()
        invariant
            t@ == tv,
            tv.wf(),
            m@.len() == tv.nrows(),
            j <= t.cols@.len(),
            tv.cols.len() == t.cols@.len(),
            cols@.len() == j,
            forall|k: int| 0 <= k < j ==> (#[trigger] cols@[k])@ == mask_keep(tv.cols[k], m@),
        decreases t.cols@.len() - j,
    {
        proof {
            assert(tv.cols[j as int] == t.cols@[j as int]@);
            assert(tv.cols[j as int].len() == tv.nrows());
        }
        let c = filter_col(&t.cols[j], m);
        cols.push(c);
        j += 1;
    }
    proof {
        assert(cols_view(cols) =~= tv.cols.map_values(|c: Seq<Value>| mask_keep(c, m@)));
    }
    Table { names: clone_names(&t.names), dtypes: crate::schema::clone_dtypes(&t.dtypes), cols }
}


/// A successful select of a well-formed table is well-formed, with the
/// input's row count.
pub proof fn lemma_sel_table_wf(t: TableV, ns: Seq<Seq<char>>)
    requires
        t.wf(),
        sel_table(t, ns) is Ok,
    ensures
        sel_table(t, ns)->Ok_0.wf(),
        sel_table(t, ns)->Ok_0.nrows() == (if ns.len() == 0 { 0int } else { t.nrows() }),
{
    let r = sel_table(t, ns)->Ok_0;
    lemma_first_not_in(ns, t.names, 0);
    lemma_first_dup_name(ns, 0);
    lemma_no_dup_distinct(ns);
    if ns.len() > 0 {
        lemma_idx_of_name(t.names, ns[0], 0);
        assert(r.cols[0] == t.cols[idx_of_name(t.names, ns[0], 0)]);
        assert(r.cols[0].len() == t.nrows());
    }
    assert forall|j: int| 0 <= j < r.cols.len() implies (#[trigger] r.cols[j]).len()
        == r.nrows() by {
        lemma_idx_of_name(t.names, ns[j], 0);
        if r.cols.len() > 0 {
            lemma_idx_of_name(t.names, ns[0], 0);
        }
    }
    assert forall|j: int, rr: int|
        0 <= j < r.cols.len() && 0 <= rr < r.nrows() implies value_fits(
        #[trigger] r.cols[j][rr],
        r.dtypes[j],
    ) by {
        lemma_idx_of_name(t.names, ns[j], 0);
        if r.cols.len() > 0 {
            lemma_idx_of_name(t.names, ns[0], 0);
        }
    }
}

/// A drop of a well-formed table is well-formed: the kept columns are a
/// subsequence of the input's columns.
pub proof fn lemma_drop_keep_t_wf(t: TableV, ns: Seq<Seq<char>>, i: int)
    requires
        t.wf(),
        0 <= i <= t.names.len(),
    ensures
        drop_keep_t(t, ns, i).names.len() == drop_keep_t(t, ns, i).dtypes.len(),
        drop_keep_t(t, ns, i).names.len() == drop_keep_t(t, ns, i).cols.len(),
        forall|q: int|
            0 <= q < drop_keep_t(t, ns, i).names.len() ==> exists|j: int|
                0 <= j < i && #[trigger] drop_keep_t(t, ns, i).names[q] == t.names[j]
                    && drop_keep_t(t, ns, i).dtypes[q] == t.dtypes[j] && drop_keep_t(
                    t,
                    ns,
                    i,
                ).cols[q] == t.cols[j],
        forall|q1: int, q2: int|
            0 <= q1 < q2 < drop_keep_t(t, ns, i).names.len() ==> drop_keep_t(t, ns, i).names[q1]
                != drop_keep_t(t, ns, i).names[q2],
        drop_keep_t(t, ns, i).wf(),
    decreases i,
{
    if i > 0 {
        lemma_drop_keep_t_wf(t, ns, i - 1);
        let prev = drop_keep_t(t, ns, i - 1);
        let cur = drop_keep_t(t, ns, i);
        if !(idx_of_name(ns, t.names[i - 1], 0) < ns.len()) {
            assert forall|q: int|
                0 <= q < cur.names.len() implies exists|j: int|
                0 <= j < i && #[trigger] cur.names[q] == t.names[j] && cur.dtypes[q] == t.dtypes[j]
                    && cur.cols[q] == t.cols[j] by {
                if q < prev.names.len() {
                    let j0 = choose|j: int|
                        0 <= j < i - 1 && #[trigger] prev.names[q] == t.names[j] && prev.dtypes[q]
                            == t.dtypes[j] && prev.cols[q] == t.cols[j];
                    assert(cur.names[q] == t.names[j0] && cur.dtypes[q] == t.dtypes[j0]
                        && cur.cols[q] == t.cols[j0]);
                } else {
                    assert(cur.names[q] == t.names[i - 1] && cur.dtypes[q] == t.dtypes[i - 1]
                        && cur.cols[q] == t.cols[i - 1]);
                }
            }
            assert forall|q1: int, q2: int|
                0 <= q1 < q2 < cur.names.len() implies cur.names[q1] != cur.names[q2] by {
                if q2 == prev.names.len() {
                    let j0 = choose|j: int|
                        0 <= j < i - 1 && #[trigger] prev.names[q1] == t.names[j] && prev.dtypes[q1]
                            == t.dtypes[j] && prev.cols[q1] == t.cols[j];
                    assert(cur.names[q1] == t.names[j0]);
                    assert(cur.names[q2] == t.names[i - 1]);
                }
            }
        }
        assert forall|q: int|
            0 <= q < cur.cols.len() implies (#[trigger] cur.cols[q]).len() == cur.nrows() by {
            let j0 = choose|j: int|
                0 <= j < i && #[trigger] cur.names[q] == t.names[j] && cur.dtypes[q] == t.dtypes[j]
                    && cur.cols[q] == t.cols[j];
            if cur.cols.len() > 0 {
                let j1 = choose|j: int|
                    0 <= j < i && #[trigger] cur.names[0] == t.names[j] && cur.dtypes[0]
                        == t.dtypes[j] && cur.cols[0] == t.cols[j];
                assert(cur.cols[0].len() == t.nrows());
            }
        }
        assert forall|q: int, rr: int|
            0 <= q < cur.cols.len() && 0 <= rr < cur.nrows() implies value_fits(
            #[trigger] cur.cols[q][rr],
            cur.dtypes[q],
        ) by {
            let j0 = choose|j: int|
                0 <= j < i && #[trigger] cur.names[q] == t.names[j] && cur.dtypes[q] == t.dtypes[j]
                    && cur.cols[q] == t.cols[j];
            if cur.cols.len() > 0 {
                let j1 = choose|j: int|
                    0 <= j < i && #[trigger] cur.names[0] == t.names[j] && cur.dtypes[0]
                        == t.dtypes[j] && cur.cols[0] == t.cols[j];
                assert(cur.cols[0].len() == t.nrows());
            }
        }
    }
}

/// A row range of a well-formed table is well-formed, with `hi - lo` rows.
pub proof fn lemma_tv_rows_wf(t: TableV, lo: int, hi: int)
    requires
        t.wf(),
        0 <= lo <= hi <= t.nrows(),
    ensures
        tv_rows(t, lo, hi).wf(),
        tv_rows(t, lo, hi).nrows() == hi - lo,
{
    let r = tv_rows(t, lo, hi);
    assert(r.cols.len() == t.cols.len());
    assert forall|j: int| 0 <= j < r.cols.len() implies (#[trigger] r.cols[j]).len() == hi - lo by {
        assert(r.cols[j] == t.cols[j].subrange(lo, hi));
    }
    assert forall|j: int, rr: int|
        0 <= j < r.cols.len() && 0 <= rr < r.nrows() implies value_fits(
        #[trigger] r.cols[j][rr],
        r.dtypes[j],
    ) by {
        assert(r.cols[j] == t.cols[j].subrange(lo, hi));
        assert(r.cols[j][rr] == t.cols[j][lo + rr]);
    }
}

/// A filtered well-formed table is well-formed; all columns keep the
/// same number of rows.
pub proof fn lemma_filter_table_wf(t: TableV, m: Seq<Value>)
    requires
        t.wf(),
        m.len() == t.nrows(),
    ensures
        filter_table(t, m).wf(),
        filter_table(t, m).nrows() == mask_keep(m, m).len(),
{
    let r = filter_table(t, m);
    assert forall|j: int| 0 <= j < r.cols.len() implies (#[trigger] r.cols[j]).len()
        == mask_keep(m, m).len() by {
        assert(r.cols[j] == mask_keep(t.cols[j], m));
        lemma_mask_keep_len(t.cols[j], m);
    }
    if r.cols.len() > 0 {
        assert(r.cols[0].len() == mask_keep(m, m).len());
    }
    assert forall|j: int, rr: int|
        0 <= j < r.cols.len() && 0 <= rr < r.nrows() implies value_fits(
        #[trigger] r.cols[j][rr],
        r.dtypes[j],
    ) by {
        assert(r.cols[j] == mask_keep(t.cols[j], m));
        lemma_mask_keep_typed(t.cols[j], m, t.dtypes[j]);
    }
}

} // verus!
