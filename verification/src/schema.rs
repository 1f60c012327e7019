//! Schema resolution: computing a plan's output schema (column names and
//! types) by structural recursion, without materializing any data.
//!
//! Resolution is also the engine's validation pass: `lf_collect` resolves
//! the schema first and surfaces the same errors, so a bad column
//! reference fails at resolution and at execution alike.

use vstd::prelude::*;
use vstd::string::StringExecFns;
use crate::value::{DType, Value, spec_dtype_label, dtype_label};
use crate::error::{Error, ErrorV};
use crate::expr::{Expr, Op, AggKind};
use crate::plan::{LogicalPlan, plan_wf};
use crate::table::{
    TableV, names_view, idx_of_name, first_dup_name, lemma_idx_of_name, lemma_first_dup_name,
    find_name, find_first_dup, clone_names, string_eq,
};

verus! {

/// The mathematical model of a [`Schema`]: ordered column names and types.
#[verifier::ext_equal]
pub struct SchemaV {
    pub names: Seq<Seq<char>>,
    pub dtypes: Seq<DType>,
}

impl SchemaV {
    /// One data type per column name.
    pub open spec fn arity_ok(self) -> bool {
        self.names.len() == self.dtypes.len()
    }
}

/// An ordered mapping from column name to data type.
#[derive(Clone, Debug)]
pub struct Schema {
    pub names: Vec<String>,
    pub dtypes: Vec<DType>,
}

impl View for Schema {
    type V = SchemaV;

    open spec fn view(&self) -> SchemaV {
        SchemaV { names: names_view(self.names), dtypes: self.dtypes@ }
    }
}

/// A `Result` of a schema, with both sides abstracted to their models.
pub open spec fn schema_res_view(r: Result<Schema, Error>) -> Result<SchemaV, ErrorV> {
    match r {
        Ok(s) => Ok(s@),
        Err(e) => Err(e@),
    }
}

/// The schema of a table: its names and types, in column order.
pub open spec fn table_schema(t: TableV) -> SchemaV {
    SchemaV { names: t.names, dtypes: t.dtypes }
}

/// The first index at or after `i` of a name of `xs` that does not occur
/// in `pool`, or `xs.len()` when all occur.
pub open spec fn first_not_in(xs: Seq<Seq<char>>, pool: Seq<Seq<char>>, i: int) -> int
    decreases xs.len() - i,
{
    if i < 0 || i >= xs.len() {
        xs.len() as int
    } else if idx_of_name(pool, xs[i], 0) == pool.len() {
        i
    } else {
        first_not_in(xs, pool, i + 1)
    }
}

/// Characterizes [`first_not_in`].
pub proof fn lemma_first_not_in(xs: Seq<Seq<char>>, pool: Seq<Seq<char>>, i: int)
    requires
        0 <= i <= xs.len(),
    ensures
        i <= first_not_in(xs, pool, i) <= xs.len(),
        first_not_in(xs, pool, i) < xs.len() ==> idx_of_name(
            pool,
            xs[first_not_in(xs, pool, i)],
            0,
        ) == pool.len(),
        forall|k: int|
            i <= k < first_not_in(xs, pool, i) ==> idx_of_name(pool, #[trigger] xs[k], 0)
                < pool.len(),
        first_not_in(xs, pool, i) == xs.len() ==> forall|k: int|
            i <= k < xs.len() ==> idx_of_name(pool, #[trigger] xs[k], 0) < pool.len(),
    decreases xs.len() - i,
{
    if 0 <= i < xs.len() && idx_of_name(pool, xs[i], 0) != pool.len() {
        lemma_idx_of_name(pool, xs[i], 0);
        lemma_first_not_in(xs, pool, i + 1);
    }
}

/// The schema of a select: exactly the requested names, in their order,
/// each with the type it has in `s`. The first name absent from `s`
/// fails with `UnknownColumn`; then the first repeated name fails with
/// `DuplicateColumn`.
pub open spec fn sel_schema(s: SchemaV, ns: Seq<Seq<char>>) -> Result<SchemaV, ErrorV> {
    let m = first_not_in(ns, s.names, 0);
    if m < ns.len() {
        Err(ErrorV::UnknownColumn(ns[m]))
    } else {
        let d = first_dup_name(ns, 0);
        if d < ns.len() {
            Err(ErrorV::DuplicateColumn(ns[d]))
        } else {
            Ok(
                SchemaV {
                    names: ns,
                    dtypes: Seq::new(ns.len(), |i: int| s.dtypes[idx_of_name(s.names, ns[i], 0)]),
                },
            )
        }
    }
}

/// The first `i` columns of `s` whose names are not in `ns`, in order.
pub open spec fn drop_keep(s: SchemaV, ns: Seq<Seq<char>>, i: int) -> SchemaV
    decreases i,
{
    if i <= 0 {
        SchemaV { names: Seq::empty(), dtypes: Seq::empty() }
    } else {
        let prev = drop_keep(s, ns, i - 1);
        if idx_of_name(ns, s.names[i - 1], 0) < ns.len() {
            prev
        } else {
            SchemaV { names: prev.names.push(s.names[i - 1]), dtypes: prev.dtypes.push(s.dtypes[i - 1]) }
        }
    }
}

/// The schema of a drop: all of `s`'s columns except the named ones, in
/// the original order. Unknown names are silently ignored, so a drop
/// never fails.
pub open spec fn drop_schema(s: SchemaV, ns: Seq<Seq<char>>) -> SchemaV {
    drop_keep(s, ns, s.names.len() as int)
}

/// The label of a binary operator, used in diagnostics and plan dumps.
pub open spec fn op_label(op: Op) -> Seq<char> {
    match op {
        Op::Plus => "+"@,
        Op::Minus => "-"@,
        Op::Multiply => "*"@,
        Op::Equals => "=="@,
        Op::Less => "<"@,
        Op::Greater => ">"@,
        Op::And => "&"@,
        Op::Or => "|"@,
    }
}

/// Renders a binary operator's label.
pub fn op_label_str(op: Op) -> (r: String)
    ensures
        r@ == op_label(op),
{
    match op {
        Op::Plus => String::from_str("+"),
        Op::Minus => String::from_str("-"),
        Op::Multiply => String::from_str("*"),
        Op::Equals => String::from_str("=="),
        Op::Less => String::from_str("<"),
        Op::Greater => String::from_str(">"),
        Op::And => String::from_str("&"),
        Op::Or => String::from_str("|"),
    }
}

/// The output type of a binary operator on operand types `lt` and `rt`:
/// arithmetic needs two integers and yields an integer; `==` needs equal
/// types and yields a boolean; `<` and `>` need two integers and yield a
/// boolean; `&` and `|` need two booleans and yield a boolean. Anything
/// else is a `TypeMismatch` naming the expected type, the offending
/// actual type, and the operator.
pub open spec fn binop_type(op: Op, lt: DType, rt: DType) -> Result<DType, ErrorV> {
    match op {
        Op::Plus | Op::Minus | Op::Multiply => if lt is Int && rt is Int {
            Ok(DType::Int)
        } else {
            Err(ErrorV::TypeMismatch(DType::Int, if !(lt is Int) { lt } else { rt }, op_label(op)))
        },
        Op::Equals => if lt == rt {
            Ok(DType::Bool)
        } else {
            Err(ErrorV::TypeMismatch(lt, rt, op_label(op)))
        },
        Op::Less | Op::Greater => if lt is Int && rt is Int {
            Ok(DType::Bool)
        } else {
            Err(ErrorV::TypeMismatch(DType::Int, if !(lt is Int) { lt } else { rt }, op_label(op)))
        },
        Op::And | Op::Or => if lt is Bool && rt is Bool {
            Ok(DType::Bool)
        } else {
            Err(
                ErrorV::TypeMismatch(
                    DType::Bool,
                    if !(lt is Bool) {
                        lt
                    } else {
                        rt
                    },
                    op_label(op),
                ),
            )
        },
    }
}

/// Executable twin of [`binop_type`].
pub fn binop_type_of(op: Op, lt: DType, rt: DType) -> (r: Result<DType, Error>)
    ensures
        match binop_type(op, lt, rt) {
            Ok(dt) => r == Ok::<DType, Error>(dt),
            Err(e) => r is Err && r->Err_0@ == e,
        },
{
    match op {
        Op::Plus | Op::Minus | Op::Multiply => if matches!(lt, DType::Int) && matches!(rt, DType::Int) {
            Ok(DType::Int)
        } else {
            Err(
                Error::TypeMismatch(
                    DType::Int,
                    if !matches!(lt, DType::Int) {
                        lt
                    } else {
                        rt
                    },
                    op_label_str(op),
                ),
            )
        },
        Op::Equals => if lt == rt {
            Ok(DType::Bool)
        } else {
            Err(Error::TypeMismatch(lt, rt, op_label_str(op)))
        },
        Op::Less | Op::Greater => if matches!(lt, DType::Int) && matches!(rt, DType::Int) {
            Ok(DType::Bool)
        } else {
            Err(
                Error::TypeMismatch(
                    DType::Int,
                    if !matches!(lt, DType::Int) {
                        lt
                    } else {
                        rt
                    },
                    op_label_str(op),
                ),
            )
        },
        Op::And | Op::Or => if matches!(lt, DType::Bool) && matches!(rt, DType::Bool) {
            Ok(DType::Bool)
        } else {
            Err(
                Error::TypeMismatch(
                    DType::Bool,
                    if !matches!(lt, DType::Bool) {
                        lt
                    } else {
                        rt
                    },
                    op_label_str(op),
                ),
            )
        },
    }
}

/// The output name and type of an expression evaluated once per row
/// against schema `s` (the context of a filter predicate or a groupby
/// key). Aggregates, the wildcard and excludes are not row expressions.
pub open spec fn row_expr_schema(e: Expr, s: SchemaV) -> Result<(Seq<char>, DType), ErrorV>
    decreases e,
{
    match e {
        Expr::Col(n) => {
            let j = idx_of_name(s.names, n@, 0);
            if j < s.names.len() {
                Ok((n@, s.dtypes[j]))
            } else {
                Err(ErrorV::UnknownColumn(n@))
            }
        },
        Expr::Lit(v) => match v {
            Value::Int(_) => Ok(("literal"@, DType::Int)),
            Value::Bool(_) => Ok(("literal"@, DType::Bool)),
            Value::Null => Err(ErrorV::SchemaResolutionFailure("null literal"@)),
        },
        Expr::BinOp(l, r, op) => match row_expr_schema(*l, s) {
            Err(e) => Err(e),
            Ok((ln, lt)) => match row_expr_schema(*r, s) {
                Err(e) => Err(e),
                Ok((_, rt)) => match binop_type(op, lt, rt) {
                    Err(e) => Err(e),
                    Ok(dt) => Ok((ln, dt)),
                },
            },
        },
        Expr::Agg(_, _) => Err(ErrorV::SchemaResolutionFailure("aggregate outside groupby"@)),
        Expr::Wildcard => Err(ErrorV::SchemaResolutionFailure("wildcard outside groupby"@)),
        Expr::Exclude(_, _) => Err(ErrorV::SchemaResolutionFailure("exclude outside groupby"@)),
        Expr::Alias(inner, n) => match row_expr_schema(*inner, s) {
            Err(e) => Err(e),
            Ok((_, dt)) => Ok((n@, dt)),
        },
    }
}

/// The label of an aggregation kind.
pub open spec fn agg_label(kind: AggKind) -> Seq<char> {
    match kind {
        AggKind::Sum => "sum"@,
        AggKind::Min => "min"@,
        AggKind::Max => "max"@,
        AggKind::Count => "count"@,
        AggKind::First => "first"@,
    }
}

/// Renders an aggregation kind's label.
pub fn agg_label_str(kind: AggKind) -> (r: String)
    ensures
        r@ == agg_label(kind),
{
    match kind {
        AggKind::Sum => String::from_str("sum"),
        AggKind::Min => String::from_str("min"),
        AggKind::Max => String::from_str("max"),
        AggKind::Count => String::from_str("count"),
        AggKind::First => String::from_str("first"),
    }
}

/// The output type of an aggregation over a column of type `dt`: sum,
/// min and max need an integer column and yield integers; count accepts
/// any column and yields an integer; first keeps the column's type.
pub open spec fn agg_kind_type(kind: AggKind, dt: DType) -> Result<DType, ErrorV> {
    match kind {
        AggKind::Sum | AggKind::Min | AggKind::Max => if dt is Int {
            Ok(DType::Int)
        } else {
            Err(ErrorV::TypeMismatch(DType::Int, dt, agg_label(kind)))
        },
        AggKind::Count => Ok(DType::Int),
        AggKind::First => Ok(dt),
    }
}

/// Executable twin of [`agg_kind_type`].
pub fn agg_kind_type_of(kind: AggKind, dt: DType) -> (r: Result<DType, Error>)
    ensures
        match agg_kind_type(kind, dt) {
            Ok(d) => r == Ok::<DType, Error>(d),
            Err(e) => r is Err && r->Err_0@ == e,
        },
{
    match kind {
        AggKind::Sum | AggKind::Min | AggKind::Max => if matches!(dt, DType::Int) {
            Ok(DType::Int)
        } else {
            Err(Error::TypeMismatch(DType::Int, dt, agg_label_str(kind)))
        },
        AggKind::Count => Ok(DType::Int),
        AggKind::First => Ok(dt),
    }
}

/// The output columns contributed by one aggregate expression under a
/// groupby whose keys produce the names `keyn`. The wildcard (and the
/// wildcard with excludes) passes through every non-key input column; an
/// aggregation contributes one column; a bare row expression contributes
/// one column aggregated as `first` (the engine's documented default);
/// an alias renames a single contributed column.
pub open spec fn agg_expr_schema(a: Expr, s: SchemaV, keyn: Seq<Seq<char>>) -> Result<
    SchemaV,
    ErrorV,
>
    decreases a,
{
    match a {
        Expr::Wildcard => Ok(drop_schema(s, keyn)),
        Expr::Exclude(inner, ns) => if *inner is Wildcard {
            Ok(drop_schema(s, keyn + names_view(ns)))
        } else {
            Err(ErrorV::SchemaResolutionFailure("exclude must wrap the wildcard"@))
        },
        Expr::Agg(inner, kind) => match row_expr_schema(*inner, s) {
            Err(e) => Err(e),
            Ok((n, dt)) => match agg_kind_type(kind, dt) {
                Err(e) => Err(e),
                Ok(dt2) => Ok(SchemaV { names: seq![n], dtypes: seq![dt2] }),
            },
        },
        Expr::Alias(inner, n) => match agg_expr_schema(*inner, s, keyn) {
            Err(e) => Err(e),
            Ok(sub) => if sub.names.len() == 1 {
                Ok(SchemaV { names: seq![n@], dtypes: sub.dtypes })
            } else {
                Err(ErrorV::SchemaResolutionFailure("alias on a multi-column aggregate"@))
            },
        },
        _ => match row_expr_schema(a, s) {
            Err(e) => Err(e),
            Ok((n, dt)) => Ok(SchemaV { names: seq![n], dtypes: seq![dt] }),
        },
    }
}

/// The names and types of the first `i` groupby keys, each resolved as a
/// row expression, stopping at the first error.
pub open spec fn keys_schema(keys: Seq<Expr>, s: SchemaV, i: int) -> Result<SchemaV, ErrorV>
    decreases i,
{
    if i <= 0 {
        Ok(SchemaV { names: Seq::empty(), dtypes: Seq::empty() })
    } else {
        match keys_schema(keys, s, i - 1) {
            Err(e) => Err(e),
            Ok(sch) => match row_expr_schema(keys[i - 1], s) {
                Err(e) => Err(e),
                Ok((n, dt)) => Ok(SchemaV { names: sch.names.push(n), dtypes: sch.dtypes.push(dt) }),
            },
        }
    }
}

/// Once a prefix of the keys fails, every longer prefix fails the same way.
pub proof fn lemma_keys_schema_stops(keys: Seq<Expr>, s: SchemaV, i: int, j: int)
    requires
        0 <= i <= j,
        keys_schema(keys, s, i) is Err,
    ensures
        keys_schema(keys, s, j) == keys_schema(keys, s, i),
    decreases j - i,
{
    if j > i {
        lemma_keys_schema_stops(keys, s, i, j - 1);
    }
}

/// The concatenated output columns of the first `i` aggregate
/// expressions, stopping at the first error.
pub open spec fn aggs_schema(aggs: Seq<Expr>, s: SchemaV, keyn: Seq<Seq<char>>, i: int) -> Result<
    SchemaV,
    ErrorV,
>
    decreases i,
{
    if i <= 0 {
        Ok(SchemaV { names: Seq::empty(), dtypes: Seq::empty() })
    } else {
        match aggs_schema(aggs, s, keyn, i - 1) {
            Err(e) => Err(e),
            Ok(sch) => match agg_expr_schema(aggs[i - 1], s, keyn) {
                Err(e) => Err(e),
                Ok(sub) => Ok(
                    SchemaV { names: sch.names + sub.names, dtypes: sch.dtypes + sub.dtypes },
                ),
            },
        }
    }
}

/// Once a prefix of the aggregates fails, every longer prefix fails the
/// same way.
pub proof fn lemma_aggs_schema_stops(
    aggs: Seq<Expr>,
    s: SchemaV,
    keyn: Seq<Seq<char>>,
    i: int,
    j: int,
)
    requires
        0 <= i <= j,
        aggs_schema(aggs, s, keyn, i) is Err,
    ensures
        aggs_schema(aggs, s, keyn, j) == aggs_schema(aggs, s, keyn, i),
    decreases j - i,
{
    if j > i {
        lemma_aggs_schema_stops(aggs, s, keyn, i, j - 1);
    }
}

/// The schema of a groupby-aggregate over input schema `s`: the key
/// columns, then the aggregate columns, in declared order; two output
/// columns with one name fail with `DuplicateColumn`.
pub open spec fn gb_schema(s: SchemaV, keys: Seq<Expr>, aggs: Seq<Expr>) -> Result<
    SchemaV,
    ErrorV,
> {
    match keys_schema(keys, s, keys.len() as int) {
        Err(e) => Err(e),
        Ok(ks) => match aggs_schema(aggs, s, ks.names, aggs.len() as int) {
            Err(e) => Err(e),
            Ok(asch) => {
                let all = SchemaV { names: ks.names + asch.names, dtypes: ks.dtypes + asch.dtypes };
                let d = first_dup_name(all.names, 0);
                if d < all.names.len() {
                    Err(ErrorV::DuplicateColumn(all.names[d]))
                } else {
                    Ok(all)
                }
            },
        },
    }
}

/// The output schema of a plan, by structural recursion: select restricts
/// and reorders, drop removes, the row-range operations keep the input
/// schema, filter checks its predicate is boolean and keeps the input
/// schema, and groupby produces key columns then aggregate columns.
pub open spec fn plan_schema(p: LogicalPlan) -> Result<SchemaV, ErrorV>
    decreases p,
{
    match p {
        LogicalPlan::Scan(t) => Ok(table_schema(t@)),
        LogicalPlan::Select(input, ns) => match plan_schema(*input) {
            Err(e) => Err(e),
            Ok(s) => sel_schema(s, names_view(ns)),
        },
        LogicalPlan::DropCols(input, ns) => match plan_schema(*input) {
            Err(e) => Err(e),
            Ok(s) => Ok(drop_schema(s, names_view(ns))),
        },
        LogicalPlan::Slice(input, _, _) => plan_schema(*input),
        LogicalPlan::Limit(input, _) => plan_schema(*input),
        LogicalPlan::Tail(input, _) => plan_schema(*input),
        LogicalPlan::Filter(input, e) => match plan_schema(*input) {
            Err(er) => Err(er),
            Ok(s) => match row_expr_schema(e, s) {
                Err(er) => Err(er),
                Ok((_, dt)) => if dt is Bool {
                    Ok(s)
                } else {
                    Err(ErrorV::TypeMismatch(DType::Bool, dt, "filter"@))
                },
            },
        },
        LogicalPlan::GroupByAgg(input, keys, aggs, _) => match plan_schema(*input) {
            Err(e) => Err(e),
            Ok(s) => gb_schema(s, keys@, aggs@),
        },
    }
}

/// [`drop_keep`] yields one type per name.
pub proof fn lemma_drop_keep_arity(s: SchemaV, ns: Seq<Seq<char>>, i: int)
    ensures
        drop_keep(s, ns, i).arity_ok(),
    decreases i,
{
    if i > 0 {
        lemma_drop_keep_arity(s, ns, i - 1);
    }
}

/// A successful [`agg_expr_schema`] yields one type per name.
pub proof fn lemma_agg_expr_schema_arity(a: Expr, s: SchemaV, keyn: Seq<Seq<char>>)
    requires
        agg_expr_schema(a, s, keyn) is Ok,
    ensures
        agg_expr_schema(a, s, keyn)->Ok_0.arity_ok(),
    decreases a,
{
    match a {
        Expr::Wildcard => {
            lemma_drop_keep_arity(s, keyn, s.names.len() as int);
        },
        Expr::Exclude(inner, ns) => {
            lemma_drop_keep_arity(s, keyn + names_view(ns), s.names.len() as int);
        },
        Expr::Alias(inner, _) => {
            lemma_agg_expr_schema_arity(*inner, s, keyn);
        },
        _ => {},
    }
}

/// A successful [`keys_schema`] yields one type per name.
pub proof fn lemma_keys_schema_arity(keys: Seq<Expr>, s: SchemaV, i: int)
    requires
        keys_schema(keys, s, i) is Ok,
    ensures
        keys_schema(keys, s, i)->Ok_0.arity_ok(),
    decreases i,
{
    if i > 0 {
        lemma_keys_schema_arity(keys, s, i - 1);
    }
}

/// A successful [`aggs_schema`] yields one type per name.
pub proof fn lemma_aggs_schema_arity(aggs: Seq<Expr>, s: SchemaV, keyn: Seq<Seq<char>>, i: int)
    requires
        aggs_schema(aggs, s, keyn, i) is Ok,
    ensures
        aggs_schema(aggs, s, keyn, i)->Ok_0.arity_ok(),
    decreases i,
{
    if i > 0 {
        lemma_aggs_schema_arity(aggs, s, keyn, i - 1);
        lemma_agg_expr_schema_arity(aggs[i - 1], s, keyn);
    }
}

/// A successfully resolved schema of a well-formed plan yields one type
/// per name.
pub proof fn lemma_plan_schema_arity(p: LogicalPlan)
    requires
        plan_wf(p),
        plan_schema(p) is Ok,
    ensures
        plan_schema(p)->Ok_0.arity_ok(),
    decreases p,
{
    match p {
        LogicalPlan::Scan(t) => {},
        LogicalPlan::Select(input, ns) => {
            lemma_plan_schema_arity(*input);
        },
        LogicalPlan::DropCols(input, ns) => {
            lemma_plan_schema_arity(*input);
            let s = plan_schema(*input)->Ok_0;
            lemma_drop_keep_arity(s, names_view(ns), s.names.len() as int);
        },
        LogicalPlan::Slice(input, _, _) => {
            lemma_plan_schema_arity(*input);
        },
        LogicalPlan::Limit(input, _) => {
            lemma_plan_schema_arity(*input);
        },
        LogicalPlan::Tail(input, _) => {
            lemma_plan_schema_arity(*input);
        },
        LogicalPlan::Filter(input, _) => {
            lemma_plan_schema_arity(*input);
        },
        LogicalPlan::GroupByAgg(input, keys, aggs, _) => {
            lemma_plan_schema_arity(*input);
            let s = plan_schema(*input)->Ok_0;
            if keys_schema(keys@, s, keys@.len() as int) is Ok {
                lemma_keys_schema_arity(keys@, s, keys@.len() as int);
                let ks = keys_schema(keys@, s, keys@.len() as int)->Ok_0;
                if aggs_schema(aggs@, s, ks.names, aggs@.len() as int) is Ok {
                    lemma_aggs_schema_arity(aggs@, s, ks.names, aggs@.len() as int);
                }
            }
        },
    }
}

/// Copies a vector of data types.
pub fn clone_dtypes(v: &Vec<DType>) -> (r: Vec<DType>)
    ensures
        r@ == v@,
{
    let mut out: Vec<DType> = Vec::new();
    let mut i: usize = 0;
    while i < v.len()
        invariant
            i <= v.len(),
            out@.len() == i,
            forall|k: int| 0 <= k < i ==> out@[k] == v@[k],
        decreases v.len() - i,
    {
        out.push(v[i]);
        i += 1;
    }
    proof {
        assert(out@ =~= v@);
    }
    out
}

/// Resolves the output name and type of a row expression against `s`.
pub fn schema_of_expr(e: &Expr, s: &Schema) -> (r: Result<(String, DType), Error>)
    requires
        s@.arity_ok(),
    ensures
        match row_expr_schema(*e, s@) {
            Ok(p) => r matches Ok(q) && q.0@ == p.0 && q.1 == p.1,
            Err(er) => r matches Err(q) && q@ == er,
        },
    decreases *e,
{
    match e {
        Expr::Col(n) => {
            let j = find_name(&s.names, n);
            if j < s.names.len() {
                Ok((n.clone(), s.dtypes[j]))
            } else {
                Err(Error::UnknownColumn(n.clone()))
            }
        },
        Expr::Lit(v) => match v {
            Value::Int(_) => Ok((String::from_str("literal"), DType::Int)),
            Value::Bool(_) => Ok((String::from_str("literal"), DType::Bool)),
            Value::Null => Err(Error::SchemaResolutionFailure(String::from_str("null literal"))),
        },
        Expr::BinOp(l, r, op) => match schema_of_expr(&*l, s) {
            Err(e) => Err(e),
            Ok((ln, lt)) => match schema_of_expr(&*r, s) {
                Err(e) => Err(e),
                Ok((_, rt)) => match binop_type_of(*op, lt, rt) {
                    Err(e) => Err(e),
                    Ok(dt) => Ok((ln, dt)),
                },
            },
        },
        Expr::Agg(_, _) => Err(
            Error::SchemaResolutionFailure(String::from_str("aggregate outside groupby")),
        ),
        Expr::Wildcard => Err(
            Error::SchemaResolutionFailure(String::from_str("wildcard outside groupby")),
        ),
        Expr::Exclude(_, _) => Err(
            Error::SchemaResolutionFailure(String::from_str("exclude outside groupby")),
        ),
        Expr::Alias(inner, n) => match schema_of_expr(&*inner, s) {
            Err(e) => Err(e),
            Ok((_, dt)) => Ok((n.clone(), dt)),
        },
    }
}

/// Resolves a select against `s`: the requested names in their order.
pub fn schema_select(s: &Schema, ns: &Vec<String>) -> (r: Result<Schema, Error>)
    requires
        s@.arity_ok(),
    ensures
        schema_res_view(r) == sel_schema(s@, names_view(*ns)),
{
    let ghost nsv = names_view(*ns);
    let ghost sv = s@;
    proof {
        assert(nsv.len() == ns@.len());
        lemma_first_not_in(nsv, sv.names, 0);
    }
    let mut i: usize = 0;
    while i < ns.len()
        invariant
            s@ == sv,
            sv.arity_ok(),
            i <= ns.len(),
            nsv == names_view(*ns),
            first_not_in(nsv, sv.names, 0) >= i,
        decreases ns.len() - i,
    {
        proof {
            assert(nsv[i as int] == ns@[i as int]@);
        }
        let j = find_name(&s.names, &ns[i]);
        if j == s.names.len() {
            proof {
                lemma_first_not_in(nsv, sv.names, 0);
                if first_not_in(nsv, sv.names, 0) > i {
                    assert(idx_of_name(sv.names, #[trigger] nsv[i as int], 0) < sv.names.len());
                }
                assert(first_not_in(nsv, sv.names, 0) == i);
            }
            return Err(Error::UnknownColumn(ns[i].clone()));
        }
        proof {
            lemma_idx_of_name(sv.names, nsv[i as int], 0);
            lemma_first_not_in(nsv, sv.names, 0);
            if first_not_in(nsv, sv.names, 0) == i {
                assert(false);
            }
        }
        i += 1;
    }
    proof {
        lemma_first_not_in(nsv, sv.names, 0);
        assert(first_not_in(nsv, sv.names, 0) == nsv.len());
    }
    let d = find_first_dup(ns);
    if d < ns.len() {
        proof {
            assert(nsv[d as int] == ns@[d as int]@);
        }
        return Err(Error::DuplicateColumn(ns[d].clone()));
    }
    let mut dtypes: Vec<DType> = Vec::new();
    let mut i: usize = 0;
    while i < ns.len()
        invariant
            s@ == sv,
            sv.arity_ok(),
            i <= ns.len(),
            nsv == names_view(*ns),
            first_not_in(nsv, sv.names, 0) == nsv.len(),
            dtypes@.len() == i,
            forall|k: int|
                0 <= k < i ==> dtypes@[k] == sv.dtypes[idx_of_name(sv.names, nsv[k], 0)],
        decreases ns.len() - i,
    {
        proof {
            assert(nsv[i as int] == ns@[i as int]@);
            lemma_first_not_in(nsv, sv.names, 0);
            lemma_idx_of_name(sv.names, nsv[i as int], 0);
        }
        let j = find_name(&s.names, &ns[i]);
        dtypes.push(s.dtypes[j]);
        i += 1;
    }
    let names = clone_names(ns);
    proof {
        assert(dtypes@ =~= Seq::new(
            nsv.len(),
            |k: int| sv.dtypes[idx_of_name(sv.names, nsv[k], 0)],
        ));
    }
    Ok(Schema { names, dtypes })
}

/// Resolves a drop against `s`: all columns except the named ones.
pub fn schema_drop(s: &Schema, ns: &Vec<String>) -> (r: Schema)
    requires
        s@.arity_ok(),
    ensures
        r@ == drop_schema(s@, names_view(*ns)),
{
    let ghost nsv = names_view(*ns);
    let ghost sv = s@;
    proof {
        assert(sv.names.len() == s.names@.len());
    }
    let mut out_names: Vec<String> = Vec::new();
    let mut out_dtypes: Vec<DType> = Vec::new();
    let mut i: usize = 0;
    while i < s.names.len()
        invariant
            s@ == sv,
            sv.arity_ok(),
            sv.names.len() == s.names@.len(),
            i <= s.names@.len(),
            nsv == names_view(*ns),
            names_view(out_names) == drop_keep(sv, nsv, i as int).names,
            out_dtypes@ == drop_keep(sv, nsv, i as int).dtypes,
        decreases s.names@.len() - i,
    {
        proof {
            assert(sv.names[i as int] == s.names@[i as int]@);
            assert(nsv.len() == ns@.len());
        }
        let j = find_name(ns, &s.names[i]);
        if j == ns.len() {
            out_names.push(s.names[i].clone());
            out_dtypes.push(s.dtypes[i]);
            proof {
                assert(idx_of_name(nsv, sv.names[i as int], 0) == nsv.len());
                assert(names_view(out_names) =~= drop_keep(sv, nsv, i + 1).names);
                assert(out_dtypes@ =~= drop_keep(sv, nsv, i + 1).dtypes);
            }
        } else {
            proof {
                lemma_idx_of_name(nsv, sv.names[i as int], 0);
                assert(idx_of_name(nsv, sv.names[i as int], 0) < nsv.len());
                assert(drop_keep(sv, nsv, i + 1) == drop_keep(sv, nsv, i as int));
            }
        }
        i += 1;
    }
    Schema { names: out_names, dtypes: out_dtypes }
}

/// Resolves the output columns of one aggregate expression.
pub fn schema_of_agg(a: &Expr, s: &Schema, keyn: &Vec<String>) -> (r: Result<Schema, Error>)
    requires
        s@.arity_ok(),
    ensures
        schema_res_view(r) == agg_expr_schema(*a, s@, names_view(*keyn)),
    decreases *a,
{
    let ghost keynv = names_view(*keyn);
    match a {
        Expr::Wildcard => Ok(schema_drop(s, keyn)),
        Expr::Exclude(inner, ns) => {
            if matches!(&**inner, Expr::Wildcard) {
                let mut excl = clone_names(keyn);
                let mut i: usize = 0;
                while i < ns.len()
                    invariant
                        i <= ns.len(),
                        names_view(excl).len() == keynv.len() + i,
                        forall|k: int| 0 <= k < keynv.len() ==> names_view(excl)[k] == keynv[k],
                        forall|k: int|
                            0 <= k < i ==> names_view(excl)[keynv.len() + k] == names_view(*ns)[k],
                    decreases ns.len() - i,
                {
                    excl.push(ns[i].clone());
                    i += 1;
                }
                proof {
                    assert(names_view(excl) =~= keynv + names_view(*ns));
                }
                Ok(schema_drop(s, &excl))
            } else {
                Err(Error::SchemaResolutionFailure(String::from_str("exclude must wrap the wildcard")))
            }
        },
        Expr::Agg(inner, kind) => match schema_of_expr(&*inner, s) {
            Err(e) => Err(e),
            Ok((n, dt)) => match agg_kind_type_of(*kind, dt) {
                Err(e) => Err(e),
                Ok(dt2) => {
                    let names: Vec<String> = vec![n];
                    let dtypes: Vec<DType> = vec![dt2];
                    proof {
                        assert(names_view(names) =~= seq![
                            row_expr_schema(*(a->Agg_0), s@)->Ok_0.0,
                        ]);
                        assert(dtypes@ =~= seq![agg_kind_type(a->Agg_1, row_expr_schema(*(a->Agg_0), s@)->Ok_0.1)->Ok_0]);
                    }
                    Ok(Schema { names, dtypes })
                },
            },
        },
        Expr::Alias(inner, n) => match schema_of_agg(&*inner, s, keyn) {
            Err(e) => Err(e),
            Ok(sub) => {
                if sub.names.len() == 1 {
                    let names: Vec<String> = vec![n.clone()];
                    proof {
                        assert(names_view(names) =~= seq![n@]);
                    }
                    Ok(Schema { names, dtypes: sub.dtypes })
                } else {
                    Err(
                        Error::SchemaResolutionFailure(
                            String::from_str("alias on a multi-column aggregate"),
                        ),
                    )
                }
            },
        },
        _ => match schema_of_expr(a, s) {
            Err(e) => Err(e),
            Ok((n, dt)) => {
                let names: Vec<String> = vec![n];
                let dtypes: Vec<DType> = vec![dt];
                proof {
                    assert(names_view(names) =~= seq![row_expr_schema(*a, s@)->Ok_0.0]);
                    assert(dtypes@ =~= seq![row_expr_schema(*a, s@)->Ok_0.1]);
                }
                Ok(Schema { names, dtypes })
            },
        },
    }
}

/// Resolves all groupby keys, in order.
pub fn schema_of_keys(keys: &Vec<Expr>, s: &Schema) -> (r: Result<Schema, Error>)
    requires
        s@.arity_ok(),
    ensures
        schema_res_view(r) == keys_schema(keys@, s@, keys@.len() as int),
{
    let mut names: Vec<String> = Vec::new();
    let mut dtypes: Vec<DType> = Vec::new();
    proof {
        assert(names_view(names) =~= Seq::<Seq<char>>::empty());
        assert(dtypes@ =~= Seq::<DType>::empty());
    }
    let mut i: usize = 0;
    while i < keys.len()
        invariant
            s@.arity_ok(),
            i <= keys@.len(),
            keys_schema(keys@, s@, i as int) == Ok::<SchemaV, ErrorV>(
                SchemaV { names: names_view(names), dtypes: dtypes@ },
            ),
        decreases keys.len() - i,
    {
        match schema_of_expr(&keys[i], s) {
            Err(e) => {
                proof {
                    lemma_keys_schema_stops(keys@, s@, i + 1, keys@.len() as int);
                }
                return Err(e);
            },
            Ok((n, dt)) => {
                names.push(n);
                dtypes.push(dt);
                proof {
                    assert(names_view(names) =~= keys_schema(keys@, s@, i as int)->Ok_0.names.push(
                        row_expr_schema(keys@[i as int], s@)->Ok_0.0,
                    ));
                }
            },
        }
        i += 1;
    }
    Ok(Schema { names, dtypes })
}

/// Resolves all aggregate expressions, concatenating their columns.
pub fn schema_of_aggs(aggs: &Vec<Expr>, s: &Schema, keyn: &Vec<String>) -> (r: Result<
    Schema,
    Error,
>)
    requires
        s@.arity_ok(),
    ensures
        schema_res_view(r) == aggs_schema(aggs@, s@, names_view(*keyn), aggs@.len() as int),
{
    let ghost keynv = names_view(*keyn);
    let mut names: Vec<String> = Vec::new();
    let mut dtypes: Vec<DType> = Vec::new();
    proof {
        assert(names_view(names) =~= Seq::<Seq<char>>::empty());
        assert(dtypes@ =~= Seq::<DType>::empty());
    }
    let mut i: usize = 0;
    while i < aggs.len()
        invariant
            s@.arity_ok(),
            i <= aggs@.len(),
            keynv == names_view(*keyn),
            aggs_schema(aggs@, s@, keynv, i as int) == Ok::<SchemaV, ErrorV>(
                SchemaV { names: names_view(names), dtypes: dtypes@ },
            ),
        decreases aggs.len() - i,
    {
        match schema_of_agg(&aggs[i], s, keyn) {
            Err(e) => {
                proof {
                    lemma_aggs_schema_stops(aggs@, s@, keynv, i + 1, aggs@.len() as int);
                }
                return Err(e);
            },
            Ok(sub) => {
                let ghost base_n = names_view(names);
                let ghost base_d = dtypes@;
                let ghost subv = sub@;
                let mut k: usize = 0;
                while k < sub.names.len()
                    invariant
                        k <= sub.names@.len(),
                        subv == sub@,
                        subv.names.len() == sub.names@.len(),
                        names_view(names).len() == base_n.len() + k,
                        forall|q: int| 0 <= q < base_n.len() ==> names_view(names)[q] == base_n[q],
                        forall|q: int|
                            0 <= q < k ==> names_view(names)[base_n.len() + q] == subv.names[q],
                    decreases sub.names@.len() - k,
                {
                    names.push(sub.names[k].clone());
                    k += 1;
                }
                let mut k: usize = 0;
                while k < sub.dtypes.len()
                    invariant
                        k <= sub.dtypes@.len(),
                        subv == sub@,
                        subv.dtypes == sub.dtypes@,
                        dtypes@.len() == base_d.len() + k,
                        forall|q: int| 0 <= q < base_d.len() ==> dtypes@[q] == base_d[q],
                        forall|q: int| 0 <= q < k ==> dtypes@[base_d.len() + q] == subv.dtypes[q],
                    decreases sub.dtypes@.len() - k,
                {
                    dtypes.push(sub.dtypes[k]);
                    k += 1;
                }
                proof {
                    assert(names_view(names) =~= base_n + subv.names);
                    assert(dtypes@ =~= base_d + subv.dtypes);
                }
            },
        }
        i += 1;
    }
    Ok(Schema { names, dtypes })
}

/// Resolves a groupby-aggregate: key columns then aggregate columns,
/// with a duplicate-name check over the whole output.
pub fn schema_groupby(s: &Schema, keys: &Vec<Expr>, aggs: &Vec<Expr>) -> (r: Result<Schema, Error>)
    requires
        s@.arity_ok(),
    ensures
        schema_res_view(r) == gb_schema(s@, keys@, aggs@),
{
    let ks = match schema_of_keys(keys, s) {
        Err(e) => {
            return Err(e);
        },
        Ok(ks) => ks,
    };
    let asch = match schema_of_aggs(aggs, s, &ks.names) {
        Err(e) => {
            return Err(e);
        },
        Ok(a) => a,
    };
    let ghost ksv = ks@;
    let ghost asv = asch@;
    let mut names = ks.names;
    let mut dtypes = ks.dtypes;
    let ghost base_n = names_view(names);
    let ghost base_d = dtypes@;
    let mut k: usize = 0;
    while k < asch.names.len()
        invariant
            k <= asch.names@.len(),
            asv == asch@,
            asv.names.len() == asch.names@.len(),
            names_view(names).len() == base_n.len() + k,
            forall|q: int| 0 <= q < base_n.len() ==> names_view(names)[q] == base_n[q],
            forall|q: int| 0 <= q < k ==> names_view(names)[base_n.len() + q] == asv.names[q],
        decreases asch.names@.len() - k,
    {
        names.push(asch.names[k].clone());
        k += 1;
    }
    let mut k: usize = 0;
    while k < asch.dtypes.len()
        invariant
            k <= asch.dtypes@.len(),
            asv == asch@,
            asv.dtypes == asch.dtypes@,
            dtypes@.len() == base_d.len() + k,
            forall|q: int| 0 <= q < base_d.len() ==> dtypes@[q] == base_d[q],
            forall|q: int| 0 <= q < k ==> dtypes@[base_d.len() + q] == asv.dtypes[q],
        decreases asch.dtypes@.len() - k,
    {
        dtypes.push(asch.dtypes[k]);
        k += 1;
    }
    proof {
        assert(names_view(names) =~= ksv.names + asv.names);
        assert(dtypes@ =~= ksv.dtypes + asv.dtypes);
    }
    let d = find_first_dup(&names);
    if d < names.len() {
        proof {
            assert(names_view(names)[d as int] == names@[d as int]@);
        }
        return Err(Error::DuplicateColumn(names[d].clone()));
    }
    Ok(Schema { names, dtypes })
}

/// Resolves the output schema of a plan without executing it.
pub fn resolve_schema(p: &LogicalPlan) -> (r: Result<Schema, Error>)
    requires
        plan_wf(*p),
    ensures
        schema_res_view(r) == plan_schema(*p),
    decreases *p,
{
    match p {
        LogicalPlan::Scan(t) => Ok(
            Schema { names: clone_names(&t.names), dtypes: clone_dtypes(&t.dtypes) },
        ),
        LogicalPlan::Select(input, ns) => match resolve_schema(&*input) {
            Err(e) => Err(e),
            Ok(s) => {
                proof {
                    lemma_plan_schema_arity(**input);
                }
                schema_select(&s, ns)
            },
        },
        LogicalPlan::DropCols(input, ns) => match resolve_schema(&*input) {
            Err(e) => Err(e),
            Ok(s) => {
                proof {
                    lemma_plan_schema_arity(**input);
                }
                Ok(schema_drop(&s, ns))
            },
        },
        LogicalPlan::Slice(input, _, _) => resolve_schema(&*input),
        LogicalPlan::Limit(input, _) => resolve_schema(&*input),
        LogicalPlan::Tail(input, _) => resolve_schema(&*input),
        LogicalPlan::Filter(input, e) => match resolve_schema(&*input) {
            Err(er) => Err(er),
            Ok(s) => {
                proof {
                    lemma_plan_schema_arity(**input);
                }
                match schema_of_expr(e, &s) {
                    Err(er) => Err(er),
                    Ok((_, dt)) => if matches!(dt, DType::Bool) {
                        Ok(s)
                    } else {
                        Err(Error::TypeMismatch(DType::Bool, dt, String::from_str("filter")))
                    },
                }
            },
        },
        LogicalPlan::GroupByAgg(input, keys, aggs, _) => match resolve_schema(&*input) {
            Err(e) => Err(e),
            Ok(s) => {
                proof {
                    lemma_plan_schema_arity(**input);
                }
                schema_groupby(&s, keys, aggs)
            },
        },
    }
}

/// The column names a plan will produce, without executing it; fails
/// exactly when schema resolution fails.
pub fn lf_names(plan: &LogicalPlan) -> (r: Result<Vec<String>, Error>)
    requires
        plan_wf(*plan),
    ensures
        match plan_schema(*plan) {
            Ok(s) => r matches Ok(v) && names_view(v) == s.names,
            Err(e) => r matches Err(q) && q@ == e,
        },
{
    match resolve_schema(plan) {
        Ok(s) => Ok(s.names),
        Err(e) => Err(e),
    }
}

/// The data type labels of a plan's output columns, without executing
/// it; fails exactly when schema resolution fails.
pub fn lf_dtypes(plan: &LogicalPlan) -> (r: Result<Vec<String>, Error>)
    requires
        plan_wf(*plan),
    ensures
        match plan_schema(*plan) {
            Ok(s) => r matches Ok(v) && names_view(v) == s.dtypes.map_values(
                |d: DType| spec_dtype_label(d),
            ),
            Err(e) => r matches Err(q) && q@ == e,
        },
{
    match resolve_schema(plan) {
        Ok(s) => {
            let mut out: Vec<String> = Vec::new();
            let mut i: usize = 0;
            while i < s.dtypes.len()
                invariant
                    i <= s.dtypes@.len(),
                    out@.len() == i,
                    forall|k: int|
                        0 <= k < i ==> (#[trigger] out@[k])@ == spec_dtype_label(s.dtypes@[k]),
                decreases s.dtypes@.len() - i,
            {
                let lbl = dtype_label(s.dtypes[i]);
                out.push(lbl);
                i += 1;
            }
            proof {
                assert(names_view(out) =~= s@.dtypes.map_values(|d: DType| spec_dtype_label(d)));
            }
            Ok(out)
        },
        Err(e) => Err(e),
    }
}

} // verus!
