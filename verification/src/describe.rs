//! Textual plan dumps: `lf_describe_plan` renders a plan, as built or
//! after optimization, for diagnostics. Describing a plan has no effect
//! on execution: it borrows nothing but the plan and only builds a
//! string.

use vstd::prelude::*;
use vstd::string::{StrSliceExecFns, StringExecFns};
use crate::value::Value;
use crate::error::Error;
use crate::expr::Expr;
use crate::plan::{LogicalPlan, plan_wf};
use crate::table::names_view;
use crate::schema::{op_label, op_label_str, agg_label, agg_label_str, plan_schema};
use crate::engine::spec_collect;
use crate::optimize::optimize;

verus! {

/// The decimal digit character of `d`.
pub open spec fn digit_char(d: nat) -> char {
    if d == 0 {
        '0'
    } else if d == 1 {
        '1'
    } else if d == 2 {
        '2'
    } else if d == 3 {
        '3'
    } else if d == 4 {
        '4'
    } else if d == 5 {
        '5'
    } else if d == 6 {
        '6'
    } else if d == 7 {
        '7'
    } else if d == 8 {
        '8'
    } else {
        '9'
    }
}

/// The decimal digits of `n`, most significant first.
pub open spec fn dec_digits(n: nat) -> Seq<char>
    decreases n,
{
    if n < 10 {
        seq![digit_char(n)]
    } else {
        dec_digits(n / 10) + seq![digit_char(n % 10)]
    }
}

/// The decimal rendering of an integer, with a leading minus sign when
/// negative.
pub open spec fn int_digits(n: int) -> Seq<char> {
    if n >= 0 {
        dec_digits(n as nat)
    } else {
        seq!['-'] + dec_digits((-n) as nat)
    }
}

/// One decimal digit as a string literal.
fn digit_lit(d: u64) -> (r: &'static str)
    requires
        d < 10,
    ensures
        r@ == seq![digit_char(d as nat)],
{
    if d == 0 {
        let s = "0";
        proof {
            reveal_strlit("0");
            assert(s@ =~= seq![digit_char(0)]);
        }
        s
    } else if d == 1 {
        let s = "1";
        proof {
            reveal_strlit("1");
            assert(s@ =~= seq![digit_char(1)]);
        }
        s
    } else if d == 2 {
        let s = "2";
        proof {
            reveal_strlit("2");
            assert(s@ =~= seq![digit_char(2)]);
        }
        s
    } else if d == 3 {
        let s = "3";
        proof {
            reveal_strlit("3");
            assert(s@ =~= seq![digit_char(3)]);
        }
        s
    } else if d == 4 {
        let s = "4";
        proof {
            reveal_strlit("4");
            assert(s@ =~= seq![digit_char(4)]);
        }
        s
    } else if d == 5 {
        let s = "5";
        proof {
            reveal_strlit("5");
            assert(s@ =~= seq![digit_char(5)]);
        }
        s
    } else if d == 6 {
        let s = "6";
        proof {
            reveal_strlit("6");
            assert(s@ =~= seq![digit_char(6)]);
        }
        s
    } else if d == 7 {
        let s = "7";
        proof {
            reveal_strlit("7");
            assert(s@ =~= seq![digit_char(7)]);
        }
        s
    } else if d == 8 {
        let s = "8";
        proof {
            reveal_strlit("8");
            assert(s@ =~= seq![digit_char(8)]);
        }
        s
    } else {
        let s = "9";
        proof {
            reveal_strlit("9");
            assert(s@ =~= seq![digit_char(9)]);
        }
        s
    }
}

/// Renders an unsigned number in decimal.
pub fn u64_dec(n: u64) -> (r: String)
    ensures
        r@ == dec_digits(n as nat),
    decreases n,
{
    if n < 10 {
        String::from_str(digit_lit(n))
    } else {
        u64_dec(n / 10).concat(digit_lit(n % 10))
    }
}

/// Renders a signed number in decimal.
pub fn i64_dec(v: i64) -> (r: String)
    ensures
        r@ == int_digits(v as int),
{
    if v >= 0 {
        u64_dec(v as u64)
    } else {
        let mag: u64 = if v == i64::MIN {
            9223372036854775808u64
        } else {
            (-v) as u64
        };
        proof {
            assert(mag as int == -(v as int));
        }
        let minus = "-";
        proof {
            reveal_strlit("-");
            assert(minus@ =~= seq!['-']);
        }
        String::from_str(minus).concat(u64_dec(mag).as_str())
    }
}

/// The first `i` names joined with a comma and a space.
pub open spec fn names_join(ns: Seq<Seq<char>>, i: int) -> Seq<char>
    decreases i,
{
    if i <= 0 {
        Seq::empty()
    } else if i == 1 {
        ns[0]
    } else {
        names_join(ns, i - 1) + ", "@ + ns[i - 1]
    }
}

/// Renders a list of names, comma-separated.
pub fn render_names(ns: &Vec<String>) -> (r: String)
    ensures
        r@ == names_join(names_view(*ns), names_view(*ns).len() as int),
{
    let mut acc = String::new();
    let mut i: usize = 0;
    while i < ns.len()
        invariant
            i <= ns@.len(),
            acc@ == names_join(names_view(*ns), i as int),
        decreases ns@.len() - i,
    {
        proof {
            assert(names_view(*ns)[i as int] == ns@[i as int]@);
        }
        if i > 0 {
            acc.append(", ");
        }
        acc.append(ns[i].as_str());
        i += 1;
    }
    proof {
        assert(names_view(*ns).len() == ns@.len());
    }
    acc
}

/// The rendering of a literal value.
pub open spec fn lit_text(v: Value) -> Seq<char> {
    match v {
        Value::Int(x) => int_digits(x as int),
        Value::Bool(b) => if b {
            "true"@
        } else {
            "false"@
        },
        Value::Null => "null"@,
    }
}

/// The rendering of an expression.
pub open spec fn expr_text(e: Expr) -> Seq<char>
    decreases e,
{
    match e {
        Expr::Col(n) => "col("@ + n@ + ")"@,
        Expr::Wildcard => "*"@,
        Expr::Exclude(inner, ns) => expr_text(*inner) + ".exclude("@ + names_join(
            names_view(ns),
            names_view(ns).len() as int,
        ) + ")"@,
        Expr::Lit(v) => lit_text(v),
        Expr::BinOp(l, r, op) => "("@ + expr_text(*l) + " "@ + op_label(op) + " "@ + expr_text(*r)
            + ")"@,
        Expr::Agg(inner, kind) => agg_label(kind) + "("@ + expr_text(*inner) + ")"@,
        Expr::Alias(inner, n) => expr_text(*inner) + " as "@ + n@,
    }
}

/// Renders an expression.
pub fn render_expr(e: &Expr) -> (r: String)
    ensures
        r@ == expr_text(*e),
    decreases *e,
{
    match e {
        Expr::Col(n) => String::from_str("col(").concat(n.as_str()).concat(")"),
        Expr::Wildcard => String::from_str("*"),
        Expr::Exclude(inner, ns) => render_expr(&*inner).concat(".exclude(").concat(
            render_names(ns).as_str(),
        ).concat(")"),
        Expr::Lit(v) => match v {
            Value::Int(x) => i64_dec(*x),
            Value::Bool(b) => if *b {
                String::from_str("true")
            } else {
                String::from_str("false")
            },
            Value::Null => String::from_str("null"),
        },
        Expr::BinOp(l, r, op) => String::from_str("(").concat(render_expr(&*l).as_str()).concat(
            " ",
        ).concat(op_label_str(*op).as_str()).concat(" ").concat(render_expr(&*r).as_str()).concat(
            ")",
        ),
        Expr::Agg(inner, kind) => agg_label_str(*kind).concat("(").concat(
            render_expr(&*inner).as_str(),
        ).concat(")"),
        Expr::Alias(inner, n) => render_expr(&*inner).concat(" as ").concat(n.as_str()),
    }
}

/// The first `i` expressions joined with a comma and a space.
pub open spec fn exprs_join(es: Seq<Expr>, i: int) -> Seq<char>
    decreases i,
{
    if i <= 0 {
        Seq::empty()
    } else if i == 1 {
        expr_text(es[0])
    } else {
        exprs_join(es, i - 1) + ", "@ + expr_text(es[i - 1])
    }
}

/// Renders a list of expressions, comma-separated.
pub fn render_exprs(es: &Vec<Expr>) -> (r: String)
    ensures
        r@ == exprs_join(es@, es@.len() as int),
{
    let mut acc = String::new();
    let mut i: usize = 0;
    while i < es.len()
        invariant
            i <= es@.len(),
            acc@ == exprs_join(es@, i as int),
        decreases es@.len() - i,
    {
        if i > 0 {
            acc.append(", ");
        }
        let rendered = render_expr(&es[i]);
        acc.append(rendered.as_str());
        i += 1;
    }
    acc
}

/// The rendering of a plan: one node per line segment, the source last.
pub open spec fn plan_text(p: LogicalPlan) -> Seq<char>
    decreases p,
{
    match p {
        LogicalPlan::Scan(t) => "SCAN ["@ + names_join(t@.names, t@.names.len() as int) + "]"@,
        LogicalPlan::Select(input, ns) => "SELECT ["@ + names_join(
            names_view(ns),
            names_view(ns).len() as int,
        ) + "] FROM "@ + plan_text(*input),
        LogicalPlan::DropCols(input, ns) => "DROP ["@ + names_join(
            names_view(ns),
            names_view(ns).len() as int,
        ) + "] FROM "@ + plan_text(*input),
        LogicalPlan::Slice(input, offset, len) => "SLICE offset: "@ + int_digits(offset as int)
            + " len: "@ + dec_digits(len as nat) + " FROM "@ + plan_text(*input),
        LogicalPlan::Limit(input, k) => "LIMIT "@ + dec_digits(k as nat) + " FROM "@ + plan_text(
            *input,
        ),
        LogicalPlan::Tail(input, k) => "TAIL "@ + dec_digits(k as nat) + " FROM "@ + plan_text(
            *input,
        ),
        LogicalPlan::Filter(input, e) => "FILTER "@ + expr_text(e) + " FROM "@ + plan_text(*input),
        LogicalPlan::GroupByAgg(input, keys, aggs, stable) => "GROUPBY keys: ["@ + exprs_join(
            keys@,
            keys@.len() as int,
        ) + "] aggs: ["@ + exprs_join(aggs@, aggs@.len() as int) + (if stable {
            "] stable FROM "@
        } else {
            "] FROM "@
        }) + plan_text(*input),
    }
}

/// Renders a plan.
pub fn render_plan(p: &LogicalPlan) -> (r: String)
    ensures
        r@ == plan_text(*p),
    decreases *p,
{
    match p {
        LogicalPlan::Scan(t) => String::from_str("SCAN [").concat(
            render_names(&t.names).as_str(),
        ).concat("]"),
        LogicalPlan::Select(input, ns) => String::from_str("SELECT [").concat(
            render_names(ns).as_str(),
        ).concat("] FROM ").concat(render_plan(&*input).as_str()),
        LogicalPlan::DropCols(input, ns) => String::from_str("DROP [").concat(
            render_names(ns).as_str(),
        ).concat("] FROM ").concat(render_plan(&*input).as_str()),
        LogicalPlan::Slice(input, offset, len) => String::from_str("SLICE offset: ").concat(
            i64_dec(*offset).as_str(),
        ).concat(" len: ").concat(u64_dec(*len as u64).as_str()).concat(" FROM ").concat(
            render_plan(&*input).as_str(),
        ),
        LogicalPlan::Limit(input, k) => String::from_str("LIMIT ").concat(
            u64_dec(*k as u64).as_str(),
        ).concat(" FROM ").concat(render_plan(&*input).as_str()),
        LogicalPlan::Tail(input, k) => String::from_str("TAIL ").concat(
            u64_dec(*k as u64).as_str(),
        ).concat(" FROM ").concat(render_plan(&*input).as_str()),
        LogicalPlan::Filter(input, e) => String::from_str("FILTER ").concat(
            render_expr(e).as_str(),
        ).concat(" FROM ").concat(render_plan(&*input).as_str()),
        LogicalPlan::GroupByAgg(input, keys, aggs, stable) => String::from_str(
            "GROUPBY keys: [",
        ).concat(render_exprs(keys).as_str()).concat("] aggs: [").concat(
            render_exprs(aggs).as_str(),
        ).concat(
            if *stable {
                "] stable FROM "
            } else {
                "] FROM "
            },
        ).concat(render_plan(&*input).as_str()),
    }
}

/// Renders the plan as built (`optimized == false`), or an optimized
/// plan that resolves to the same schema and collects to the same table
/// (`optimized == true`). Describing never fails and never affects
/// execution.
pub fn lf_describe_plan(plan: LogicalPlan, optimized: bool) -> (r: Result<String, Error>)
    ensures
        r is Ok,
        !optimized ==> r->Ok_0@ == plan_text(plan),
        optimized ==> exists|q: LogicalPlan|
            {
                &&& plan_schema(q) == plan_schema(plan)
                &&& (plan_wf(plan) ==> spec_collect(q) == spec_collect(plan))
                &&& r->Ok_0@ == plan_text(q)
            },
{
    if optimized {
        let q = optimize(plan);
        let ghost qv = q;
        let out = render_plan(&q);
        proof {
            assert(plan_schema(qv) == plan_schema(plan) && out@ == plan_text(qv));
        }
        Ok(out)
    } else {
        Ok(render_plan(&plan))
    }
}

} // verus!
