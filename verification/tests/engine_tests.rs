use lazyframe::{
    col, collect_plan, lf_collect, lf_describe_plan, lf_drop, lf_fetch, lf_filter_with,
    lf_groupby_agg, lf_head, lf_names, lf_dtypes, lf_select, lf_slice, lf_tail, lit_int, scan,
    wildcard, AggKind, DType, Error, Expr, Op, Table, Value,
};

fn names(v: &[&str]) -> Vec<String> {
    v.iter().map(|s| String::from(*s)) .collect()
}

fn ints(v: &[i64]) -> Vec<Value> {
    v.iter().map(|x| Value::Int(*x)).collect()
}

/// A 10-row table with columns `a` (1..=10) and `b` (10, 20, ..., 100).
fn ten_rows() -> Table {
    Table::from_columns(
        names(&["a", "b"]),
        vec![DType::Int, DType::Int],
        vec![
            ints(&[1, 2, 3, 4, 5, 6, 7, 8, 9, 10]),
            ints(&[10, 20, 30, 40, 50, 60, 70, 80, 90, 100]),
        ],
    )
    .unwrap()
}

fn column(t: &Table, name: &str) -> Vec<Value> {
    let i = t.names.iter().position(|n| n == name).unwrap();
    t.cols[i].clone()
}

#[test]
fn collect_is_deterministic() {
    let r1 = collect_plan(lf_head(scan(ten_rows()), 4)).unwrap();
    let r2 = collect_plan(lf_head(scan(ten_rows()), 4)).unwrap();
    assert_eq!(r1.names, r2.names);
    assert_eq!(r1.dtypes, r2.dtypes);
    assert_eq!(r1.cols, r2.cols);
}

#[test]
fn select_resolves_to_requested_names() {
    let p = lf_select(scan(ten_rows()), names(&["b", "a"]));
    assert_eq!(lf_names(&p).unwrap(), names(&["b", "a"]));
    let t = collect_plan(p).unwrap();
    assert_eq!(t.names, names(&["b", "a"]));
    assert_eq!(t.cols[0], ints(&[10, 20, 30, 40, 50, 60, 70, 80, 90, 100]));
}

#[test]
fn select_unknown_column_fails() {
    let p = lf_select(scan(ten_rows()), names(&["a", "zzz"]));
    assert!(matches!(lf_names(&p), Err(Error::UnknownColumn(n)) if n == "zzz"));
    assert!(matches!(collect_plan(p), Err(Error::UnknownColumn(n)) if n == "zzz"));
}

#[test]
fn select_duplicate_column_fails() {
    let p = lf_select(scan(ten_rows()), names(&["a", "a"]));
    assert!(matches!(collect_plan(p), Err(Error::DuplicateColumn(n)) if n == "a"));
}

#[test]
fn drop_ignores_unknown_and_keeps_order() {
    let p = lf_drop(scan(ten_rows()), names(&["zzz", "a"]));
    let t = collect_plan(p).unwrap();
    assert_eq!(t.names, names(&["b"]));
    assert_eq!(t.n_rows(), 10);
}

#[test]
fn slice_negative_offset_takes_from_end() {
    let p = lf_slice(scan(ten_rows()), -1, 5);
    let t = collect_plan(p).unwrap();
    assert_eq!(t.n_rows(), 1);
    assert_eq!(t.value_at(0, 0), Value::Int(10));
}

#[test]
fn slice_past_the_end_is_empty() {
    let p = lf_slice(scan(ten_rows()), 100, 5);
    let t = collect_plan(p).unwrap();
    assert_eq!(t.n_rows(), 0);
}

#[test]
fn slice_negative_before_start_clamps() {
    let p = lf_slice(scan(ten_rows()), -100, 5);
    let t = collect_plan(p).unwrap();
    assert_eq!(t.n_rows(), 0);
}

#[test]
fn slice_middle_rows() {
    let p = lf_slice(scan(ten_rows()), 2, 3);
    let t = collect_plan(p).unwrap();
    assert_eq!(column(&t, "a"), ints(&[3, 4, 5]));
}

#[test]
fn head_then_tail_equals_head() {
    let a = collect_plan(lf_tail(lf_head(scan(ten_rows()), 3), 3)).unwrap();
    let b = collect_plan(lf_head(scan(ten_rows()), 3)).unwrap();
    assert_eq!(a.names, b.names);
    assert_eq!(a.cols, b.cols);
    assert_eq!(a.n_rows(), 3);
}

#[test]
fn head_and_tail_underflow_keep_everything() {
    let t = collect_plan(lf_head(scan(ten_rows()), 100)).unwrap();
    assert_eq!(t.n_rows(), 10);
    let t = collect_plan(lf_tail(scan(ten_rows()), 100)).unwrap();
    assert_eq!(t.n_rows(), 10);
}

#[test]
fn tail_takes_last_rows() {
    let t = collect_plan(lf_tail(scan(ten_rows()), 2)).unwrap();
    assert_eq!(column(&t, "a"), ints(&[9, 10]));
}

#[test]
fn filter_keeps_only_true_rows() {
    let pred = col(String::from("a")).apply_op(Op::Less, lit_int(4));
    let t = collect_plan(lf_filter_with(scan(ten_rows()), pred)).unwrap();
    assert_eq!(column(&t, "a"), ints(&[1, 2, 3]));
    assert_eq!(column(&t, "b"), ints(&[10, 20, 30]));
}

#[test]
fn filter_null_predicate_rows_are_excluded() {
    let t = Table::from_columns(
        names(&["k"]),
        vec![DType::Int],
        vec![vec![Value::Int(1), Value::Null, Value::Int(3)]],
    )
    .unwrap();
    let pred = col(String::from("k")).apply_op(Op::Greater, lit_int(0));
    let out = collect_plan(lf_filter_with(scan(t), pred)).unwrap();
    assert_eq!(column(&out, "k"), ints(&[1, 3]));
}

#[test]
fn filter_unknown_column_fails_at_collect_and_resolve() {
    let pred = col(String::from("zzz"));
    let p = lf_filter_with(scan(ten_rows()), pred);
    assert!(matches!(lf_names(&p), Err(Error::UnknownColumn(n)) if n == "zzz"));
    assert!(matches!(collect_plan(p), Err(Error::UnknownColumn(n)) if n == "zzz"));
}

#[test]
fn filter_non_boolean_predicate_fails() {
    let p = lf_filter_with(scan(ten_rows()), lit_int(1));
    assert!(matches!(
        collect_plan(p),
        Err(Error::TypeMismatch(DType::Bool, DType::Int, _))
    ));
}

#[test]
fn arithmetic_overflow_is_an_execution_failure() {
    let t = Table::from_columns(
        names(&["k"]),
        vec![DType::Int],
        vec![vec![Value::Int(i64::MAX)]],
    )
    .unwrap();
    let pred = col(String::from("k"))
        .apply_op(Op::Plus, lit_int(1))
        .apply_op(Op::Greater, lit_int(0));
    let r = collect_plan(lf_filter_with(scan(t), pred));
    assert!(matches!(r, Err(Error::ExecutionFailure(_))));
}

fn grouping_table() -> Table {
    // keys [2, 1, 2, 3, 1] with values [10, 20, 30, 40, 50]
    Table::from_columns(
        names(&["k", "v"]),
        vec![DType::Int, DType::Int],
        vec![ints(&[2, 1, 2, 3, 1]), ints(&[10, 20, 30, 40, 50])],
    )
    .unwrap()
}

#[test]
fn groupby_stable_keeps_first_occurrence_order() {
    let p = lf_groupby_agg(
        scan(grouping_table()),
        vec![col(String::from("k"))],
        vec![col(String::from("v")).aggregate(AggKind::Sum)],
        true,
    );
    let t = collect_plan(p).unwrap();
    assert_eq!(t.names, names(&["k", "v"]));
    assert_eq!(column(&t, "k"), ints(&[2, 1, 3]));
    assert_eq!(column(&t, "v"), ints(&[40, 70, 40]));
}

#[test]
fn groupby_relaxed_order_has_same_group_set() {
    let p = lf_groupby_agg(
        scan(grouping_table()),
        vec![col(String::from("k"))],
        vec![col(String::from("v")).aggregate(AggKind::Sum)],
        false,
    );
    let t = collect_plan(p).unwrap();
    let mut ks = column(&t, "k");
    ks.sort_by_key(|v| match v {
        Value::Int(x) => *x,
        _ => 0,
    });
    assert_eq!(ks, ints(&[1, 2, 3]));
    assert_eq!(t.n_rows(), 3);
}

#[test]
fn groupby_aggregates_skip_nulls() {
    let t = Table::from_columns(
        names(&["k", "v"]),
        vec![DType::Int, DType::Int],
        vec![
            ints(&[1, 1, 2, 2]),
            vec![Value::Int(5), Value::Null, Value::Null, Value::Null],
        ],
    )
    .unwrap();
    let p = lf_groupby_agg(
        scan(t),
        vec![col(String::from("k"))],
        vec![
            col(String::from("v")).aggregate(AggKind::Sum).alias(String::from("s")),
            col(String::from("v")).aggregate(AggKind::Count).alias(String::from("c")),
            col(String::from("v")).aggregate(AggKind::Min).alias(String::from("lo")),
            col(String::from("v")).aggregate(AggKind::Max).alias(String::from("hi")),
        ],
        true,
    );
    let out = collect_plan(p).unwrap();
    assert_eq!(column(&out, "s"), vec![Value::Int(5), Value::Null]);
    assert_eq!(column(&out, "c"), ints(&[1, 0]));
    assert_eq!(column(&out, "lo"), vec![Value::Int(5), Value::Null]);
    assert_eq!(column(&out, "hi"), vec![Value::Int(5), Value::Null]);
}

#[test]
fn groupby_wildcard_passes_through_first_values() {
    let p = lf_groupby_agg(
        scan(grouping_table()),
        vec![col(String::from("k"))],
        vec![wildcard()],
        true,
    );
    let t = collect_plan(p).unwrap();
    assert_eq!(t.names, names(&["k", "v"]));
    assert_eq!(column(&t, "k"), ints(&[2, 1, 3]));
    assert_eq!(column(&t, "v"), ints(&[10, 20, 40]));
}

#[test]
fn lf_collect_with_groups_matches_groupby_plan() {
    let direct = lf_collect(scan(grouping_table()), names(&["k"])).unwrap();
    let via_plan = collect_plan(lf_groupby_agg(
        scan(grouping_table()),
        vec![col(String::from("k"))],
        vec![wildcard()],
        true,
    ))
    .unwrap();
    assert_eq!(direct.names, via_plan.names);
    assert_eq!(direct.cols, via_plan.cols);
}

#[test]
fn lf_collect_without_groups_is_plain_collect() {
    let t = lf_collect(lf_head(scan(ten_rows()), 2), Vec::new()).unwrap();
    assert_eq!(t.n_rows(), 2);
    assert_eq!(column(&t, "a"), ints(&[1, 2]));
}

#[test]
fn fetch_returns_exactly_the_requested_rows() {
    let mut big: Vec<Value> = Vec::new();
    for i in 0..100 {
        big.push(Value::Int(i));
    }
    let t = Table::from_columns(names(&["x"]), vec![DType::Int], vec![big]).unwrap();
    let out = lf_fetch(scan(t), 5).unwrap();
    assert_eq!(out.n_rows(), 5);
    assert_eq!(column(&out, "x"), ints(&[0, 1, 2, 3, 4]));
}

#[test]
fn fetch_underflow_returns_all_rows() {
    let out = lf_fetch(scan(ten_rows()), 500).unwrap();
    assert_eq!(out.n_rows(), 10);
}

#[test]
fn optimizer_preserves_collected_result() {
    let p = lf_head(lf_head(lf_select(scan(ten_rows()), names(&["a"])), 7), 3);
    let q = lf_head(lf_head(lf_select(scan(ten_rows()), names(&["a"])), 7), 3);
    let optimized = lazyframe::optimize(q);
    let a = collect_plan(p).unwrap();
    let b = collect_plan(optimized).unwrap();
    assert_eq!(a.names, b.names);
    assert_eq!(a.cols, b.cols);
    assert_eq!(a.n_rows(), 3);
}

#[test]
fn optimizer_merges_consecutive_tails() {
    let p = lf_tail(lf_tail(scan(ten_rows()), 5), 2);
    let s = lf_describe_plan(p, true).unwrap();
    assert_eq!(s, "TAIL 2 FROM SCAN [a, b]");
    let t = collect_plan(lf_tail(lf_tail(scan(ten_rows()), 5), 2)).unwrap();
    assert_eq!(column(&t, "a"), ints(&[9, 10]));
}

#[test]
fn describe_shows_the_plan() {
    let p = lf_head(scan(ten_rows()), 3);
    let s = lf_describe_plan(p, false).unwrap();
    assert_eq!(s, "LIMIT 3 FROM SCAN [a, b]");
}

#[test]
fn describe_optimized_merges_limits() {
    let p = lf_head(lf_head(scan(ten_rows()), 7), 3);
    let s = lf_describe_plan(p, true).unwrap();
    assert_eq!(s, "LIMIT 3 FROM SCAN [a, b]");
}

#[test]
fn describe_renders_slice_and_filter() {
    let pred = col(String::from("a")).apply_op(Op::Equals, lit_int(-5));
    let p = lf_filter_with(lf_slice(scan(ten_rows()), -1, 5), pred);
    let s = lf_describe_plan(p, false).unwrap();
    assert_eq!(
        s,
        "FILTER (col(a) == -5) FROM SLICE offset: -1 len: 5 FROM SCAN [a, b]"
    );
}

#[test]
fn dtypes_are_reported_as_labels() {
    let t = Table::from_columns(
        names(&["i", "f"]),
        vec![DType::Int, DType::Bool],
        vec![ints(&[1]), vec![Value::Bool(true)]],
    )
    .unwrap();
    assert_eq!(lf_dtypes(&scan(t)).unwrap(), names(&["integer", "boolean"]));
}

#[test]
fn head_and_tail_of_zero_rows_are_empty() {
    assert_eq!(collect_plan(lf_head(scan(ten_rows()), 0)).unwrap().n_rows(), 0);
    assert_eq!(collect_plan(lf_tail(scan(ten_rows()), 0)).unwrap().n_rows(), 0);
    assert_eq!(collect_plan(lf_slice(scan(ten_rows()), 3, 0)).unwrap().n_rows(), 0);
}

#[test]
fn arithmetic_operators_compute_exact_values() {
    // keep rows where (a - 1) * 3 == 6, i.e. a == 3
    let lhs = col(String::from("a"))
        .apply_op(Op::Minus, lit_int(1))
        .apply_op(Op::Multiply, lit_int(3));
    let pred = lhs.apply_op(Op::Equals, lit_int(6));
    let t = collect_plan(lf_filter_with(scan(ten_rows()), pred)).unwrap();
    assert_eq!(column(&t, "a"), ints(&[3]));
}

#[test]
fn boolean_connectives_combine_predicates() {
    let ge4 = col(String::from("a")).apply_op(Op::Greater, lit_int(3));
    let lt6 = col(String::from("a")).apply_op(Op::Less, lit_int(6));
    let both = ge4.apply_op(Op::And, lt6);
    let t = collect_plan(lf_filter_with(scan(ten_rows()), both)).unwrap();
    assert_eq!(column(&t, "a"), ints(&[4, 5]));

    let lt2 = col(String::from("a")).apply_op(Op::Less, lit_int(2));
    let gt9 = col(String::from("a")).apply_op(Op::Greater, lit_int(9));
    let either = lt2.apply_op(Op::Or, gt9);
    let t = collect_plan(lf_filter_with(scan(ten_rows()), either)).unwrap();
    assert_eq!(column(&t, "a"), ints(&[1, 10]));
}

#[test]
fn comparison_of_mismatched_types_fails_at_resolve() {
    let t = Table::from_columns(
        names(&["i", "f"]),
        vec![DType::Int, DType::Bool],
        vec![ints(&[1]), vec![Value::Bool(true)]],
    )
    .unwrap();
    let pred = col(String::from("i")).apply_op(Op::Equals, col(String::from("f")));
    let p = lf_filter_with(scan(t), pred);
    assert!(matches!(
        lf_names(&p),
        Err(Error::TypeMismatch(DType::Int, DType::Bool, _))
    ));
}

#[test]
fn groupby_alias_renames_output_columns() {
    let p = lf_groupby_agg(
        scan(grouping_table()),
        vec![col(String::from("k"))],
        vec![col(String::from("v")).aggregate(AggKind::Sum).alias(String::from("total"))],
        true,
    );
    assert_eq!(lf_names(&p).unwrap(), names(&["k", "total"]));
}

#[test]
fn from_columns_rejects_ragged_columns() {
    let r = Table::from_columns(
        names(&["a", "b"]),
        vec![DType::Int, DType::Int],
        vec![ints(&[1, 2]), ints(&[1])],
    );
    assert!(matches!(r, Err(Error::InvalidRange(2, 1))));
}

#[test]
fn from_columns_rejects_ill_typed_cells() {
    let r = Table::from_columns(
        names(&["a"]),
        vec![DType::Int],
        vec![vec![Value::Int(1), Value::Bool(true)]],
    );
    assert!(matches!(r, Err(Error::TypeMismatch(DType::Int, DType::Bool, _))));
}

#[test]
fn from_columns_rejects_duplicate_names() {
    let r = Table::from_columns(
        names(&["a", "a"]),
        vec![DType::Int, DType::Int],
        vec![ints(&[1]), ints(&[1])],
    );
    assert!(matches!(r, Err(Error::DuplicateColumn(n)) if n == "a"));
}

#[test]
fn wildcard_outside_groupby_is_rejected() {
    let p = lf_filter_with(scan(ten_rows()), Expr::Wildcard);
    assert!(matches!(collect_plan(p), Err(Error::SchemaResolutionFailure(_))));
}

#[test]
fn groupby_duplicate_output_name_fails() {
    let p = lf_groupby_agg(
        scan(grouping_table()),
        vec![col(String::from("k"))],
        vec![col(String::from("v")).aggregate(AggKind::Sum).alias(String::from("k"))],
        true,
    );
    assert!(matches!(collect_plan(p), Err(Error::DuplicateColumn(n)) if n == "k"));
}

#[test]
fn groupby_exclude_drops_named_passthrough_columns() {
    let t = Table::from_columns(
        names(&["k", "v", "w"]),
        vec![DType::Int, DType::Int, DType::Int],
        vec![ints(&[1, 1]), ints(&[5, 6]), ints(&[7, 8])],
    )
    .unwrap();
    let p = lf_groupby_agg(
        scan(t),
        vec![col(String::from("k"))],
        vec![wildcard().exclude(names(&["w"]))],
        true,
    );
    let out = collect_plan(p).unwrap();
    assert_eq!(out.names, names(&["k", "v"]));
    assert_eq!(column(&out, "v"), ints(&[5]));
}
