//! Columnar tables and their mathematical model.
//!
//! A [`Table`] is an ordered sequence of named, typed columns, each a
//! densely packed sequence of [`Value`]s of one length (the row count),
//! with per-cell null markers. Its model is [`TableV`]. Once built, a
//! table is never mutated: every operation produces a new table.

use vstd::prelude::*;
use vstd::string::StringExecFns;
use crate::value::{DType, Value, value_fits, spec_dtype_of, value_fits_dtype, dtype_of};
use crate::error::{Error, ErrorV};

verus! {

/// The mathematical model of a [`Table`]: column names, column data
/// types, and the cells of each column.
#[verifier::ext_equal]
pub struct TableV {
    pub names: Seq<Seq<char>>,
    pub dtypes: Seq<DType>,
    pub cols: Seq<Seq<Value>>,
}

impl TableV {
    /// The number of rows: the length shared by all columns (0 for a
    /// table without columns).
    pub open spec fn nrows(self) -> int {
        if self.cols.len() == 0 {
            0
        } else {
            self.cols[0].len() as int
        }
    }

    /// The table invariant: one name and one type per column, all
    /// columns of one length, names unique, and every cell fitting its
    /// column's type.
    pub open spec fn wf(self) -> bool {
        &&& self.names.len() == self.dtypes.len()
        &&& self.names.len() == self.cols.len()
        &&& (forall|j: int|
            0 <= j < self.cols.len() ==> (#[trigger] self.cols[j]).len() == self.nrows())
        &&& (forall|j: int, k: int|
            0 <= j < k < self.names.len() ==> self.names[j] != self.names[k])
        &&& (forall|j: int, r: int|
            0 <= j < self.cols.len() && 0 <= r < self.nrows() ==> value_fits(
                #[trigger] self.cols[j][r],
                self.dtypes[j],
            ))
    }
}

/// The names of a vector of strings, as character sequences.
pub open spec fn names_view(v: Vec<String>) -> Seq<Seq<char>> {
    v@.map_values(|s: String| s@)
}

/// The cells of a vector of columns, as sequences.
pub open spec fn cols_view(v: Vec<Vec<Value>>) -> Seq<Seq<Value>> {
    v@.map_values(|c: Vec<Value>| c@)
}

/// An in-memory columnar table. Build one with [`Table::from_columns`],
/// which validates the table invariant; all engine operations preserve it.
#[derive(Clone, Debug)]
pub struct Table {
    pub names: Vec<String>,
    pub dtypes: Vec<DType>,
    pub cols: Vec<Vec<Value>>,
}

impl View for Table {
    type V = TableV;

    open spec fn view(&self) -> TableV {
        TableV { names: names_view(self.names), dtypes: self.dtypes@, cols: cols_view(self.cols) }
    }
}

/// A `Result` of a table, with both sides abstracted to their models.
pub open spec fn table_res_view(r: Result<Table, Error>) -> Result<TableV, ErrorV> {
    match r {
        Ok(t) => Ok(t@),
        Err(e) => Err(e@),
    }
}

/// Equality of two strings, resolved through their character sequences.
pub fn string_eq(a: &String, b: &String) -> (r: bool)
    ensures
        r == (a@ == b@),
{
    a.eq(b)
}

/// The first index at or after `i` where `pool` holds the name `n`, or
/// `pool.len()` if there is none.
pub open spec fn idx_of_name(pool: Seq<Seq<char>>, n: Seq<char>, i: int) -> int
    decreases pool.len() - i,
{
    if i < 0 || i >= pool.len() {
        pool.len() as int
    } else if pool[i] == n {
        i
    } else {
        idx_of_name(pool, n, i + 1)
    }
}

/// Characterizes [`idx_of_name`]: it is the first occurrence of `n` at
/// or after `i`, or `pool.len()` when `n` does not occur there.
pub proof fn lemma_idx_of_name(pool: Seq<Seq<char>>, n: Seq<char>, i: int)
    requires
        0 <= i <= pool.len(),
    ensures
        i <= idx_of_name(pool, n, i) <= pool.len(),
        idx_of_name(pool, n, i) < pool.len() ==> pool[idx_of_name(pool, n, i)] == n,
        forall|k: int| i <= k < idx_of_name(pool, n, i) ==> pool[k] != n,
        idx_of_name(pool, n, i) == pool.len() ==> forall|k: int|
            i <= k < pool.len() ==> pool[k] != n,
    decreases pool.len() - i,
{
    if i < pool.len() && pool[i] != n {
        lemma_idx_of_name(pool, n, i + 1);
    }
}

/// The first index at or after `i` whose name already occurs earlier in
/// `names`, or `names.len()` if all names are distinct.
pub open spec fn first_dup_name(names: Seq<Seq<char>>, i: int) -> int
    decreases names.len() - i,
{
    if i < 0 || i >= names.len() {
        names.len() as int
    } else if idx_of_name(names, names[i], 0) < i {
        i
    } else {
        first_dup_name(names, i + 1)
    }
}

/// Characterizes [`first_dup_name`]: below it all names are first
/// occurrences; at it (when in range) the name occurred before.
pub proof fn lemma_first_dup_name(names: Seq<Seq<char>>, i: int)
    requires
        0 <= i <= names.len(),
    ensures
        i <= first_dup_name(names, i) <= names.len(),
        first_dup_name(names, i) < names.len() ==> idx_of_name(
            names,
            names[first_dup_name(names, i)],
            0,
        ) < first_dup_name(names, i),
        forall|k: int|
            i <= k < first_dup_name(names, i) ==> idx_of_name(names, #[trigger] names[k], 0) >= k,
        first_dup_name(names, i) == names.len() ==> forall|k: int|
            i <= k < names.len() ==> idx_of_name(names, #[trigger] names[k], 0) >= k,
    decreases names.len() - i,
{
    if 0 <= i < names.len() && !(idx_of_name(names, names[i], 0) < i) {
        lemma_first_dup_name(names, i + 1);
    }
}

/// When every name in `names` is its own first occurrence, the names are
/// pairwise distinct.
pub proof fn lemma_no_dup_distinct(names: Seq<Seq<char>>)
    requires
        first_dup_name(names, 0) == names.len(),
    ensures
        forall|j: int, k: int| 0 <= j < k < names.len() ==> names[j] != names[k],
{
    lemma_first_dup_name(names, 0);
    assert forall|j: int, k: int| 0 <= j < k < names.len() implies names[j] != names[k] by {
        if names[j] == names[k] {
            lemma_idx_of_name(names, names[k], 0);
            assert(idx_of_name(names, names[k], 0) <= j);
        }
    }
}

/// The first index at or after `i` where `cols[i]` does not have length
/// `want`, or `cols.len()` if all do.
pub open spec fn first_len_mismatch(cols: Seq<Seq<Value>>, want: int, i: int) -> int
    decreases cols.len() - i,
{
    if i < 0 || i >= cols.len() {
        cols.len() as int
    } else if cols[i].len() != want {
        i
    } else {
        first_len_mismatch(cols, want, i + 1)
    }
}

/// Characterizes [`first_len_mismatch`].
pub proof fn lemma_first_len_mismatch(cols: Seq<Seq<Value>>, want: int, i: int)
    requires
        0 <= i <= cols.len(),
    ensures
        i <= first_len_mismatch(cols, want, i) <= cols.len(),
        first_len_mismatch(cols, want, i) < cols.len() ==> cols[first_len_mismatch(
            cols,
            want,
            i,
        )].len() != want,
        forall|k: int|
            i <= k < first_len_mismatch(cols, want, i) ==> (#[trigger] cols[k]).len() == want,
        first_len_mismatch(cols, want, i) == cols.len() ==> forall|k: int|
            i <= k < cols.len() ==> (#[trigger] cols[k]).len() == want,
    decreases cols.len() - i,
{
    if 0 <= i < cols.len() && cols[i].len() == want {
        lemma_first_len_mismatch(cols, want, i + 1);
    }
}

/// The first row at or after `i` of `col` whose value does not fit `dt`,
/// or `col.len()` if all fit.
pub open spec fn first_ill_typed_row(col: Seq<Value>, dt: DType, i: int) -> int
    decreases col.len() - i,
{
    if i < 0 || i >= col.len() {
        col.len() as int
    } else if !value_fits(col[i], dt) {
        i
    } else {
        first_ill_typed_row(col, dt, i + 1)
    }
}

/// Characterizes [`first_ill_typed_row`].
pub proof fn lemma_first_ill_typed_row(col: Seq<Value>, dt: DType, i: int)
    requires
        0 <= i <= col.len(),
    ensures
        i <= first_ill_typed_row(col, dt, i) <= col.len(),
        first_ill_typed_row(col, dt, i) < col.len() ==> !value_fits(
            col[first_ill_typed_row(col, dt, i)],
            dt,
        ),
        forall|k: int|
            i <= k < first_ill_typed_row(col, dt, i) ==> value_fits(#[trigger] col[k], dt),
        first_ill_typed_row(col, dt, i) == col.len() ==> forall|k: int|
            i <= k < col.len() ==> value_fits(#[trigger] col[k], dt),
    decreases col.len() - i,
{
    if 0 <= i < col.len() && value_fits(col[i], dt) {
        lemma_first_ill_typed_row(col, dt, i + 1);
    }
}

/// The first column at or after `i` holding an ill-typed value, or
/// `cols.len()` if every cell fits its column's type.
pub open spec fn first_ill_typed_col(cols: Seq<Seq<Value>>, dtypes: Seq<DType>, i: int) -> int
    decreases cols.len() - i,
{
    if i < 0 || i >= cols.len() || i >= dtypes.len() {
        cols.len() as int
    } else if first_ill_typed_row(cols[i], dtypes[i], 0) < cols[i].len() {
        i
    } else {
        first_ill_typed_col(cols, dtypes, i + 1)
    }
}

/// Characterizes [`first_ill_typed_col`].
pub proof fn lemma_first_ill_typed_col(cols: Seq<Seq<Value>>, dtypes: Seq<DType>, i: int)
    requires
        0 <= i <= cols.len(),
        cols.len() == dtypes.len(),
    ensures
        i <= first_ill_typed_col(cols, dtypes, i) <= cols.len(),
        first_ill_typed_col(cols, dtypes, i) < cols.len() ==> first_ill_typed_row(
            cols[first_ill_typed_col(cols, dtypes, i)],
            dtypes[first_ill_typed_col(cols, dtypes, i)],
            0,
        ) < cols[first_ill_typed_col(cols, dtypes, i)].len(),
        forall|k: int|
            i <= k < first_ill_typed_col(cols, dtypes, i) ==> first_ill_typed_row(
                #[trigger] cols[k],
                dtypes[k],
                0,
            ) == cols[k].len(),
        first_ill_typed_col(cols, dtypes, i) == cols.len() ==> forall|k: int|
            i <= k < cols.len() ==> first_ill_typed_row(#[trigger] cols[k], dtypes[k], 0)
                == cols[k].len(),
    decreases cols.len() - i,
{
    if 0 <= i < cols.len() && !(first_ill_typed_row(cols[i], dtypes[i], 0) < cols[i].len()) {
        lemma_first_ill_typed_row(cols[i], dtypes[i], 0);
        lemma_first_ill_typed_col(cols, dtypes, i + 1);
    }
}

/// Finds the first index where `pool` holds the name `n`, or `pool.len()`
/// when it does not occur.
pub fn find_name(pool: &Vec<String>, n: &String) -> (r: usize)
    ensures
        r as int == idx_of_name(names_view(*pool), n@, 0),
{
    let ghost pv = names_view(*pool);
    proof {
        assert(pv.len() == pool@.len());
        lemma_idx_of_name(pv, n@, 0);
    }
    let mut i: usize = 0;
    while i < pool.len()
        invariant
            i <= pool.len(),
            pv == names_view(*pool),
            idx_of_name(pv, n@, 0) >= i,
        decreases pool.len() - i,
    {
        proof {
            assert(pv[i as int] == pool@[i as int]@);
        }
        if string_eq(&pool[i], n) {
            proof {
                lemma_idx_of_name(pv, n@, 0);
                if idx_of_name(pv, n@, 0) > i {
                    assert(pv[i as int] != n@);
                }
                assert(idx_of_name(pv, n@, 0) == i);
            }
            return i;
        }
        proof {
            lemma_idx_of_name(pv, n@, 0);
            if idx_of_name(pv, n@, 0) == i {
                assert(false);
            }
        }
        i += 1;
    }
    proof {
        lemma_idx_of_name(pv, n@, 0);
    }
    pool.len()
}

/// Finds the first index of `ns` whose name occurred earlier in `ns`, or
/// `ns.len()` when all names are distinct.
pub fn find_first_dup(ns: &Vec<String>) -> (r: usize)
    ensures
        r as int == first_dup_name(names_view(*ns), 0),
{
    let ghost nv = names_view(*ns);
    proof {
        assert(nv.len() == ns@.len());
        lemma_first_dup_name(nv, 0);
    }
    let mut i: usize = 0;
    while i < ns.len()
        invariant
            i <= ns.len(),
            nv == names_view(*ns),
            first_dup_name(nv, 0) >= i,
        decreases ns.len() - i,
    {
        let mut j: usize = 0;
        while j < i
            invariant
                i < ns.len(),
                j <= i,
                nv == names_view(*ns),
                first_dup_name(nv, 0) >= i,
                forall|k: int| 0 <= k < j ==> nv[k] != nv[i as int],
            decreases i - j,
        {
            proof {
                assert(nv[j as int] == ns@[j as int]@);
                assert(nv[i as int] == ns@[i as int]@);
            }
            if string_eq(&ns[j], &ns[i]) {
                proof {
                    lemma_idx_of_name(nv, nv[i as int], 0);
                    lemma_first_dup_name(nv, 0);
                    assert(idx_of_name(nv, nv[i as int], 0) <= j);
                    if first_dup_name(nv, 0) > i {
                        assert(idx_of_name(nv, #[trigger] nv[i as int], 0) >= i);
                    }
                    assert(first_dup_name(nv, 0) == i);
                }
                return i;
            }
            j += 1;
        }
        proof {
            lemma_idx_of_name(nv, nv[i as int], 0);
            lemma_first_dup_name(nv, 0);
            assert(idx_of_name(nv, nv[i as int], 0) >= i);
            if first_dup_name(nv, 0) == i {
                assert(false);
            }
        }
        i += 1;
    }
    proof {
        lemma_first_dup_name(nv, 0);
    }
    ns.len()
}

/// Copies a vector of names, preserving its character sequences.
pub fn clone_names(v: &Vec<String>) -> (r: Vec<String>)
    ensures
        names_view(r) == names_view(*v),
{
    let ghost vv = names_view(*v);
    let mut out: Vec<String> = Vec::new();
    let mut i: usize = 0;
    while i < v.len()
        invariant
            i <= v.len(),
            vv == names_view(*v),
            names_view(out).len() == i,
            forall|k: int| 0 <= k < i ==> names_view(out)[k] == vv[k],
        decreases v.len() - i,
    {
        out.push(v[i].clone());
        i += 1;
    }
    proof {
        assert(names_view(out) =~= vv);
    }
    out
}

/// What [`Table::from_columns`] returns: the checks made, in order, and
/// the error each one reports.
pub open spec fn spec_from_columns(
    names: Seq<Seq<char>>,
    dtypes: Seq<DType>,
    cols: Seq<Seq<Value>>,
) -> Result<TableV, ErrorV> {
    if names.len() != dtypes.len() || names.len() != cols.len() {
        Err(ErrorV::SchemaResolutionFailure("mismatched column arity"@))
    } else if first_dup_name(names, 0) < names.len() {
        Err(ErrorV::DuplicateColumn(names[first_dup_name(names, 0)]))
    } else {
        let want: int = if cols.len() == 0 {
            0
        } else {
            cols[0].len() as int
        };
        if first_len_mismatch(cols, want, 0) < cols.len() {
            Err(ErrorV::InvalidRange(want, cols[first_len_mismatch(cols, want, 0)].len() as int))
        } else if first_ill_typed_col(cols, dtypes, 0) < cols.len() {
            {
                let j = first_ill_typed_col(cols, dtypes, 0);
                let r = first_ill_typed_row(cols[j], dtypes[j], 0);
                Err(ErrorV::TypeMismatch(dtypes[j], spec_dtype_of(cols[j][r]), names[j]))
            }
        } else {
            Ok(TableV { names, dtypes, cols })
        }
    }
}

impl Table {
    /// The number of rows of the table.
    pub fn n_rows(&self) -> (r: usize)
        ensures
            r as int == self@.nrows(),
    {
        if self.cols.len() == 0 {
            0
        } else {
            self.cols[0].len()
        }
    }

    /// The number of columns of the table.
    pub fn n_cols(&self) -> (r: usize)
        ensures
            r as int == self@.names.len(),
    {
        self.names.len()
    }

    /// The cell at column `col`, row `row`.
    pub fn value_at(&self, col: usize, row: usize) -> (v: Value)
        requires
            col < self@.cols.len(),
            row < self@.cols[col as int].len(),
        ensures
            v == self@.cols[col as int][row as int],
    {
        self.cols[col][row]
    }

    /// Builds a table from columns, validating the table invariant.
    ///
    /// The checks run in this order: the three vectors must have one
    /// length; names must be distinct (`DuplicateColumn`); all columns
    /// must share the first column's length (`InvalidRange`); every cell
    /// must fit its column's type (`TypeMismatch`). On success the
    /// resulting table is well-formed.
    pub fn from_columns(names: Vec<String>, dtypes: Vec<DType>, cols: Vec<Vec<Value>>) -> (r:
        Result<Table, Error>)
        ensures
            table_res_view(r) == spec_from_columns(names_view(names), dtypes@, cols_view(cols)),
            r is Ok ==> r->Ok_0@.wf(),
    {
        let ghost nv = names_view(names);
        let ghost cv = cols_view(cols);
        proof {
            assert(nv.len() == names@.len());
            assert(cv.len() == cols@.len());
        }
        if names.len() != dtypes.len() || names.len() != cols.len() {
            return Err(Error::SchemaResolutionFailure(String::from_str("mismatched column arity")));
        }
        // duplicate names
        proof {
            lemma_first_dup_name(nv, 0);
        }
        let mut i: usize = 0;
        while i < names.len()
            invariant
                names.len() == dtypes.len(),
                names.len() == cols.len(),
                i <= names.len(),
                nv == names_view(names),
                cv == cols_view(cols),
                first_dup_name(nv, 0) >= i,
            decreases names.len() - i,
        {
            let mut j: usize = 0;
            while j < i
                invariant
                    names.len() == dtypes.len(),
                    names.len() == cols.len(),
                    i < names.len(),
                    j <= i,
                    nv == names_view(names),
                    cv == cols_view(cols),
                    first_dup_name(nv, 0) >= i,
                    forall|k: int| 0 <= k < j ==> nv[k] != nv[i as int],
                decreases i - j,
            {
                proof {
                    assert(nv[j as int] == names@[j as int]@);
                    assert(nv[i as int] == names@[i as int]@);
                }
                if string_eq(&names[j], &names[i]) {
                    proof {
                        lemma_idx_of_name(nv, nv[i as int], 0);
                        lemma_first_dup_name(nv, 0);
                        assert(nv[j as int] == nv[i as int]);
                        assert(idx_of_name(nv, nv[i as int], 0) <= j);
                        if first_dup_name(nv, 0) > i {
                            assert(idx_of_name(nv, #[trigger] nv[i as int], 0) >= i);
                            assert(false);
                        }
                        assert(first_dup_name(nv, 0) == i);
                    }
                    return Err(Error::DuplicateColumn(names[i].clone()));
                }
                j += 1;
            }
            proof {
                lemma_idx_of_name(nv, nv[i as int], 0);
                lemma_first_dup_name(nv, 0);
                assert(idx_of_name(nv, nv[i as int], 0) >= i);
                if first_dup_name(nv, 0) == i {
                    assert(false);
                }
            }
            i += 1;
        }
        proof {
            lemma_first_dup_name(nv, 0);
            assert(first_dup_name(nv, 0) == nv.len());
        }
        // column lengths
        let want: usize = if cols.len() == 0 {
            0
        } else {
            cols[0].len()
        };
        proof {
            lemma_first_len_mismatch(cv, want as int, 0);
        }
        let mut i: usize = 0;
        while i < cols.len()
            invariant
                names.len() == dtypes.len(),
                names.len() == cols.len(),
                i <= cols.len(),
                nv == names_view(names),
                cv == cols_view(cols),
                want as int == (if cv.len() == 0 {
                    0int
                } else {
                    cv[0].len() as int
                }),
                first_dup_name(nv, 0) == nv.len(),
                first_len_mismatch(cv, want as int, 0) >= i,
            decreases cols.len() - i,
        {
            proof {
                assert(cv[i as int] == cols@[i as int]@);
            }
            if cols[i].len() != want {
                proof {
                    lemma_first_len_mismatch(cv, want as int, 0);
                    assert(first_len_mismatch(cv, want as int, 0) == i);
                }
                return Err(Error::InvalidRange(want, cols[i].len()));
            }
            proof {
                lemma_first_len_mismatch(cv, want as int, 0);
                if first_len_mismatch(cv, want as int, 0) == i {
                    assert(false);
                }
            }
            i += 1;
        }
        proof {
            lemma_first_len_mismatch(cv, want as int, 0);
            assert(first_len_mismatch(cv, want as int, 0) == cv.len());
        }
        // cell typing
        proof {
            lemma_first_ill_typed_col(cv, dtypes@, 0);
        }
        let mut i: usize = 0;
        while i < cols.len()
            invariant
                names.len() == dtypes.len(),
                names.len() == cols.len(),
                i <= cols.len(),
                nv == names_view(names),
                cv == cols_view(cols),
                dtypes@.len() == cv.len(),
                want as int == (if cv.len() == 0 {
                    0int
                } else {
                    cv[0].len() as int
                }),
                first_dup_name(nv, 0) == nv.len(),
                first_len_mismatch(cv, want as int, 0) == cv.len(),
                first_ill_typed_col(cv, dtypes@, 0) >= i,
            decreases cols.len() - i,
        {
            let dt = dtypes[i];
            proof {
                lemma_first_ill_typed_row(cv[i as int], dt, 0);
                assert(cv[i as int] == cols@[i as int]@);
            }
            let mut r: usize = 0;
            while r < cols[i].len()
                invariant
                    names.len() == dtypes.len(),
                    names.len() == cols.len(),
                    i < cols.len(),
                    r <= cv[i as int].len(),
                    nv == names_view(names),
                    cv == cols_view(cols),
                    dtypes@.len() == cv.len(),
                    dt == dtypes@[i as int],
                    want as int == (if cv.len() == 0 {
                        0int
                    } else {
                        cv[0].len() as int
                    }),
                    first_dup_name(nv, 0) == nv.len(),
                    first_len_mismatch(cv, want as int, 0) == cv.len(),
                    first_ill_typed_col(cv, dtypes@, 0) >= i,
                    first_ill_typed_row(cv[i as int], dt, 0) >= r,
                decreases cv[i as int].len() - r,
            {
                proof {
                    assert(cv[i as int] == cols@[i as int]@);
                }
                let v = cols[i][r];
                proof {
                    assert(v == cv[i as int][r as int]);
                    assert(nv[i as int] == names@[i as int]@);
                }
                if !value_fits_dtype(&v, dt) {
                    proof {
                        lemma_first_ill_typed_row(cv[i as int], dt, 0);
                        assert(first_ill_typed_row(cv[i as int], dt, 0) == r);
                        lemma_first_ill_typed_col(cv, dtypes@, 0);
                        assert(first_ill_typed_col(cv, dtypes@, 0) == i);
                    }
                    return Err(Error::TypeMismatch(dt, dtype_of(&v), names[i].clone()));
                }
                proof {
                    lemma_first_ill_typed_row(cv[i as int], dt, 0);
                    if first_ill_typed_row(cv[i as int], dt, 0) == r {
                        assert(false);
                    }
                }
                r += 1;
            }
            proof {
                assert(cv[i as int] == cols@[i as int]@);
                lemma_first_ill_typed_row(cv[i as int], dt, 0);
                lemma_first_ill_typed_col(cv, dtypes@, 0);
                if first_ill_typed_col(cv, dtypes@, 0) == i {
                    assert(false);
                }
            }
            i += 1;
        }
        proof {
            lemma_first_ill_typed_col(cv, dtypes@, 0);
            lemma_no_dup_distinct(nv);
            lemma_first_len_mismatch(cv, want as int, 0);
            assert(forall|k: int|
                0 <= k < cv.len() ==> first_ill_typed_row(#[trigger] cv[k], dtypes@[k], 0)
                    == cv[k].len());
            assert forall|j: int, rr: int|
                0 <= j < cv.len() && 0 <= rr < (if cv.len() == 0 {
                    0int
                } else {
                    cv[0].len() as int
                }) implies value_fits(#[trigger] cv[j][rr], dtypes@[j]) by {
                lemma_first_ill_typed_row(cv[j], dtypes@[j], 0);
                assert(cv[j].len() == want as int);
            }
        }
        Ok(Table { names, dtypes, cols })
    }
}

} // verus!
