use vstd::prelude::*;

use crate::apply::{grouped_apply, vconcat_all};
use crate::error::ExplorerError;
use crate::group::{all_found, is_stable_partition, rows_of, spec_resolve, stable_partition};
use crate::table::{spec_take, Column, ColumnModel, Table, TableModel};
use crate::table_ops::{concat_rows, df_take, idx_view, spec_vstack, take_values};
use crate::value::{Value, ValueModel};
use vstd::string::StrSliceExecFns;

verus! {

/// Three-way lexicographic comparison of two character sequences.
pub open spec fn str_cmp(a: Seq<char>, b: Seq<char>) -> int
    decreases a.len(),
{
    if a.len() == 0 && b.len() == 0 {
        0
    } else if a.len() == 0 {
        -1
    } else if b.len() == 0 {
        1
    } else if a[0] != b[0] {
        if (a[0] as int) < (b[0] as int) {
            -1
        } else {
            1
        }
    } else {
        str_cmp(a.drop_first(), b.drop_first())
    }
}

proof fn lemma_str_cmp_zero(a: Seq<char>, b: Seq<char>)
    ensures
        str_cmp(a, b) == 0 ==> a == b,
    decreases a.len(),
{
    if a.len() > 0 && b.len() > 0 && a[0] == b[0] {
        lemma_str_cmp_zero(a.drop_first(), b.drop_first());
        if str_cmp(a, b) == 0 {
            assert(a.drop_first() == b.drop_first());
            assert(a.len() == b.len());
            assert forall|i: int| 0 <= i < a.len() implies a[i] == b[i] by {
                if i > 0 {
                    assert(a[i] == a.drop_first()[i - 1]);
                    assert(b[i] == b.drop_first()[i - 1]);
                }
            }
            assert(a =~= b);
        }
    }
}

proof fn lemma_str_cmp_antisym(a: Seq<char>, b: Seq<char>)
    ensures
        str_cmp(a, b) == -str_cmp(b, a),
    decreases a.len(),
{
    if a.len() > 0 && b.len() > 0 && a[0] == b[0] {
        lemma_str_cmp_antisym(a.drop_first(), b.drop_first());
    }
}

proof fn lemma_str_cmp_trans(a: Seq<char>, b: Seq<char>, c: Seq<char>)
    requires
        str_cmp(a, b) <= 0,
        str_cmp(b, c) <= 0,
    ensures
        str_cmp(a, c) <= 0,
    decreases a.len(),
{
    lemma_str_cmp_zero(a, b);
    lemma_str_cmp_zero(b, c);
    if str_cmp(a, b) == 0 {
    } else if str_cmp(b, c) == 0 {
    } else if a.len() > 0 && b.len() > 0 && c.len() > 0 {
        if a[0] == b[0] && b[0] == c[0] {
            lemma_str_cmp_trans(a.drop_first(), b.drop_first(), c.drop_first());
        }
    }
}

/// The rank a cell's shape sorts at, missing cells aside.
pub open spec fn sort_rank(v: ValueModel) -> int {
    match v {
        ValueModel::Null => 0,
        ValueModel::Bool(_) => 1,
        ValueModel::Int(_) => 2,
        ValueModel::UInt(_) => 3,
        ValueModel::Str(_) => 4,
        ValueModel::Float(_) => 5,
    }
}

/// An order-preserving integer picture of a double's bit pattern,
/// following the IEEE-754 total order: negative payloads are reflected,
/// non-negative ones shifted above them.
pub open spec fn float_order_key(bits: u64) -> int {
    if bits >= 0x8000000000000000 {
        0xFFFFFFFFFFFFFFFF - bits
    } else {
        bits + 0x8000000000000000
    }
}

/// Three-way comparison of two non-missing cells, ascending: shapes
/// rank first, then payloads in their native order; doubles follow the
/// IEEE-754 total order of their bit patterns.
pub open spec fn base_cmp(a: ValueModel, b: ValueModel) -> int {
    if sort_rank(a) < sort_rank(b) {
        -1
    } else if sort_rank(a) > sort_rank(b) {
        1
    } else {
        match (a, b) {
            (ValueModel::Bool(x), ValueModel::Bool(y)) => if x == y {
                0
            } else if !x {
                -1
            } else {
                1
            },
            (ValueModel::Int(x), ValueModel::Int(y)) => if x < y {
                -1
            } else if x > y {
                1
            } else {
                0
            },
            (ValueModel::UInt(x), ValueModel::UInt(y)) => if x < y {
                -1
            } else if x > y {
                1
            } else {
                0
            },
            (ValueModel::Str(x), ValueModel::Str(y)) => str_cmp(x, y),
            (ValueModel::Float(x), ValueModel::Float(y)) => if float_order_key(x)
                < float_order_key(y) {
                -1
            } else if float_order_key(x) > float_order_key(y) {
                1
            } else {
                0
            },
            _ => 0,
        }
    }
}

proof fn lemma_base_cmp_zero(a: ValueModel, b: ValueModel)
    ensures
        base_cmp(a, b) == 0 ==> a == b,
{
    if a is Str && b is Str {
        lemma_str_cmp_zero(a->Str_0, b->Str_0);
    }
}

proof fn lemma_base_cmp_antisym(a: ValueModel, b: ValueModel)
    ensures
        base_cmp(a, b) == -base_cmp(b, a),
{
    if a is Str && b is Str {
        lemma_str_cmp_antisym(a->Str_0, b->Str_0);
    }
}

proof fn lemma_base_cmp_trans(a: ValueModel, b: ValueModel, c: ValueModel)
    requires
        base_cmp(a, b) <= 0,
        base_cmp(b, c) <= 0,
    ensures
        base_cmp(a, c) <= 0,
{
    lemma_base_cmp_zero(a, b);
    lemma_base_cmp_zero(b, c);
    if base_cmp(a, b) == 0 || base_cmp(b, c) == 0 {
    } else if a is Str && b is Str && c is Str {
        lemma_str_cmp_trans(a->Str_0, b->Str_0, c->Str_0);
    }
}

/// Three-way comparison of two cells under one sort key: missing cells
/// sort together at the end when `nulls_last` and at the front
/// otherwise, whatever the direction; a descending key reverses the
/// base order of the rest.
pub open spec fn cell_cmp(a: ValueModel, b: ValueModel, descending: bool, nulls_last: bool) -> int {
    if a is Null && b is Null {
        0
    } else if a is Null {
        if nulls_last {
            1
        } else {
            -1
        }
    } else if b is Null {
        if nulls_last {
            -1
        } else {
            1
        }
    } else if descending {
        -base_cmp(a, b)
    } else {
        base_cmp(a, b)
    }
}

proof fn lemma_cell_cmp_zero(a: ValueModel, b: ValueModel, d: bool, nl: bool)
    ensures
        cell_cmp(a, b, d, nl) == 0 ==> a == b,
{
    lemma_base_cmp_zero(a, b);
}

proof fn lemma_cell_cmp_antisym(a: ValueModel, b: ValueModel, d: bool, nl: bool)
    ensures
        cell_cmp(a, b, d, nl) == -cell_cmp(b, a, d, nl),
{
    lemma_base_cmp_antisym(a, b);
}

proof fn lemma_cell_cmp_trans(a: ValueModel, b: ValueModel, c: ValueModel, d: bool, nl: bool)
    requires
        cell_cmp(a, b, d, nl) <= 0,
        cell_cmp(b, c, d, nl) <= 0,
    ensures
        cell_cmp(a, c, d, nl) <= 0,
{
    if !(a is Null) && !(b is Null) && !(c is Null) {
        if d {
            lemma_base_cmp_antisym(a, b);
            lemma_base_cmp_antisym(b, c);
            lemma_base_cmp_antisym(a, c);
            lemma_base_cmp_trans(c, b, a);
        } else {
            lemma_base_cmp_trans(a, b, c);
        }
    }
}

/// Three-way comparison of rows `a` and `b` under the ordered sort
/// keys: the first key that separates them decides.
pub open spec fn row_cmp(
    t: TableModel,
    cols: Seq<int>,
    desc: Seq<bool>,
    nulls_last: bool,
    a: int,
    b: int,
) -> int
    decreases cols.len(),
{
    if cols.len() == 0 {
        0
    } else {
        let c = cell_cmp(
            t.columns[cols[0]].values[a],
            t.columns[cols[0]].values[b],
            desc[0],
            nulls_last,
        );
        if c != 0 {
            c
        } else {
            row_cmp(t, cols.drop_first(), desc.drop_first(), nulls_last, a, b)
        }
    }
}

/// Rows compare oppositely in opposite order.
pub proof fn lemma_row_cmp_antisym(
    t: TableModel,
    cols: Seq<int>,
    desc: Seq<bool>,
    nl: bool,
    a: int,
    b: int,
)
    ensures
        row_cmp(t, cols, desc, nl, a, b) == -row_cmp(t, cols, desc, nl, b, a),
    decreases cols.len(),
{
    if cols.len() > 0 {
        lemma_cell_cmp_antisym(t.columns[cols[0]].values[a], t.columns[cols[0]].values[b], desc[0], nl);
        lemma_row_cmp_antisym(t, cols.drop_first(), desc.drop_first(), nl, a, b);
    }
}

/// Row comparison is transitive.
pub proof fn lemma_row_cmp_trans(
    t: TableModel,
    cols: Seq<int>,
    desc: Seq<bool>,
    nl: bool,
    a: int,
    b: int,
    c: int,
)
    requires
        row_cmp(t, cols, desc, nl, a, b) <= 0,
        row_cmp(t, cols, desc, nl, b, c) <= 0,
    ensures
        row_cmp(t, cols, desc, nl, a, c) <= 0,
    decreases cols.len(),
{
    if cols.len() > 0 {
        let va = t.columns[cols[0]].values[a];
        let vb = t.columns[cols[0]].values[b];
        let vc = t.columns[cols[0]].values[c];
        let d0 = desc[0];
        lemma_cell_cmp_zero(va, vb, d0, nl);
        lemma_cell_cmp_zero(vb, vc, d0, nl);
        lemma_cell_cmp_antisym(va, vc, d0, nl);
        lemma_cell_cmp_antisym(vc, vb, d0, nl);
        lemma_cell_cmp_trans(va, vb, vc, d0, nl);
        if cell_cmp(va, vb, d0, nl) == 0 && cell_cmp(vb, vc, d0, nl) == 0 {
            assert(va == vb && vb == vc);
            assert(cell_cmp(va, vc, d0, nl) == 0);
            lemma_row_cmp_trans(t, cols.drop_first(), desc.drop_first(), nl, a, b, c);
        } else if cell_cmp(va, vb, d0, nl) == 0 {
            assert(va == vb);
            assert(cell_cmp(va, vc, d0, nl) == cell_cmp(vb, vc, d0, nl));
        } else if cell_cmp(vb, vc, d0, nl) == 0 {
            assert(vb == vc);
        } else {
            if cell_cmp(va, vc, d0, nl) == 0 {
                lemma_cell_cmp_zero(va, vc, d0, nl);
                assert(va == vc);
                assert(cell_cmp(vc, vb, d0, nl) == cell_cmp(va, vb, d0, nl));
                assert(false);
            }
        }
    }
}

/// Exec three-way comparison of two strings.
fn str_cmp_exec(a: &String, b: &String) -> (r: i8)
    ensures
        r as int == str_cmp(a@, b@),
        -1 <= r <= 1,
{
    let la = a.as_str().unicode_len();
    let lb = b.as_str().unicode_len();
    proof {
        assert(a@.skip(0) =~= a@);
        assert(b@.skip(0) =~= b@);
    }
    let mut i: usize = 0;
    while i < la && i < lb
        invariant
            la == a@.len(),
            lb == b@.len(),
            i <= la,
            i <= lb,
            str_cmp(a@, b@) == str_cmp(a@.skip(i as int), b@.skip(i as int)),
        decreases la - i,
    {
        let ca = a.as_str().get_char(i);
        let cb = b.as_str().get_char(i);
        proof {
            assert(a@.skip(i as int)[0] == a@[i as int]);
            assert(b@.skip(i as int)[0] == b@[i as int]);
            assert(a@.skip(i as int).drop_first() =~= a@.skip(i + 1));
            assert(b@.skip(i as int).drop_first() =~= b@.skip(i + 1));
        }
        if ca != cb {
            if (ca as u32) < (cb as u32) {
                return -1;
            } else {
                return 1;
            }
        }
        i += 1;
    }
    proof {
        if la == lb {
            assert(a@.skip(i as int) =~= Seq::<char>::empty());
            assert(b@.skip(i as int) =~= Seq::<char>::empty());
        } else if la < lb {
            assert(a@.skip(i as int) =~= Seq::<char>::empty());
            assert(b@.skip(i as int).len() > 0);
        } else {
            assert(b@.skip(i as int) =~= Seq::<char>::empty());
            assert(a@.skip(i as int).len() > 0);
        }
    }
    if la == lb {
        0
    } else if la < lb {
        -1
    } else {
        1
    }
}

/// Exec three-way comparison of two cells under one sort key.
fn cmp_cells(a: &Value, b: &Value, descending: bool, nulls_last: bool) -> (r: i8)
    ensures
        r as int == cell_cmp(a@, b@, descending, nulls_last),
        -1 <= r <= 1,
{
    let flip: i8 = if descending {
        -1
    } else {
        1
    };
    match (a, b) {
        (Value::Null, Value::Null) => 0,
        (Value::Null, _) => {
            proof {
                let v = *b;
                if v is Bool {
                } else if v is Int {
                } else if v is UInt {
                } else if v is Str {
                } else {
                    assert(v is Float);
                }
            }
            if nulls_last {
                1
            } else {
                -1
            }
        },
        (_, Value::Null) => {
            proof {
                let v = *a;
                if v is Bool {
                } else if v is Int {
                } else if v is UInt {
                } else if v is Str {
                } else {
                    assert(v is Float);
                }
            }
            if nulls_last {
                -1
            } else {
                1
            }
        },
        (Value::Bool(x), Value::Bool(y)) => {
            if x == y {
                0
            } else if !*x {
                -1 * flip
            } else {
                1 * flip
            }
        },
        (Value::Int(x), Value::Int(y)) => {
            if *x < *y {
                -1 * flip
            } else if *x > *y {
                1 * flip
            } else {
                0
            }
        },
        (Value::UInt(x), Value::UInt(y)) => {
            if *x < *y {
                -1 * flip
            } else if *x > *y {
                1 * flip
            } else {
                0
            }
        },
        (Value::Str(x), Value::Str(y)) => str_cmp_exec(x, y) * flip,
        (Value::Float(x), Value::Float(y)) => {
            let ka = if *x >= 0x8000000000000000 {
                0xFFFFFFFFFFFFFFFFu64 - *x
            } else {
                *x + 0x8000000000000000
            };
            let kb = if *y >= 0x8000000000000000 {
                0xFFFFFFFFFFFFFFFFu64 - *y
            } else {
                *y + 0x8000000000000000
            };
            if ka < kb {
                -1 * flip
            } else if ka > kb {
                1 * flip
            } else {
                0
            }
        },
        (x, y) => {
            let ra = rank_exec(x);
            let rb = rank_exec(y);
            if ra < rb {
                -1 * flip
            } else {
                1 * flip
            }
        },
    }
}

/// Exec rank of a cell's shape.
fn rank_exec(v: &Value) -> (r: u8)
    ensures
        r as int == sort_rank(v@),
{
    match v {
        Value::Null => 0,
        Value::Bool(_) => 1,
        Value::Int(_) => 2,
        Value::UInt(_) => 3,
        Value::Str(_) => 4,
        Value::Float(_) => 5,
    }
}

/// Whether every column of the table carries the table's row count —
/// the part of well-formedness row comparison rests on; names play no
/// role here.
pub open spec fn equal_column_lengths(t: TableModel) -> bool {
    forall|j: int| 0 <= j < t.columns.len() ==> (#[trigger] t.columns[j].values).len() == t.nrows()
}

/// Exec three-way comparison of two rows under the ordered sort keys.
fn cmp_rows(
    t: &Table,
    cols: &Vec<usize>,
    desc: &Vec<bool>,
    nulls_last: bool,
    a: usize,
    b: usize,
) -> (r: i8)
    requires
        equal_column_lengths(t@),
        a < t@.nrows(),
        b < t@.nrows(),
        desc@.len() == cols@.len(),
        forall|k: int| 0 <= k < cols@.len() ==> (#[trigger] cols@[k]) < t@.columns.len(),
    ensures
        r as int == row_cmp(t@, idx_view(cols@), desc@, nulls_last, a as int, b as int),
        -1 <= r <= 1,
{
    let ghost colsv = idx_view(cols@);
    proof {
        assert(colsv.skip(0) =~= colsv);
        assert(desc@.skip(0) =~= desc@);
    }
    let n = cols.len();
    let mut j: usize = 0;
    while j < n
        invariant
            equal_column_lengths(t@),
            a < t@.nrows(),
            b < t@.nrows(),
            n == cols@.len(),
            desc@.len() == n,
            colsv == idx_view(cols@),
            forall|k: int| 0 <= k < cols@.len() ==> (#[trigger] cols@[k]) < t@.columns.len(),
            j <= n,
            row_cmp(t@, colsv.skip(j as int), desc@.skip(j as int), nulls_last, a as int, b as int)
                == row_cmp(t@, colsv, desc@, nulls_last, a as int, b as int),
        decreases n - j,
    {
        proof {
            assert(t@.columns[colsv[j as int]].values.len() == t@.nrows());
            assert(colsv.skip(j as int)[0] == colsv[j as int]);
            assert(desc@.skip(j as int)[0] == desc@[j as int]);
            assert(colsv.skip(j as int).drop_first() =~= colsv.skip(j + 1));
            assert(desc@.skip(j as int).drop_first() =~= desc@.skip(j + 1));
        }
        let c = cmp_cells(
            &t.columns[cols[j]].values[a],
            &t.columns[cols[j]].values[b],
            desc[j],
            nulls_last,
        );
        if c != 0 {
            return c;
        }
        j += 1;
    }
    proof {
        assert(colsv.skip(n as int) =~= Seq::<int>::empty());
    }
    0
}


/// The row order the sort assigns: a permutation listing row positions
/// so that rows compare non-decreasingly under the keys, ties kept in
/// original row order.
pub open spec fn is_sorted_perm(
    t: TableModel,
    cols: Seq<int>,
    desc: Seq<bool>,
    nulls_last: bool,
    perm: Seq<int>,
) -> bool {
    &&& perm.len() == t.nrows()
    &&& forall|k: int| 0 <= k < perm.len() ==> 0 <= #[trigger] perm[k] < t.nrows()
    &&& forall|x: int, y: int| 0 <= x < y < perm.len() ==> #[trigger] perm[x] != #[trigger] perm[y]
    &&& forall|x: int, y: int|
        0 <= x < y < perm.len() ==> row_cmp(t, cols, desc, nulls_last, #[trigger] perm[x], #[trigger] perm[y])
            <= 0
    &&& forall|x: int, y: int|
        0 <= x < y < perm.len() && row_cmp(t, cols, desc, nulls_last, #[trigger] perm[x], #[trigger] perm[y])
            == 0 ==> perm[x] < perm[y]
}

/// Sorts the table's row positions by the keyed comparison, stably:
/// rows that compare equal keep their original order.
fn sort_indices(t: &Table, cols: &Vec<usize>, desc: &Vec<bool>, nulls_last: bool) -> (r: Vec<usize>)
    requires
        equal_column_lengths(t@),
        desc@.len() == cols@.len(),
        forall|k: int| 0 <= k < cols@.len() ==> (#[trigger] cols@[k]) < t@.columns.len(),
    ensures
        is_sorted_perm(t@, idx_view(cols@), desc@, nulls_last, idx_view(r@)),
{
    let ghost colsv = idx_view(cols@);
    let n = crate::table::df_n_rows(t);
    let mut rem: Vec<usize> = Vec::new();
    let mut i: usize = 0;
    while i < n
        invariant
            n == t@.nrows(),
            i <= n,
            rem.len() == i,
            forall|k: int| 0 <= k < i ==> rem@[k] == k,
        decreases n - i,
    {
        rem.push(i);
        i += 1;
    }
    let mut out: Vec<usize> = Vec::new();
    while rem.len() > 0
        invariant
            equal_column_lengths(t@),
            n == t@.nrows(),
            desc@.len() == cols@.len(),
            colsv == idx_view(cols@),
            forall|k: int| 0 <= k < cols@.len() ==> (#[trigger] cols@[k]) < t@.columns.len(),
            out.len() + rem.len() == n,
            forall|k: int| 0 <= k < out@.len() ==> (#[trigger] out@[k]) < n,
            forall|k: int| 0 <= k < rem@.len() ==> (#[trigger] rem@[k]) < n,
            forall|x: int, y: int| 0 <= x < y < rem@.len() ==> #[trigger] rem@[x] < #[trigger] rem@[y],
            forall|x: int, y: int| 0 <= x < y < out@.len() ==> #[trigger] out@[x] != #[trigger] out@[y],
            forall|x: int, y: int|
                0 <= x < out@.len() && 0 <= y < rem@.len() ==> #[trigger] out@[x] != #[trigger] rem@[y],
            forall|x: int, y: int|
                0 <= x < y < out@.len() ==> row_cmp(
                    t@,
                    colsv,
                    desc@,
                    nulls_last,
                    #[trigger] out@[x] as int,
                    #[trigger] out@[y] as int,
                ) <= 0,
            forall|x: int, y: int|
                0 <= x < y < out@.len() && row_cmp(
                    t@,
                    colsv,
                    desc@,
                    nulls_last,
                    #[trigger] out@[x] as int,
                    #[trigger] out@[y] as int,
                ) == 0 ==> out@[x] < out@[y],
            forall|x: int, y: int|
                0 <= x < out@.len() && 0 <= y < rem@.len() ==> row_cmp(
                    t@,
                    colsv,
                    desc@,
                    nulls_last,
                    #[trigger] out@[x] as int,
                    #[trigger] rem@[y] as int,
                ) <= 0,
            forall|x: int, y: int|
                0 <= x < out@.len() && 0 <= y < rem@.len() && row_cmp(
                    t@,
                    colsv,
                    desc@,
                    nulls_last,
                    #[trigger] out@[x] as int,
                    #[trigger] rem@[y] as int,
                ) == 0 ==> out@[x] < rem@[y],
        decreases rem.len(),
    {
        let m = rem.len();
        proof {
            lemma_row_cmp_antisym(t@, colsv, desc@, nulls_last, rem@[0] as int, rem@[0] as int);
        }
        let mut best: usize = 0;
        let mut k: usize = 1;
        while k < m
            invariant
                equal_column_lengths(t@),
                n == t@.nrows(),
                desc@.len() == cols@.len(),
                colsv == idx_view(cols@),
                forall|q: int| 0 <= q < cols@.len() ==> (#[trigger] cols@[q]) < t@.columns.len(),
                m == rem.len(),
                m > 0,
                forall|q: int| 0 <= q < rem@.len() ==> (#[trigger] rem@[q]) < n,
                best < k <= m || (k <= m && best == 0),
                best < m,
                forall|q: int|
                    0 <= q < k ==> row_cmp(
                        t@,
                        colsv,
                        desc@,
                        nulls_last,
                        rem@[best as int] as int,
                        #[trigger] rem@[q] as int,
                    ) <= 0,
                forall|q: int|
                    0 <= q < k && row_cmp(
                        t@,
                        colsv,
                        desc@,
                        nulls_last,
                        rem@[best as int] as int,
                        #[trigger] rem@[q] as int,
                    ) == 0 ==> best <= q,
            decreases m - k,
        {
            let c = cmp_rows(t, cols, desc, nulls_last, rem[k], rem[best]);
            proof {
                lemma_row_cmp_antisym(t@, colsv, desc@, nulls_last, rem@[k as int] as int, rem@[
                    best as int] as int);
            }
            if c < 0 {
                proof {
                    assert forall|q: int|
                        0 <= q < k + 1 implies row_cmp(
                        t@,
                        colsv,
                        desc@,
                        nulls_last,
                        rem@[k as int] as int,
                        #[trigger] rem@[q] as int,
                    ) <= 0 by {
                        if q < k {
                            lemma_row_cmp_trans(
                                t@,
                                colsv,
                                desc@,
                                nulls_last,
                                rem@[k as int] as int,
                                rem@[best as int] as int,
                                rem@[q] as int,
                            );
                        } else {
                            lemma_row_cmp_antisym(
                                t@,
                                colsv,
                                desc@,
                                nulls_last,
                                rem@[k as int] as int,
                                rem@[k as int] as int,
                            );
                        }
                    }
                    assert forall|q: int|
                        0 <= q < k + 1 && row_cmp(
                        t@,
                        colsv,
                        desc@,
                        nulls_last,
                        rem@[k as int] as int,
                        #[trigger] rem@[q] as int,
                    ) == 0 implies k as int <= q by {
                        if q < k {
                            lemma_row_cmp_antisym(t@, colsv, desc@, nulls_last, rem@[k as int] as int, rem@[
                                q] as int);
                            lemma_row_cmp_trans(
                                t@,
                                colsv,
                                desc@,
                                nulls_last,
                                rem@[best as int] as int,
                                rem@[q] as int,
                                rem@[k as int] as int,
                            );
                        }
                    }
                }
                best = k;
            }
            k += 1;
        }
        let picked = rem.remove(best);
        let ghost rem_pre = rem@.insert(best as int, picked);
        proof {
            assert(rem_pre == rem@.insert(best as int, picked));
        }
        out.push(picked);
        proof {
            let ghost outv = out@;
            assert(outv.last() == picked);
            assert forall|y: int| 0 <= y < rem@.len() implies #[trigger] rem@[y] == (if y
                < best as int {
                rem_pre[y]
            } else {
                rem_pre[y + 1]
            }) by {}
            assert forall|x: int, y: int|
                0 <= x < outv.len() && 0 <= y < rem@.len() implies #[trigger] outv[x] != #[trigger] rem@[y] by {
                let src: int = if y < best as int {
                    y
                } else {
                    y + 1
                };
                assert(rem@[y] == rem_pre[src]);
                if x < outv.len() - 1 {
                } else {
                    assert(outv[x] == rem_pre[best as int]);
                }
            }
            assert forall|x: int, y: int|
                0 <= x < outv.len() && 0 <= y < rem@.len() implies row_cmp(
                t@,
                colsv,
                desc@,
                nulls_last,
                #[trigger] outv[x] as int,
                #[trigger] rem@[y] as int,
            ) <= 0 && (row_cmp(
                t@,
                colsv,
                desc@,
                nulls_last,
                outv[x] as int,
                rem@[y] as int,
            ) == 0 ==> outv[x] < rem@[y]) by {
                let src: int = if y < best as int {
                    y
                } else {
                    y + 1
                };
                assert(rem@[y] == rem_pre[src]);
                if x == outv.len() - 1 {
                    assert(outv[x] == rem_pre[best as int]);
                    if src < best as int {
                        assert(row_cmp(
                            t@,
                            colsv,
                            desc@,
                            nulls_last,
                            rem_pre[best as int] as int,
                            rem_pre[src] as int,
                        ) < 0);
                    } else {
                        assert(src > best as int);
                        assert(rem_pre[best as int] < rem_pre[src]);
                    }
                }
            }
        }
    }
    proof {
        let rv = idx_view(out@);
        assert(rv.len() == n);
        assert forall|k: int| 0 <= k < rv.len() implies 0 <= #[trigger] rv[k] < t@.nrows() by {
            assert(out@[k] < n);
        }
        assert forall|x: int, y: int| 0 <= x < y < rv.len() implies #[trigger] rv[x] != #[trigger] rv[y] by {
            assert(out@[x] != out@[y]);
        }
        assert forall|x: int, y: int|
            0 <= x < y < rv.len() implies row_cmp(t@, colsv, desc@, nulls_last, #[trigger] rv[x], #[trigger] rv[y])
            <= 0 by {
            assert(row_cmp(t@, colsv, desc@, nulls_last, out@[x] as int, out@[y] as int) <= 0);
        }
        assert forall|x: int, y: int|
            0 <= x < y < rv.len() && row_cmp(t@, colsv, desc@, nulls_last, #[trigger] rv[x], #[trigger] rv[y])
                == 0 implies rv[x] < rv[y] by {
            assert(out@[x] < out@[y]);
        }
    }
    out
}


/// The per-key directions a direction list denotes: a single entry
/// spreads over every key.
pub open spec fn norm_desc(rev: Seq<bool>, k: nat) -> Seq<bool> {
    if rev.len() == 1 {
        Seq::new(k, |i: int| rev[0])
    } else {
        rev
    }
}

/// Whether `out` is `t` sorted by the keys: its rows are `t`'s rows in
/// some stable, key-ordered permutation.
pub open spec fn is_sorted_of(
    t: TableModel,
    cols: Seq<int>,
    desc: Seq<bool>,
    nulls_last: bool,
    out: TableModel,
) -> bool {
    exists|perm: Seq<int>|
        #![auto]
        is_sorted_perm(t, cols, desc, nulls_last, perm) && out == spec_take(t, perm)
}

/// Sorts rows by the named columns, applied within each group when
/// grouping columns are given. A direction list names one direction per
/// sort column, or a single direction for all; any other length is
/// refused. The sort is always stable and sequential: the order-keeping
/// and threading flags are accepted for interface fidelity and do not
/// change the result.
pub fn df_sort_by(
    df: Table,
    by_columns: &Vec<String>,
    reverse: &Vec<bool>,
    maintain_order: bool,
    multithreaded: bool,
    nulls_last: bool,
    groups: &Vec<String>,
) -> (r: Result<Table, ExplorerError>)
    requires
        df@.wf(),
    ensures
        !(reverse@.len() == by_columns@.len() || reverse@.len() == 1) ==> r is Err && r->Err_0 is InvalidParameters,
        (reverse@.len() == by_columns@.len() || reverse@.len() == 1) && !all_found(
            df@,
            by_columns.deep_view(),
        ) ==> r is Err && r->Err_0 is ColumnNotFound,
        (reverse@.len() == by_columns@.len() || reverse@.len() == 1) && all_found(
            df@,
            by_columns.deep_view(),
        ) && groups@.len() == 0 ==> r is Ok && is_sorted_of(
            df@,
            spec_resolve(df@, by_columns.deep_view()),
            norm_desc(reverse@, by_columns@.len() as nat),
            nulls_last,
            r->Ok_0@,
        ),
        (reverse@.len() == by_columns@.len() || reverse@.len() == 1) && all_found(
            df@,
            by_columns.deep_view(),
        ) && groups@.len() > 0 ==> (r is Ok <==> all_found(df@, groups.deep_view())),
        (reverse@.len() == by_columns@.len() || reverse@.len() == 1) && all_found(
            df@,
            by_columns.deep_view(),
        ) && groups@.len() > 0 && !all_found(df@, groups.deep_view()) ==> r is Err
            && r->Err_0 is ColumnNotFound,
        groups@.len() > 0 && r is Ok ==> exists|gs: Seq<Seq<int>>, parts: Seq<Table>|
            #![auto]
            {
                &&& is_stable_partition(df@, spec_resolve(df@, groups.deep_view()), gs)
                &&& parts.len() == gs.len()
                &&& forall|g: int|
                    0 <= g < gs.len() ==> is_sorted_of(
                        spec_take(df@, gs[g]),
                        spec_resolve(df@, by_columns.deep_view()),
                        norm_desc(reverse@, by_columns@.len() as nat),
                        nulls_last,
                        (#[trigger] parts[g])@,
                    )
                &&& r->Ok_0@ == vconcat_all(parts.map_values(|p: Table| p@))
            },
        r is Err ==> r->Err_0 is InvalidParameters || r->Err_0 is ColumnNotFound,
{
    let ghost dfv = df@;
    if !(reverse.len() == by_columns.len() || reverse.len() == 1) {
        return Err(ExplorerError::InvalidParameters);
    }
    let cols = match crate::group::resolve_columns(&df, by_columns) {
        Ok(c) => c,
        Err(e) => {
            return Err(e);
        },
    };
    let mut descn: Vec<bool> = Vec::new();
    if reverse.len() == cols.len() {
        let mut k: usize = 0;
        while k < reverse.len()
            invariant
                k <= reverse@.len(),
                descn.len() == k,
                forall|q: int| 0 <= q < k ==> descn@[q] == reverse@[q],
            decreases reverse@.len() - k,
        {
            descn.push(reverse[k]);
            k += 1;
        }
    } else {
        let d = reverse[0];
        let mut k: usize = 0;
        while k < cols.len()
            invariant
                k <= cols@.len(),
                d == reverse@[0],
                descn.len() == k,
                forall|q: int| 0 <= q < k ==> descn@[q] == reverse@[0],
            decreases cols@.len() - k,
        {
            descn.push(d);
            k += 1;
        }
    }
    proof {
        if reverse@.len() == cols@.len() && reverse@.len() != 1 {
            assert(descn@ =~= norm_desc(reverse@, by_columns@.len() as nat));
        } else {
            assert(descn@ =~= norm_desc(reverse@, by_columns@.len() as nat));
        }
    }
    let ghost colsv = crate::table_ops::idx_view(cols@);
    let ghost descv = descn@;
    let width = df.columns.len();
    let transform = |tt: Table| -> (out: Result<Table, ExplorerError>)
        requires
            tt@.wf(),
        ensures
            out is Ok <==> (forall|k: int|
                0 <= k < cols@.len() ==> (#[trigger] cols@[k]) < tt@.columns.len()),
            out is Ok ==> is_sorted_of(
                tt@,
                crate::table_ops::idx_view(cols@),
                descn@,
                nulls_last,
                out->Ok_0@,
            ) && out->Ok_0@.wf() && out->Ok_0@.names() == tt@.names(),
            out is Err ==> out->Err_0 is ColumnNotFound,
        {
            let mut k: usize = 0;
            let nc = cols.len();
            while k < nc
                invariant
                    nc == cols@.len(),
                    k <= nc,
                    forall|q: int| 0 <= q < k ==> (#[trigger] cols@[q]) < tt@.columns.len(),
                decreases nc - k,
            {
                if cols[k] >= tt.columns.len() {
                    return Err(ExplorerError::ColumnNotFound(String::new()));
                }
                k += 1;
            }
            let perm = sort_indices(&tt, &cols, &descn, nulls_last);
            let taken = crate::table_ops::df_take(&tt, &perm);
            match taken {
                Ok(o) => {
                    proof {
                        let pv = crate::table_ops::idx_view(perm@);
                        assert forall|q: int| 0 <= q < perm@.len() implies (#[trigger] perm@[q])
                            < tt@.nrows() by {
                            assert(0 <= pv[q] < tt@.nrows());
                        }
                        assert(is_sorted_of(
                            tt@,
                            crate::table_ops::idx_view(cols@),
                            descn@,
                            nulls_last,
                            o@,
                        ));
                    }
                    Ok(o)
                },
                Err(_) => {
                    proof {
                        let pv = crate::table_ops::idx_view(perm@);
                        assert forall|q: int| 0 <= q < perm@.len() implies (#[trigger] perm@[q])
                            < tt@.nrows() by {
                            assert(0 <= pv[q] < tt@.nrows());
                        }
                        assert(false);
                    }
                    Err(ExplorerError::ColumnNotFound(String::new()))
                },
            }
        };
    proof {
        assert(forall|x: Table, y: Result<Table, ExplorerError>|
            #[trigger] call_ensures(transform, (x,), y) ==> ((y is Ok ==> is_sorted_of(
                x@,
                colsv,
                descv,
                nulls_last,
                y->Ok_0@,
            ) && y->Ok_0@.names() == x@.names()) && (y is Err ==> !(forall|k: int|
                0 <= k < cols@.len() ==> (#[trigger] cols@[k]) < x@.columns.len()))));
    }
    let r = grouped_apply(df, groups, transform);
    proof {
        if groups@.len() == 0 {
            assert(call_ensures(transform, (df,), r));
        } else {
            if r is Ok {
                let (gs, subs, parts): (Seq<Seq<int>>, Seq<Table>, Seq<Table>) = choose|
                    gs: Seq<Seq<int>>,
                    subs: Seq<Table>,
                    parts: Seq<Table>,
                |
                    #![auto]
                    {
                        &&& is_stable_partition(dfv, spec_resolve(dfv, groups.deep_view()), gs)
                        &&& subs.len() == gs.len()
                        &&& parts.len() == gs.len()
                        &&& forall|g2: int|
                            0 <= g2 < gs.len() ==> (#[trigger] subs[g2])@ == spec_take(dfv, gs[g2])
                        &&& forall|g2: int|
                            0 <= g2 < gs.len() ==> call_ensures(
                                transform,
                                ((#[trigger] subs[g2]),),
                                Ok(parts[g2]),
                            )
                        &&& r->Ok_0@ == vconcat_all(parts.map_values(|p: Table| p@))
                    };
                assert forall|g2: int| 0 <= g2 < gs.len() implies is_sorted_of(
                    spec_take(dfv, gs[g2]),
                    colsv,
                    descv,
                    nulls_last,
                    (#[trigger] parts[g2])@,
                ) by {
                    assert(call_ensures(transform, (subs[g2],), Ok(parts[g2])));
                }
            } else {
                let e = r->Err_0;
                if !(e is ColumnNotFound && !all_found(dfv, groups.deep_view())) {
                    if exists|sub: Table|
                        #![auto]
                        call_ensures(transform, (sub,), Err::<Table, ExplorerError>(e))
                            && sub@.names() == dfv.names() && sub@.wf() {
                        let sub = choose|sub: Table|
                            #![auto]
                            call_ensures(transform, (sub,), Err::<Table, ExplorerError>(e))
                                && sub@.names() == dfv.names() && sub@.wf();
                        assert(sub@.columns.len() == dfv.columns.len()) by {
                            assert(sub@.names().len() == dfv.names().len());
                        }
                        assert(forall|k: int|
                            0 <= k < cols@.len() ==> (#[trigger] cols@[k]) < sub@.columns.len());
                        assert(false);
                    } else {
                        let (s1, p1, s2, p2): (Table, Table, Table, Table) = choose|
                            s1: Table,
                            p1: Table,
                            s2: Table,
                            p2: Table,
                        |
                            #![auto]
                            call_ensures(transform, (s1,), Ok(p1)) && call_ensures(
                                transform,
                                (s2,),
                                Ok(p2),
                            ) && s1@.names() == dfv.names() && s2@.names() == dfv.names()
                                && p1@.names() != p2@.names();
                        assert(p1@.names() == s1@.names());
                        assert(p2@.names() == s2@.names());
                        assert(false);
                    }
                }
            }
        }
    }
    r
}


/// A list of side-car key columns as a nameless table, for row
/// comparison; only the cells take part.
pub open spec fn key_table(keys: Seq<ColumnModel>) -> TableModel {
    TableModel { columns: keys }
}

/// The positions of all key columns, in order.
pub open spec fn all_key_cols(n: nat) -> Seq<int> {
    Seq::new(n, |i: int| i)
}

/// Row comparison reads only the cells of the compared columns: tables
/// agreeing there compare alike.
proof fn lemma_row_cmp_values(
    t1: TableModel,
    t2: TableModel,
    cols: Seq<int>,
    desc: Seq<bool>,
    nl: bool,
    a: int,
    b: int,
)
    requires
        forall|x: int|
            0 <= x < cols.len() ==> t1.columns[#[trigger] cols[x]].values == t2.columns[cols[x]].values,
    ensures
        row_cmp(t1, cols, desc, nl, a, b) == row_cmp(t2, cols, desc, nl, a, b),
    decreases cols.len(),
{
    if cols.len() > 0 {
        assert(t1.columns[cols[0]].values == t2.columns[cols[0]].values);
        assert forall|x: int|
            0 <= x < cols.drop_first().len() implies t1.columns[#[trigger] cols.drop_first()[x]].values
            == t2.columns[cols.drop_first()[x]].values by {
            assert(cols.drop_first()[x] == cols[x + 1]);
        }
        lemma_row_cmp_values(t1, t2, cols.drop_first(), desc.drop_first(), nl, a, b);
    }
}

/// Whether `out` is `t` sorted by the side-car key columns: its rows
/// are `t`'s rows in a permutation that orders the key rows stably.
pub open spec fn is_key_sorted_of(
    t: TableModel,
    keys: Seq<ColumnModel>,
    desc: Seq<bool>,
    nulls_last: bool,
    out: TableModel,
) -> bool {
    exists|perm: Seq<int>|
        #![auto]
        is_sorted_perm(key_table(keys), all_key_cols(keys.len()), desc, nulls_last, perm) && out
            == spec_take(t, perm)
}

/// Being key-sorted depends on the key cells alone, not their names.
proof fn lemma_key_sorted_values(
    t: TableModel,
    k1: Seq<ColumnModel>,
    k2: Seq<ColumnModel>,
    desc: Seq<bool>,
    nl: bool,
    out: TableModel,
)
    requires
        k1.len() == k2.len(),
        forall|i: int| 0 <= i < k1.len() ==> (#[trigger] k1[i]).values == k2[i].values,
        is_key_sorted_of(t, k1, desc, nl, out),
    ensures
        is_key_sorted_of(t, k2, desc, nl, out),
{
    let perm = choose|perm: Seq<int>|
        #![auto]
        is_sorted_perm(key_table(k1), all_key_cols(k1.len()), desc, nl, perm) && out == spec_take(
            t,
            perm,
        );
    let cols = all_key_cols(k1.len());
    assert forall|x: int|
        0 <= x < cols.len() implies key_table(k1).columns[#[trigger] cols[x]].values == key_table(
        k2,
    ).columns[cols[x]].values by {
        assert(cols[x] == x);
    }
    assert(key_table(k1).nrows() == key_table(k2).nrows());
    assert forall|x: int, y: int|
        0 <= x < perm.len() && 0 <= y < perm.len() implies row_cmp(
        key_table(k2),
        cols,
        desc,
        nl,
        #[trigger] perm[x],
        #[trigger] perm[y],
    ) == row_cmp(key_table(k1), cols, desc, nl, perm[x], perm[y]) by {
        lemma_row_cmp_values(key_table(k2), key_table(k1), cols, desc, nl, perm[x], perm[y]);
    }
    assert(is_sorted_perm(key_table(k2), all_key_cols(k2.len()), desc, nl, perm));
}

/// Sorts one table block by its side-car key columns, stably.
fn sort_block(t: &Table, keys: &Vec<Column>, descn: &Vec<bool>, nulls_last: bool) -> (out: Table)
    requires
        t@.wf(),
        keys@.len() > 0,
        descn@.len() == keys@.len(),
        forall|k: int| 0 <= k < keys@.len() ==> (#[trigger] keys@[k])@.values.len() == t@.nrows(),
    ensures
        is_key_sorted_of(t@, keys.deep_view(), descn@, nulls_last, out@),
        out@.wf(),
        out@.names() == t@.names(),
        out@.nrows() == t@.nrows(),
{
    let nk = keys.len();
    let mut kcols: Vec<Column> = Vec::new();
    let mut cols: Vec<usize> = Vec::new();
    let mut i: usize = 0;
    while i < nk
        invariant
            nk == keys@.len(),
            forall|k: int| 0 <= k < keys@.len() ==> (#[trigger] keys@[k])@.values.len() == t@.nrows(),
            i <= nk,
            kcols.len() == i,
            cols.len() == i,
            forall|x: int| 0 <= x < i ==> (#[trigger] kcols@[x])@.values == keys.deep_view()[x].values,
            forall|x: int| 0 <= x < i ==> (#[trigger] cols@[x]) == x,
        decreases nk - i,
    {
        kcols.push(
            Column { name: String::new(), values: crate::value::dup_values(&keys[i].values) },
        );
        cols.push(i);
        proof {
            assert(kcols@[i as int]@.values == keys.deep_view()[i as int].values);
        }
        i += 1;
    }
    let kt = Table { columns: kcols };
    proof {
        assert(kt@.columns.len() == nk);
        assert forall|j: int| 0 <= j < kt@.columns.len() implies (#[trigger] kt@.columns[j].values).len()
            == kt@.nrows() by {
            assert(kt@.columns[j].values == keys.deep_view()[j].values);
            assert(keys.deep_view()[j].values.len() == keys@[j]@.values.len());
            assert(kt@.columns[0].values.len() == t@.nrows());
        }
        assert(equal_column_lengths(kt@));
        assert(kt@.nrows() == t@.nrows());
    }
    let perm = sort_indices(&kt, &cols, descn, nulls_last);
    proof {
        let colsv = idx_view(cols@);
        assert(colsv =~= all_key_cols(nk as nat));
        assert(kt@ == key_table(kcols.deep_view()));
        assert(is_sorted_perm(
            key_table(kcols.deep_view()),
            all_key_cols(kcols.deep_view().len()),
            descn@,
            nulls_last,
            idx_view(perm@),
        ));
    }
    match df_take(t, &perm) {
        Ok(o) => {
            proof {
                let pv = idx_view(perm@);
                assert forall|q: int| 0 <= q < perm@.len() implies (#[trigger] perm@[q])
                    < t@.nrows() by {
                    assert(0 <= pv[q] < kt@.nrows());
                }
                assert(is_key_sorted_of(t@, kcols.deep_view(), descn@, nulls_last, o@));
                assert forall|x: int|
                    0 <= x < kcols.deep_view().len() implies (#[trigger] kcols.deep_view()[x]).values
                    == keys.deep_view()[x].values by {
                    assert(kcols@[x]@.values == keys.deep_view()[x].values);
                }
                lemma_key_sorted_values(
                    t@,
                    kcols.deep_view(),
                    keys.deep_view(),
                    descn@,
                    nulls_last,
                    o@,
                );
            }
            o
        },
        Err(_) => {
            proof {
                let pv = idx_view(perm@);
                assert forall|q: int| 0 <= q < perm@.len() implies (#[trigger] perm@[q])
                    < t@.nrows() by {
                    assert(0 <= pv[q] < kt@.nrows());
                }
                assert(false);
            }
            Table { columns: Vec::new() }
        },
    }
}


/// Sorts rows by caller-supplied key columns — the evaluated results
/// of whatever expressions produced them — applied within each group
/// when grouping columns are given. Key columns pair with the rows by
/// position and never join the output; sorting by no keys changes
/// nothing. Directions broadcast as in `df_sort_by`; the sort is
/// always stable and sequential, the order-keeping and threading flags
/// accepted for interface fidelity.
pub fn df_sort_by_key_columns(
    df: Table,
    keys: &Vec<Column>,
    directions: &Vec<bool>,
    maintain_order: bool,
    multithreaded: bool,
    nulls_last: bool,
    groups: &Vec<String>,
) -> (r: Result<Table, ExplorerError>)
    requires
        df@.wf(),
        forall|k: int| 0 <= k < keys@.len() ==> (#[trigger] keys@[k])@.values.len() == df@.nrows(),
    ensures
        !(directions@.len() == keys@.len() || directions@.len() == 1) ==> r is Err && r->Err_0 is InvalidParameters,
        (directions@.len() == keys@.len() || directions@.len() == 1) && groups@.len() == 0 ==> r is Ok,
        (directions@.len() == keys@.len() || directions@.len() == 1) && groups@.len() > 0 ==> (r is Ok
            <==> all_found(df@, groups.deep_view())),
        (directions@.len() == keys@.len() || directions@.len() == 1) && groups@.len() > 0
            && !all_found(df@, groups.deep_view()) ==> r is Err && r->Err_0 is ColumnNotFound,
        keys@.len() == 0 && r is Ok ==> r->Ok_0@ == df@,
        keys@.len() > 0 && groups@.len() == 0 && r is Ok ==> is_key_sorted_of(
            df@,
            keys.deep_view(),
            norm_desc(directions@, keys@.len() as nat),
            nulls_last,
            r->Ok_0@,
        ),
        keys@.len() > 0 && groups@.len() > 0 && r is Ok ==> exists|gs: Seq<Seq<int>>, parts: Seq<Table>|
            #![auto]
            {
                &&& is_stable_partition(df@, spec_resolve(df@, groups.deep_view()), gs)
                &&& parts.len() == gs.len()
                &&& forall|g: int|
                    0 <= g < gs.len() ==> is_key_sorted_of(
                        spec_take(df@, gs[g]),
                        spec_take(key_table(keys.deep_view()), #[trigger] gs[g]).columns,
                        norm_desc(directions@, keys@.len() as nat),
                        nulls_last,
                        parts[g]@,
                    )
                &&& r->Ok_0@ == vconcat_all(parts.map_values(|p: Table| p@))
            },
        r is Err ==> r->Err_0 is InvalidParameters || r->Err_0 is ColumnNotFound,
{
    let ghost dfv = df@;
    let ghost kv = keys.deep_view();
    if !(directions.len() == keys.len() || directions.len() == 1) {
        return Err(ExplorerError::InvalidParameters);
    }
    let nk = keys.len();
    let mut descn: Vec<bool> = Vec::new();
    if directions.len() == nk {
        let mut k: usize = 0;
        while k < directions.len()
            invariant
                k <= directions@.len(),
                descn.len() == k,
                forall|q: int| 0 <= q < k ==> descn@[q] == directions@[q],
            decreases directions@.len() - k,
        {
            descn.push(directions[k]);
            k += 1;
        }
    } else {
        let d = directions[0];
        let mut k: usize = 0;
        while k < nk
            invariant
                k <= keys@.len(),
                nk == keys@.len(),
                d == directions@[0],
                descn.len() == k,
                forall|q: int| 0 <= q < k ==> descn@[q] == directions@[0],
            decreases keys@.len() - k,
        {
            descn.push(d);
            k += 1;
        }
    }
    proof {
        if directions@.len() == keys@.len() && directions@.len() != 1 {
            assert(descn@ =~= norm_desc(directions@, keys@.len() as nat));
        } else {
            assert(descn@ =~= norm_desc(directions@, keys@.len() as nat));
        }
    }
    if groups.len() == 0 {
        if nk == 0 {
            return Ok(df);
        }
        let out = sort_block(&df, keys, &descn, nulls_last);
        return Ok(out);
    }
    let entries = match stable_partition(&df, groups) {
        Ok(p) => p,
        Err(e) => {
            return Err(e);
        },
    };
    if nk == 0 {
        return Ok(df);
    }
    let ghost gsv = rows_of(entries@);
    let ghost mut partsv: Seq<Table> = Seq::empty();
    let mut acc: Option<Table> = None;
    let m = entries.len();
    let mut g: usize = 0;
    while g < m
        invariant
            df@.wf(),
            dfv == df@,
            kv == keys.deep_view(),
            nk == keys@.len(),
            nk > 0,
            descn@.len() == nk,
            forall|k: int| 0 <= k < keys@.len() ==> (#[trigger] keys@[k])@.values.len() == df@.nrows(),
            m == entries.len(),
            gsv == rows_of(entries@),
            is_stable_partition(dfv, spec_resolve(dfv, groups.deep_view()), gsv),
            g <= m,
            partsv.len() == g,
            forall|h: int|
                0 <= h < g ==> is_key_sorted_of(
                    spec_take(dfv, gsv[h]),
                    spec_take(key_table(kv), #[trigger] gsv[h]).columns,
                    descn@,
                    nulls_last,
                    partsv[h]@,
                ),
            forall|h: int| 0 <= h < g ==> (#[trigger] partsv[h])@.wf() && partsv[h]@.names()
                == dfv.names(),
            g == 0 ==> acc is None,
            g > 0 ==> acc is Some && acc->0@.wf() && acc->0@ == vconcat_all(
                partsv.map_values(|p: Table| p@),
            ) && acc->0@.names() == dfv.names(),
        decreases m - g,
    {
        proof {
            assert(gsv[g as int] == idx_view(entries@[g as int].rows@));
            assert forall|q: int|
                0 <= q < entries@[g as int].rows@.len() implies (#[trigger] entries@[g as int].rows@[q])
                < dfv.nrows() by {
                assert(gsv[g as int][q] < dfv.nrows());
            }
        }
        let sub = match df_take(&df, &entries[g].rows) {
            Ok(s) => s,
            Err(_) => {
                proof {
                    assert(false);
                }
                return Err(ExplorerError::InvalidParameters);
            },
        };
        let mut skeys: Vec<Column> = Vec::new();
        let mut i: usize = 0;
        while i < nk
            invariant
                nk == keys@.len(),
                kv == keys.deep_view(),
                forall|k: int| 0 <= k < keys@.len() ==> (#[trigger] keys@[k])@.values.len()
                    == dfv.nrows(),
                g < m == entries.len(),
                gsv == rows_of(entries@),
                gsv[g as int] == idx_view(entries@[g as int].rows@),
                forall|q: int|
                    0 <= q < entries@[g as int].rows@.len() ==> (#[trigger] entries@[g as int].rows@[q])
                        < dfv.nrows(),
                i <= nk,
                skeys.len() == i,
                forall|x: int| 0 <= x < i ==> (#[trigger] skeys@[x])@.values == spec_take(
                    key_table(kv),
                    gsv[g as int],
                ).columns[x].values,
            decreases nk - i,
        {
            proof {
                assert(keys@[i as int]@.values.len() == dfv.nrows());
                assert(keys@[i as int]@.values == kv[i as int].values);
            }
            let vals = take_values(&keys[i].values, &entries[g].rows);
            skeys.push(Column { name: String::new(), values: vals });
            proof {
                assert(skeys@[i as int]@.values =~= spec_take(key_table(kv), gsv[g as int]).columns[
                    i as int].values);
            }
            i += 1;
        }
        proof {
            assert forall|x: int| 0 <= x < nk implies (#[trigger] skeys@[x])@.values.len()
                == sub@.nrows() by {
                assert(skeys@[x]@.values == spec_take(key_table(kv), gsv[g as int]).columns[x].values);
            }
        }
        let sorted = sort_block(&sub, &skeys, &descn, nulls_last);
        proof {
            assert forall|x: int|
                0 <= x < skeys.deep_view().len() implies (#[trigger] skeys.deep_view()[x]).values
                == spec_take(key_table(kv), gsv[g as int]).columns[x].values by {
                assert(skeys@[x]@.values == spec_take(key_table(kv), gsv[g as int]).columns[x].values);
            }
            lemma_key_sorted_values(
                sub@,
                skeys.deep_view(),
                spec_take(key_table(kv), gsv[g as int]).columns,
                descn@,
                nulls_last,
                sorted@,
            );
            assert(is_key_sorted_of(
                spec_take(dfv, gsv[g as int]),
                spec_take(key_table(kv), gsv[g as int]).columns,
                descn@,
                nulls_last,
                sorted@,
            ));
        }
        let ghost sortedg = sorted;
        let ghost partsv_pre = partsv;
        proof {
            partsv = partsv.push(sortedg);
        }
        match acc {
            None => {
                proof {
                    assert(partsv.map_values(|p: Table| p@) =~= seq![sortedg@]);
                    assert(vconcat_all(partsv.map_values(|p: Table| p@)) == sortedg@);
                }
                acc = Some(sorted);
            },
            Some(a) => {
                let joined = match concat_rows(&a, &sorted) {
                    Ok(j) => j,
                    Err(_) => {
                        proof {
                            assert(a@.names() == dfv.names());
                            assert(sorted@.names() == dfv.names());
                            assert(false);
                        }
                        return Err(ExplorerError::InvalidParameters);
                    },
                };
                proof {
                    let mapped = partsv.map_values(|p: Table| p@);
                    let prevm = partsv_pre.map_values(|p: Table| p@);
                    assert(mapped.drop_last() =~= prevm);
                    assert(mapped.last() == sortedg@);
                    assert(a@ == vconcat_all(prevm));
                    assert(joined@ == spec_vstack(a@, sortedg@));
                    assert(vconcat_all(mapped) == spec_vstack(
                        vconcat_all(mapped.drop_last()),
                        mapped.last(),
                    ));
                }
                acc = Some(joined);
            },
        }
        g += 1;
    }
    let result = match acc {
        Some(a) => a,
        None => Table { columns: Vec::new() },
    };
    proof {
        if m == 0 {
            assert(partsv.map_values(|p: Table| p@) =~= Seq::<TableModel>::empty());
            assert(result@.columns =~= Seq::<ColumnModel>::empty());
        }
        assert(result@ == vconcat_all(partsv.map_values(|p: Table| p@)));
        assert(exists|gs2: Seq<Seq<int>>, parts2: Seq<Table>|
            #![auto]
            {
                &&& is_stable_partition(df@, spec_resolve(df@, groups.deep_view()), gs2)
                &&& parts2.len() == gs2.len()
                &&& forall|g2: int|
                    0 <= g2 < gs2.len() ==> is_key_sorted_of(
                        spec_take(df@, gs2[g2]),
                        spec_take(key_table(keys.deep_view()), #[trigger] gs2[g2]).columns,
                        norm_desc(directions@, keys@.len() as nat),
                        nulls_last,
                        parts2[g2]@,
                    )
                &&& result@ == vconcat_all(parts2.map_values(|p: Table| p@))
            }) by {
            assert(is_stable_partition(df@, spec_resolve(df@, groups.deep_view()), gsv));
            assert forall|g2: int| 0 <= g2 < gsv.len() implies is_key_sorted_of(
                spec_take(df@, gsv[g2]),
                spec_take(key_table(keys.deep_view()), #[trigger] gsv[g2]).columns,
                norm_desc(directions@, keys@.len() as nat),
                nulls_last,
                partsv[g2]@,
            ) by {
                assert(is_key_sorted_of(
                    spec_take(dfv, gsv[g2]),
                    spec_take(key_table(kv), gsv[g2]).columns,
                    descn@,
                    nulls_last,
                    partsv[g2]@,
                ));
            }
        };
    }
    Ok(result)
}

} // verus!
