use vstd::prelude::*;

use crate::error::ExplorerError;
use crate::table::{dup_column, dup_table, find_column, spec_take, Column, ColumnModel, Table, TableModel};
use vstd::pervasive::VecAdditionalExecFns;
use crate::value::{dup_values, Value, ValueModel};

verus! {

/// A sequence of positions as mathematical integers.
pub open spec fn idx_view(s: Seq<usize>) -> Seq<int> {
    s.map_values(|u: usize| u as int)
}

/// The cells of `vals` at `indices`, in that order.
pub(crate) fn take_values(vals: &Vec<Value>, indices: &Vec<usize>) -> (r: Vec<Value>)
    requires
        forall|k: int| 0 <= k < indices@.len() ==> (#[trigger] indices@[k]) < vals@.len(),
    ensures
        r.deep_view() == idx_view(indices@).map_values(|k: int| vals.deep_view()[k]),
{
    let mut out: Vec<Value> = Vec::new();
    let n = indices.len();
    let mut i: usize = 0;
    while i < n
        invariant
            n == indices.len(),
            i <= n,
            out.len() == i,
            forall|k: int| 0 <= k < indices@.len() ==> (#[trigger] indices@[k]) < vals@.len(),
            forall|k: int| 0 <= k < i ==> out@[k]@ == vals@[indices@[k] as int]@,
        decreases n - i,
    {
        out.push(vals[indices[i]].dup());
        i += 1;
    }
    proof {
        let target = idx_view(indices@).map_values(|k: int| vals.deep_view()[k]);
        assert forall|k: int| 0 <= k < n implies out.deep_view()[k] == target[k] by {
            assert(out@[k]@ == vals@[indices@[k] as int]@);
        }
        assert(out.deep_view() =~= target);
    }
    out
}

/// The table of the rows at `indices`, in that order; out-of-bounds
/// positions are the only failure.
pub fn df_take(t: &Table, indices: &Vec<usize>) -> (r: Result<Table, ExplorerError>)
    requires
        t@.wf(),
    ensures
        r is Ok <==> (forall|k: int| 0 <= k < indices@.len() ==> (#[trigger] indices@[k]) < t@.nrows()),
        r is Ok ==> r->Ok_0@ == spec_take(t@, idx_view(indices@)) && r->Ok_0@.wf()
            && r->Ok_0@.nrows() == indices@.len() && r->Ok_0@.names() == t@.names(),
        r is Err ==> r->Err_0 is IndexOutOfBounds,
{
    let height = crate::table::df_n_rows(t);
    let n = indices.len();
    let mut i: usize = 0;
    while i < n
        invariant
            n == indices.len(),
            height == t@.nrows(),
            i <= n,
            forall|k: int| 0 <= k < i ==> (#[trigger] indices@[k]) < t@.nrows(),
        decreases n - i,
    {
        if indices[i] >= height {
            return Err(ExplorerError::IndexOutOfBounds);
        }
        i += 1;
    }
    let ghost target = spec_take(t@, idx_view(indices@));
    let mut cols: Vec<Column> = Vec::new();
    let w = t.columns.len();
    let mut j: usize = 0;
    while j < w
        invariant
            w == t.columns.len(),
            t@.wf(),
            j <= w,
            cols.len() == j,
            forall|k: int| 0 <= k < indices@.len() ==> (#[trigger] indices@[k]) < t@.nrows(),
            target == spec_take(t@, idx_view(indices@)),
            forall|k: int| 0 <= k < j ==> cols@[k]@ == target.columns[k],
        decreases w - j,
    {
        proof {
            assert(t@.columns[j as int].values.len() == t@.nrows());
            assert(t@.columns[j as int] == t.columns@[j as int]@);
        }
        let name = t.columns[j].name.clone();
        let values = take_values(&t.columns[j].values, indices);
        cols.push(Column { name, values });
        j += 1;
    }
    let out = Table { columns: cols };
    proof {
        assert(out@.columns =~= target.columns);
        assert forall|a: int| 0 <= a < out@.columns.len() implies (#[trigger] out@.columns[a].values).len()
            == indices@.len() by {
            assert(target.columns[a].values.len() == idx_view(indices@).len());
        }
        assert forall|a: int, b: int|
            0 <= a < b < out@.columns.len() implies out@.columns[a].name != out@.columns[b].name by {
            assert(out@.columns[a].name == t@.columns[a].name);
            assert(out@.columns[b].name == t@.columns[b].name);
        }
        assert(out@.names() =~= t@.names());
        if t@.columns.len() == 0 && indices@.len() > 0 {
            assert(indices@[0] < t@.nrows());
            assert(false);
        }
    }
    Ok(out)
}

/// Where a slice of `length` rows at signed `offset` begins: a negative
/// offset counts back from the end; the result is clamped to the table.
pub open spec fn slice_start(n: int, offset: int) -> int {
    if offset >= 0 {
        if offset < n {
            offset
        } else {
            n
        }
    } else {
        if n + offset > 0 {
            n + offset
        } else {
            0
        }
    }
}

/// How many rows such a slice holds.
pub open spec fn slice_len(n: int, offset: int, length: int) -> int {
    if length < n - slice_start(n, offset) {
        length
    } else {
        n - slice_start(n, offset)
    }
}

/// The contiguous row window at `offset` of up to `length` rows, applied
/// to the whole table; never fails, the window is clamped.
pub fn slice_rows(t: &Table, offset: i64, length: usize) -> (r: Table)
    requires
        t@.wf(),
    ensures
        r@ == spec_take(
            t@,
            Seq::new(
                slice_len(t@.nrows() as int, offset as int, length as int) as nat,
                |i: int| slice_start(t@.nrows() as int, offset as int) + i,
            ),
        ),
        r@.wf(),
        r@.nrows() == slice_len(t@.nrows() as int, offset as int, length as int),
        r@.names() == t@.names(),
{
    let height = crate::table::df_n_rows(t);
    let start_i: i128 = if offset >= 0 {
        if (offset as i128) < (height as i128) {
            offset as i128
        } else {
            height as i128
        }
    } else {
        if (height as i128) + (offset as i128) > 0 {
            (height as i128) + (offset as i128)
        } else {
            0
        }
    };
    let start: usize = start_i as usize;
    let len: usize = if (length as i128) < (height as i128) - start_i {
        length
    } else {
        (height as i128 - start_i) as usize
    };
    let mut indices: Vec<usize> = Vec::new();
    let mut i: usize = 0;
    while i < len
        invariant
            start + len <= height,
            i <= len,
            indices.len() == i,
            forall|k: int| 0 <= k < i ==> indices@[k] == start + k,
        decreases len - i,
    {
        indices.push(start + i);
        i += 1;
    }
    proof {
        assert(idx_view(indices@) =~= Seq::new(
            slice_len(t@.nrows() as int, offset as int, length as int) as nat,
            |i: int| slice_start(t@.nrows() as int, offset as int) + i,
        ));
    }
    match df_take(t, &indices) {
        Ok(out) => out,
        Err(_) => {
            proof {
                assert(false);
            }
            Table { columns: Vec::new() }
        },
    }
}

/// The table without the column named `name`; an absent name is the only
/// failure.
pub fn df_drop(t: &Table, name: &String) -> (r: Result<Table, ExplorerError>)
    requires
        t@.wf(),
    ensures
        r is Ok <==> t@.find_col(name@) >= 0,
        r is Ok ==> r->Ok_0@.columns == t@.columns.remove(t@.find_col(name@)) && r->Ok_0@.wf(),
        r is Err ==> r->Err_0 is ColumnNotFound,
{
    let j = match find_column(t, name) {
        Some(j) => j,
        None => {
            return Err(ExplorerError::ColumnNotFound(name.clone()));
        },
    };
    let ghost target = t@.columns.remove(j as int);
    let mut cols: Vec<Column> = Vec::new();
    let w = t.columns.len();
    let mut i: usize = 0;
    while i < w
        invariant
            w == t.columns.len(),
            j < w,
            target == t@.columns.remove(j as int),
            i <= w,
            cols.len() == (if i <= j { i as int } else { i - 1 }),
            forall|k: int| 0 <= k < cols.len() ==> cols@[k]@ == target[k],
        decreases w - i,
    {
        if i != j {
            cols.push(dup_column(&t.columns[i]));
            proof {
                if i < j {
                    assert(target[i as int] == t@.columns[i as int]);
                } else {
                    assert(target[i - 1] == t@.columns[i as int]);
                }
            }
        }
        i += 1;
    }
    let out = Table { columns: cols };
    proof {
        assert(out@.columns =~= target);
        assert forall|a: int, b: int|
            0 <= a < b < out@.columns.len() implies out@.columns[a].name != out@.columns[b].name by {
            let sa: int = if a < j { a } else { a + 1 };
            let sb: int = if b < j { b } else { b + 1 };
            assert(out@.columns[a] == t@.columns[sa]);
            assert(out@.columns[b] == t@.columns[sb]);
        }
        if out@.columns.len() > 0 {
            assert forall|a: int| 0 <= a < out@.columns.len() implies (#[trigger] out@.columns[a].values).len()
                == out@.nrows() by {
                let sa: int = if a < j { a } else { a + 1 };
                let s0: int = if 0 < j { 0 } else { 1 };
                assert(out@.columns[a] == t@.columns[sa]);
                assert(out@.columns[0] == t@.columns[s0]);
            }
        }
    }
    Ok(out)
}

/// Adds `col` to the table: replaces the column of the same name, else
/// appends. The column must match the table's row count unless the table
/// has no columns yet.
pub fn df_put_column(t: &Table, col: Column) -> (r: Result<Table, ExplorerError>)
    requires
        t@.wf(),
    ensures
        r is Ok <==> (t@.columns.len() == 0 || col@.values.len() == t@.nrows()),
        r is Err ==> r->Err_0 is LengthMismatch,
        r is Ok ==> r->Ok_0@.wf() && r->Ok_0@.columns == (if t@.find_col(col@.name) >= 0 {
            t@.columns.update(t@.find_col(col@.name), col@)
        } else {
            t@.columns.push(col@)
        }),
{
    if t.columns.len() != 0 && col.values.len() != crate::table::df_n_rows(t) {
        return Err(ExplorerError::LengthMismatch);
    }
    let ghost cv = col@;
    let found = find_column(t, &col.name);
    let mut out = dup_table(t);
    match found {
        Some(j) => {
            out.columns.set(j, col);
            proof {
                assert(out@.columns =~= t@.columns.update(t@.find_col(cv.name), cv));
                assert forall|a: int, b: int|
                    0 <= a < b < out@.columns.len() implies out@.columns[a].name
                    != out@.columns[b].name by {
                    assert(t@.columns[a].name != t@.columns[b].name);
                    if a != j && b != j {
                        assert(out@.columns[a] == t@.columns[a]);
                    }
                }
                assert forall|a: int| 0 <= a < out@.columns.len() implies (#[trigger] out@.columns[a].values).len()
                    == out@.nrows() by {
                    assert(t@.columns[a].values.len() == t@.nrows());
                }
            }
            Ok(out)
        },
        None => {
            out.columns.push(col);
            proof {
                assert(out@.columns =~= t@.columns.push(cv));
                assert forall|a: int| 0 <= a < out@.columns.len() implies (#[trigger] out@.columns[a].values).len()
                    == out@.nrows() by {
                    if a < t@.columns.len() {
                        assert(t@.columns[a].values.len() == t@.nrows());
                    }
                }
            }
            Ok(out)
        },
    }
}

/// Whether every cell of a mask is a boolean or missing.
pub open spec fn is_bool_mask(s: Seq<ValueModel>) -> bool {
    forall|k: int| 0 <= k < s.len() ==> ((#[trigger] s[k]) is Bool || s[k] is Null)
}

/// The positions whose mask cell is exactly `true`, in row order.
pub open spec fn true_indices(s: Seq<ValueModel>) -> Seq<int>
    decreases s.len(),
{
    if s.len() == 0 {
        Seq::empty()
    } else {
        let rest = true_indices(s.drop_last());
        if s.last() == ValueModel::Bool(true) {
            rest.push(s.len() - 1)
        } else {
            rest
        }
    }
}

/// Every position named by `true_indices` lies inside the mask.
proof fn lemma_true_indices_bounds(s: Seq<ValueModel>)
    ensures
        forall|k: int| 0 <= k < true_indices(s).len() ==> 0 <= #[trigger] true_indices(s)[k] < s.len(),
    decreases s.len(),
{
    if s.len() > 0 {
        lemma_true_indices_bounds(s.drop_last());
        let rest = true_indices(s.drop_last());
        assert forall|k: int| 0 <= k < true_indices(s).len() implies 0 <= #[trigger] true_indices(s)[k]
            < s.len() by {
            if s.last() == ValueModel::Bool(true) {
                assert(true_indices(s) == rest.push(s.len() - 1));
                if k < rest.len() {
                    assert(true_indices(s)[k] == rest[k]);
                }
            } else {
                assert(true_indices(s) == rest);
            }
        }
    }
}

/// The rows whose mask cell is `true`, in row order. A cell that is
/// neither boolean nor missing refuses the mask; a missing cell drops its
/// row. The mask must have the table's row count.
pub fn df_mask(t: &Table, mask: &Column) -> (r: Result<Table, ExplorerError>)
    requires
        t@.wf(),
    ensures
        r is Ok <==> (is_bool_mask(mask@.values) && mask@.values.len() == t@.nrows()),
        r is Ok ==> r->Ok_0@ == spec_take(t@, true_indices(mask@.values)) && r->Ok_0@.wf(),
        r is Err ==> r->Err_0 is NotABooleanMask || r->Err_0 is LengthMismatch,
        r is Err && is_bool_mask(mask@.values) ==> r->Err_0 is LengthMismatch,
        r is Err && !is_bool_mask(mask@.values) ==> r->Err_0 is NotABooleanMask,
{
    let n = mask.values.len();
    let mut i: usize = 0;
    while i < n
        invariant
            n == mask.values.len(),
            i <= n,
            forall|k: int| 0 <= k < i ==> ((#[trigger] mask@.values[k]) is Bool || mask@.values[k] is Null),
        decreases n - i,
    {
        match &mask.values[i] {
            Value::Bool(_) => {},
            Value::Null => {},
            _ => {
                proof {
                    let v = mask.values@[i as int];
                    assert(mask@.values[i as int] == v@);
                    if v is Int {
                    } else if v is UInt {
                    } else if v is Str {
                    } else {
                        assert(v is Float);
                    }
                    assert(!(mask@.values[i as int] is Bool) && !(mask@.values[i as int] is Null));
                    assert(!is_bool_mask(mask@.values));
                }
                return Err(ExplorerError::NotABooleanMask);
            },
        }
        i += 1;
    }
    if n != crate::table::df_n_rows(t) {
        return Err(ExplorerError::LengthMismatch);
    }
    let mut indices: Vec<usize> = Vec::new();
    let mut i: usize = 0;
    while i < n
        invariant
            n == mask.values.len(),
            i <= n,
            idx_view(indices@) == true_indices(mask@.values.take(i as int)),
            forall|k: int| 0 <= k < indices@.len() ==> (#[trigger] indices@[k]) < n,
        decreases n - i,
    {
        let ghost pre = mask@.values.take(i as int);
        let is_true = match &mask.values[i] {
            Value::Bool(b) => *b,
            _ => false,
        };
        if is_true {
            indices.push(i);
        }
        proof {
            let cur = mask@.values.take(i + 1);
            assert(cur.drop_last() =~= pre);
            assert(cur.last() == mask@.values[i as int]);
            if is_true {
                assert(idx_view(indices@) =~= true_indices(cur));
            } else {
                assert(idx_view(indices@) =~= true_indices(cur));
            }
        }
        i += 1;
    }
    proof {
        assert(mask@.values.take(n as int) =~= mask@.values);
        lemma_true_indices_bounds(mask@.values);
    }
    match df_take(t, &indices) {
        Ok(out) => Ok(out),
        Err(_) => {
            proof {
                assert(false);
            }
            Err(ExplorerError::IndexOutOfBounds)
        },
    }
}


/// The table of `a`'s columns, each extended with `b`'s cells for the
/// column of the same position.
pub open spec fn spec_vstack(a: TableModel, b: TableModel) -> TableModel {
    TableModel {
        columns: Seq::new(
            a.columns.len(),
            |j: int| ColumnModel { name: a.columns[j].name, values: a.columns[j].values + b.columns[j].values },
        ),
    }
}

/// Appends copies of `src`'s cells to `dst`.
fn append_values(dst: &mut Vec<Value>, src: &Vec<Value>)
    ensures
        final(dst).deep_view() == old(dst).deep_view() + src.deep_view(),
{
    let ghost base = old(dst)@;
    let n = src.len();
    let mut i: usize = 0;
    while i < n
        invariant
            n == src.len(),
            i <= n,
            dst@.len() == base.len() + i,
            forall|k: int| 0 <= k < base.len() ==> dst@[k] == base[k],
            forall|k: int| 0 <= k < i ==> dst@[base.len() + k]@ == src@[k]@,
        decreases n - i,
    {
        dst.push(src[i].dup());
        i += 1;
    }
    proof {
        assert forall|k: int| 0 <= k < dst@.len() implies dst.deep_view()[k] == (old(
            dst,
        ).deep_view() + src.deep_view())[k] by {
            if k < base.len() {
                assert(dst@[k] == base[k]);
            } else {
                assert(dst@[k]@ == src@[k - base.len()]@);
            }
        }
        assert(dst.deep_view() =~= old(dst).deep_view() + src.deep_view());
    }
}

/// Stacks `b`'s rows under `a`'s. The two tables must carry the same
/// column names in the same order; any other schema is refused.
pub fn concat_rows(a: &Table, b: &Table) -> (r: Result<Table, ExplorerError>)
    requires
        a@.wf(),
        b@.wf(),
    ensures
        r is Ok <==> a@.names() == b@.names(),
        r is Ok ==> r->Ok_0@ == spec_vstack(a@, b@) && r->Ok_0@.wf() && r->Ok_0@.nrows()
            == a@.nrows() + b@.nrows(),
        r is Err ==> r->Err_0 is SchemaMismatch,
{
    let w = a.columns.len();
    if w != b.columns.len() {
        proof {
            assert(a@.names().len() != b@.names().len());
        }
        return Err(ExplorerError::SchemaMismatch);
    }
    let mut j: usize = 0;
    while j < w
        invariant
            w == a.columns.len() == b.columns.len(),
            j <= w,
            forall|k: int| 0 <= k < j ==> a@.names()[k] == b@.names()[k],
        decreases w - j,
    {
        if !a.columns[j].name.eq(&b.columns[j].name) {
            proof {
                assert(a@.names()[j as int] != b@.names()[j as int]);
            }
            return Err(ExplorerError::SchemaMismatch);
        }
        j += 1;
    }
    proof {
        assert(a@.names() =~= b@.names());
    }
    let ghost target = spec_vstack(a@, b@);
    let mut cols: Vec<Column> = Vec::new();
    let mut j: usize = 0;
    while j < w
        invariant
            w == a.columns.len() == b.columns.len(),
            a@.wf(),
            b@.wf(),
            target == spec_vstack(a@, b@),
            j <= w,
            cols.len() == j,
            forall|k: int| 0 <= k < j ==> cols@[k]@ == target.columns[k],
        decreases w - j,
    {
        let name = a.columns[j].name.clone();
        let mut values = dup_values(&a.columns[j].values);
        append_values(&mut values, &b.columns[j].values);
        cols.push(Column { name, values });
        j += 1;
    }
    let out = Table { columns: cols };
    proof {
        assert(out@.columns =~= target.columns);
        assert forall|x: int| 0 <= x < out@.columns.len() implies (#[trigger] out@.columns[x].values).len()
            == a@.nrows() + b@.nrows() by {
            assert(a@.columns[x].values.len() == a@.nrows());
            assert(b@.columns[x].values.len() == b@.nrows());
        }
        assert forall|x: int, y: int|
            0 <= x < y < out@.columns.len() implies out@.columns[x].name != out@.columns[y].name by {
            assert(out@.columns[x].name == a@.columns[x].name);
            assert(out@.columns[y].name == a@.columns[y].name);
        }
    }
    Ok(out)
}

} // verus!
