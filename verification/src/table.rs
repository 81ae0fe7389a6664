use vstd::prelude::*;

use crate::error::ExplorerError;
use crate::value::{dup_values, Value, ValueModel};

verus! {

/// A named column: one name, one cell per row.
pub struct Column {
    pub name: String,
    pub values: Vec<Value>,
}

/// The mathematical shape of a column.
pub ghost struct ColumnModel {
    pub name: Seq<char>,
    pub values: Seq<ValueModel>,
}

impl View for Column {
    type V = ColumnModel;

    open spec fn view(&self) -> ColumnModel {
        ColumnModel { name: self.name@, values: self.values.deep_view() }
    }
}

impl DeepView for Column {
    type V = ColumnModel;

    open spec fn deep_view(&self) -> ColumnModel {
        self.view()
    }
}

/// An ordered sequence of named, equal-length columns.
pub struct Table {
    pub columns: Vec<Column>,
}

/// The mathematical shape of a table.
pub ghost struct TableModel {
    pub columns: Seq<ColumnModel>,
}

impl View for Table {
    type V = TableModel;

    open spec fn view(&self) -> TableModel {
        TableModel { columns: self.columns.deep_view() }
    }
}

impl DeepView for Table {
    type V = TableModel;

    open spec fn deep_view(&self) -> TableModel {
        self.view()
    }
}

/// The first position of `name` among `cols`, or -1 when absent.
pub open spec fn find_col_in(cols: Seq<ColumnModel>, name: Seq<char>) -> int
    decreases cols.len(),
{
    if cols.len() == 0 {
        -1
    } else if cols[0].name == name {
        0
    } else {
        let r = find_col_in(cols.drop_first(), name);
        if r < 0 {
            -1
        } else {
            r + 1
        }
    }
}

/// What `find_col_in` answers: a valid position bearing the name, with no
/// earlier column bearing it, or -1 when no column bears it.
pub proof fn lemma_find_col_in(cols: Seq<ColumnModel>, name: Seq<char>)
    ensures
        find_col_in(cols, name) >= 0 ==> {
            &&& find_col_in(cols, name) < cols.len()
            &&& cols[find_col_in(cols, name)].name == name
            &&& forall|k: int| 0 <= k < find_col_in(cols, name) ==> cols[k].name != name
        },
        find_col_in(cols, name) < 0 ==> forall|k: int| 0 <= k < cols.len() ==> cols[k].name != name,
    decreases cols.len(),
{
    if cols.len() > 0 && cols[0].name != name {
        let sub = cols.drop_first();
        lemma_find_col_in(sub, name);
        let r = find_col_in(sub, name);
        if r >= 0 {
            assert(cols[r + 1] == sub[r]);
            assert forall|k: int| 0 <= k < r + 1 implies cols[k].name != name by {
                if k > 0 {
                    assert(cols[k] == sub[k - 1]);
                }
            }
        } else {
            assert forall|k: int| 0 <= k < cols.len() implies cols[k].name != name by {
                if k > 0 {
                    assert(cols[k] == sub[k - 1]);
                }
            }
        }
    }
}

impl TableModel {
    /// The row count: the length of the first column, or zero for a table
    /// of no columns.
    pub open spec fn nrows(self) -> nat {
        if self.columns.len() == 0 {
            0
        } else {
            self.columns[0].values.len()
        }
    }

    /// The column names in order.
    pub open spec fn names(self) -> Seq<Seq<char>> {
        self.columns.map_values(|c: ColumnModel| c.name)
    }

    /// Well-formedness: column names are unique and every column has the
    /// table's row count.
    pub open spec fn wf(self) -> bool {
        &&& forall|i: int, j: int|
            0 <= i < j < self.columns.len() ==> self.columns[i].name != self.columns[j].name
        &&& forall|i: int|
            0 <= i < self.columns.len() ==> (#[trigger] self.columns[i].values).len() == self.nrows()
    }

    /// The first position of `name`, or -1 when absent.
    pub open spec fn find_col(self, name: Seq<char>) -> int {
        find_col_in(self.columns, name)
    }

    /// Row `i` as the tuple of its cells, column order.
    pub open spec fn row(self, i: int) -> Seq<ValueModel> {
        self.columns.map_values(|c: ColumnModel| c.values[i])
    }
}

/// The table whose columns each keep their name and hold the cells at
/// `idx`, in that order.
pub open spec fn spec_take(t: TableModel, idx: Seq<int>) -> TableModel {
    TableModel {
        columns: t.columns.map_values(
            |c: ColumnModel| ColumnModel { name: c.name, values: idx.map_values(|k: int| c.values[k]) },
        ),
    }
}

/// Whether `cols` may form a table: unique names, equal lengths.
pub open spec fn cols_ok(cols: Seq<ColumnModel>) -> bool {
    &&& forall|i: int, j: int| 0 <= i < j < cols.len() ==> cols[i].name != cols[j].name
    &&& forall|i: int, j: int|
        0 <= i < cols.len() && 0 <= j < cols.len() ==> (#[trigger] cols[i].values).len() == (
        #[trigger] cols[j].values).len()
}

/// A copy of a column with the same model.
pub fn dup_column(c: &Column) -> (r: Column)
    ensures
        r@ == c@,
{
    Column { name: c.name.clone(), values: dup_values(&c.values) }
}

/// A copy of a table with the same model.
pub fn dup_table(t: &Table) -> (r: Table)
    ensures
        r@ == t@,
{
    let mut cols: Vec<Column> = Vec::new();
    let n = t.columns.len();
    let mut i: usize = 0;
    while i < n
        invariant
            n == t.columns.len(),
            i <= n,
            cols.len() == i,
            forall|k: int| 0 <= k < i ==> cols@[k]@ == t.columns@[k]@,
        decreases n - i,
    {
        cols.push(dup_column(&t.columns[i]));
        i += 1;
    }
    proof {
        assert forall|k: int| 0 <= k < n implies cols.deep_view()[k] == t.columns.deep_view()[k] by {
            assert(cols@[k]@ == t.columns@[k]@);
        }
        assert(cols.deep_view() =~= t.columns.deep_view());
    }
    Table { columns: cols }
}

/// Builds a table from columns, refusing duplicate names and unequal
/// lengths.
pub fn df_from_series(columns: Vec<Column>) -> (r: Result<Table, ExplorerError>)
    ensures
        r is Ok <==> cols_ok(columns.deep_view()),
        r is Ok ==> r->Ok_0@.columns == columns.deep_view() && r->Ok_0@.wf(),
        r is Err ==> (r->Err_0 is DuplicateColumnName || r->Err_0 is LengthMismatch),
{
    let n = columns.len();
    let mut i: usize = 0;
    while i < n
        invariant
            n == columns.len(),
            i <= n,
            forall|a: int, b: int| 0 <= a < b < i ==> columns.deep_view()[a].name != columns.deep_view()[b].name,
        decreases n - i,
    {
        let mut j: usize = 0;
        while j < i
            invariant
                i < n == columns.len(),
                j <= i,
                forall|b: int| 0 <= b < j ==> columns.deep_view()[b].name != columns.deep_view()[i as int].name,
            decreases i - j,
        {
            if columns[j].name.eq(&columns[i].name) {
                proof {
                    assert(columns.deep_view()[j as int].name == columns.deep_view()[i as int].name);
                    assert(!cols_ok(columns.deep_view()));
                }
                return Err(ExplorerError::DuplicateColumnName(columns[i].name.clone()));
            }
            j += 1;
        }
        i += 1;
    }
    let mut i: usize = 0;
    while i < n
        invariant
            n == columns.len(),
            i <= n,
            forall|a: int| 0 <= a < i ==> (#[trigger] columns.deep_view()[a].values).len()
                == columns.deep_view()[0].values.len(),
        decreases n - i,
    {
        if columns[i].values.len() != columns[0].values.len() {
            proof {
                assert(columns.deep_view()[i as int].values.len() == columns@[i as int].values@.len());
                assert(columns.deep_view()[0].values.len() == columns@[0].values@.len());
                assert(!cols_ok(columns.deep_view()));
            }
            return Err(ExplorerError::LengthMismatch);
        }
        proof {
            assert(columns.deep_view()[i as int].values.len() == columns@[i as int].values@.len());
            assert(columns.deep_view()[0].values.len() == columns@[0].values@.len());
        }
        i += 1;
    }
    let t = Table { columns };
    proof {
        assert(forall|a: int, b: int|
            0 <= a < t@.columns.len() && 0 <= b < t@.columns.len() ==> (#[trigger] t@.columns[a].values).len() == (
            #[trigger] t@.columns[b].values).len());
    }
    Ok(t)
}

/// The column names, in order.
pub fn df_names(t: &Table) -> (r: Vec<String>)
    ensures
        r.deep_view() == t@.names(),
{
    let mut out: Vec<String> = Vec::new();
    let n = t.columns.len();
    let mut i: usize = 0;
    while i < n
        invariant
            n == t.columns.len(),
            i <= n,
            out.len() == i,
            forall|k: int| 0 <= k < i ==> out@[k]@ == t.columns@[k].name@,
        decreases n - i,
    {
        out.push(t.columns[i].name.clone());
        i += 1;
    }
    proof {
        assert forall|k: int| 0 <= k < n implies out.deep_view()[k] == t@.names()[k] by {
            assert(out@[k]@ == t.columns@[k].name@);
            assert(t@.names()[k] == t.columns.deep_view()[k].name);
        }
        assert(out.deep_view() =~= t@.names());
    }
    out
}

/// The row count.
pub fn df_n_rows(t: &Table) -> (r: usize)
    ensures
        r == t@.nrows(),
{
    if t.columns.len() == 0 {
        0
    } else {
        t.columns[0].values.len()
    }
}

/// The column count.
pub fn df_width(t: &Table) -> (r: usize)
    ensures
        r == t@.columns.len(),
{
    t.columns.len()
}

/// Row count and column count, in that order.
pub fn df_shape(t: &Table) -> (r: (usize, usize))
    ensures
        r.0 == t@.nrows(),
        r.1 == t@.columns.len(),
{
    (df_n_rows(t), df_width(t))
}

/// The first position of a column named `name`, when one exists.
pub fn find_column(t: &Table, name: &String) -> (r: Option<usize>)
    ensures
        match r {
            Some(j) => j == t@.find_col(name@) && j < t@.columns.len() && t@.columns[j as int].name
                == name@,
            None => t@.find_col(name@) < 0 && forall|k: int|
                0 <= k < t@.columns.len() ==> t@.columns[k].name != name@,
        },
{
    proof {
        lemma_find_col_in(t@.columns, name@);
    }
    let n = t.columns.len();
    let mut i: usize = 0;
    while i < n
        invariant
            n == t.columns.len(),
            i <= n,
            forall|k: int| 0 <= k < i ==> t@.columns[k].name != name@,
        decreases n - i,
    {
        if t.columns[i].name.eq(name) {
            proof {
                lemma_find_col_in_prefix(t@.columns, name@, i as int);
            }
            return Some(i);
        }
        i += 1;
    }
    None
}

/// `find_col_in` returns `i` when `i` bears the name and no earlier
/// position does.
proof fn lemma_find_col_in_prefix(cols: Seq<ColumnModel>, name: Seq<char>, i: int)
    requires
        0 <= i < cols.len(),
        cols[i].name == name,
        forall|k: int| 0 <= k < i ==> cols[k].name != name,
    ensures
        find_col_in(cols, name) == i,
    decreases cols.len(),
{
    if i > 0 {
        let sub = cols.drop_first();
        assert(cols[0].name != name);
        assert(sub[i - 1] == cols[i]);
        assert forall|k: int| 0 <= k < i - 1 implies sub[k].name != name by {
            assert(sub[k] == cols[k + 1]);
        }
        lemma_find_col_in_prefix(sub, name, i - 1);
    }
}

/// A copy of the column named `name`; absent names are the only failure.
pub fn df_pull(t: &Table, name: &String) -> (r: Result<Column, ExplorerError>)
    ensures
        r is Ok <==> t@.find_col(name@) >= 0,
        r is Ok ==> r->Ok_0@ == t@.columns[t@.find_col(name@)],
        r is Err ==> r->Err_0 is ColumnNotFound,
{
    match find_column(t, name) {
        Some(j) => Ok(dup_column(&t.columns[j])),
        None => Err(ExplorerError::ColumnNotFound(name.clone())),
    }
}

/// A copy of the column at position `idx`, when the position exists.
pub fn df_select_at_idx(t: &Table, idx: usize) -> (r: Option<Column>)
    ensures
        r is Some <==> idx < t@.columns.len(),
        r is Some ==> r->0@ == t@.columns[idx as int],
{
    if idx < t.columns.len() {
        Some(dup_column(&t.columns[idx]))
    } else {
        None
    }
}

} // verus!
