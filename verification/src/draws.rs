use vstd::prelude::*;

use crate::table::{Column, ColumnModel, Table, TableModel};
use crate::value::{Value, ValueModel};

verus! {

/// The name of the draw-index column.
pub open spec fn draw_col_name() -> Seq<char> {
    seq!['d', 'r', 'a', 'w']
}

/// The name of the sampled-value column.
pub open spec fn x_col_name() -> Seq<char> {
    seq!['x']
}

/// The two-column result of a sampling call: a `draw` column counting
/// `0, 1, ...` and an `x` column holding the drawn values as IEEE-754
/// bit patterns, one row per draw.
pub open spec fn draw_table_model(bits: Seq<u64>) -> TableModel {
    TableModel {
        columns: seq![
            ColumnModel {
                name: draw_col_name(),
                values: Seq::new(bits.len(), |i: int| ValueModel::UInt(i as u64)),
            },
            ColumnModel {
                name: x_col_name(),
                values: Seq::new(bits.len(), |i: int| ValueModel::Float(bits[i])),
            },
        ],
    }
}

/// Packages a sequence of drawn values, already in draw order, as the
/// two-column result table. Zero draws yield the two columns with no
/// rows, never a failure.
pub fn make_draw_table(values_bits: Vec<u64>) -> (t: Table)
    ensures
        t@ == draw_table_model(values_bits@),
        t@.wf(),
        t@.nrows() == values_bits@.len(),
        t@.columns.len() == 2,
{
    let ghost target = draw_table_model(values_bits@);
    let n = values_bits.len();
    let mut draws: Vec<Value> = Vec::new();
    let mut xs: Vec<Value> = Vec::new();
    let mut i: usize = 0;
    while i < n
        invariant
            n == values_bits@.len(),
            i <= n,
            draws.len() == i,
            xs.len() == i,
            forall|k: int| 0 <= k < i ==> draws@[k]@ == ValueModel::UInt(k as u64),
            forall|k: int| 0 <= k < i ==> xs@[k]@ == ValueModel::Float(values_bits@[k]),
        decreases n - i,
    {
        draws.push(Value::UInt(i as u64));
        xs.push(Value::Float(values_bits[i]));
        i += 1;
    }
    let dname = String::from_str("draw");
    let xname = String::from_str("x");
    proof {
        reveal_strlit("draw");
        reveal_strlit("x");
        assert(dname@ =~= draw_col_name());
        assert(xname@ =~= x_col_name());
    }
    let mut cols: Vec<Column> = Vec::new();
    cols.push(Column { name: dname, values: draws });
    cols.push(Column { name: xname, values: xs });
    let t = Table { columns: cols };
    proof {
        assert forall|k: int| 0 <= k < n implies t@.columns[0].values[k] == target.columns[0].values[k] by {
            assert(t@.columns[0].values[k] == ValueModel::UInt(k as u64));
        }
        assert(t@.columns[0].values =~= target.columns[0].values);
        assert forall|k: int| 0 <= k < n implies t@.columns[1].values[k] == target.columns[1].values[k] by {
            assert(t@.columns[1].values[k] == ValueModel::Float(values_bits@[k]));
        }
        assert(t@.columns[1].values =~= target.columns[1].values);
        assert(t@.columns =~= target.columns);
        assert(draw_col_name() !~= x_col_name());
    }
    t
}


/// The two-column result of a discrete sampling call: the drawn values
/// are unsigned integers rather than bit patterns.
pub open spec fn draw_table_model_uint(vals: Seq<u64>) -> TableModel {
    TableModel {
        columns: seq![
            ColumnModel {
                name: draw_col_name(),
                values: Seq::new(vals.len(), |i: int| ValueModel::UInt(i as u64)),
            },
            ColumnModel {
                name: x_col_name(),
                values: Seq::new(vals.len(), |i: int| ValueModel::UInt(vals[i])),
            },
        ],
    }
}

/// Packages a sequence of drawn unsigned integers, already in draw
/// order, as the two-column result table.
pub fn make_draw_table_uint(values: Vec<u64>) -> (t: Table)
    ensures
        t@ == draw_table_model_uint(values@),
        t@.wf(),
        t@.nrows() == values@.len(),
        t@.columns.len() == 2,
{
    let ghost target = draw_table_model_uint(values@);
    let n = values.len();
    let mut draws: Vec<Value> = Vec::new();
    let mut xs: Vec<Value> = Vec::new();
    let mut i: usize = 0;
    while i < n
        invariant
            n == values@.len(),
            i <= n,
            draws.len() == i,
            xs.len() == i,
            forall|k: int| 0 <= k < i ==> draws@[k]@ == ValueModel::UInt(k as u64),
            forall|k: int| 0 <= k < i ==> xs@[k]@ == ValueModel::UInt(values@[k]),
        decreases n - i,
    {
        draws.push(Value::UInt(i as u64));
        xs.push(Value::UInt(values[i]));
        i += 1;
    }
    let dname = String::from_str("draw");
    let xname = String::from_str("x");
    proof {
        reveal_strlit("draw");
        reveal_strlit("x");
        assert(dname@ =~= draw_col_name());
        assert(xname@ =~= x_col_name());
    }
    let mut cols: Vec<Column> = Vec::new();
    cols.push(Column { name: dname, values: draws });
    cols.push(Column { name: xname, values: xs });
    let t = Table { columns: cols };
    proof {
        assert forall|k: int| 0 <= k < n implies t@.columns[0].values[k] == target.columns[0].values[k] by {
            assert(t@.columns[0].values[k] == ValueModel::UInt(k as u64));
        }
        assert(t@.columns[0].values =~= target.columns[0].values);
        assert forall|k: int| 0 <= k < n implies t@.columns[1].values[k] == target.columns[1].values[k] by {
            assert(t@.columns[1].values[k] == ValueModel::UInt(values@[k]));
        }
        assert(t@.columns[1].values =~= target.columns[1].values);
        assert(t@.columns =~= target.columns);
        assert(draw_col_name() !~= x_col_name());
    }
    t
}

} // verus!
