use vstd::prelude::*;

use crate::error::ExplorerError;
use crate::num_str::{dec_str, u64_to_dec_string};
use crate::table::{cols_ok, df_from_series, Column, ColumnModel, Table, TableModel};
use crate::value::{dup_values, Value, ValueModel};
use vstd::string::StringExecFns;

verus! {

/// One step of the horizontal-concat rename pass: a column whose name
/// was already used takes the suffix `_<t>`, where `t` is the position
/// of the table it came from; the chosen name joins the used set.
pub open spec fn concat_step(
    acc: Seq<ColumnModel>,
    seen: Seq<Seq<char>>,
    c: ColumnModel,
    idx: int,
) -> (Seq<ColumnModel>, Seq<Seq<char>>) {
    if seen.contains(c.name) {
        let newname = c.name + seq!['_'] + dec_str(idx as nat);
        (
            acc.push(ColumnModel { name: newname, values: c.values }),
            seen.push(newname),
        )
    } else {
        (acc.push(c), seen.push(c.name))
    }
}

/// The pass folded over the first `j` columns of table `idx`.
pub open spec fn concat_table_fold(
    acc: Seq<ColumnModel>,
    seen: Seq<Seq<char>>,
    t: TableModel,
    idx: int,
    j: int,
) -> (Seq<ColumnModel>, Seq<Seq<char>>)
    decreases j,
{
    if j <= 0 {
        (acc, seen)
    } else {
        let prev = concat_table_fold(acc, seen, t, idx, j - 1);
        concat_step(prev.0, prev.1, t.columns[j - 1], idx)
    }
}

/// The pass folded over the first `i` tables.
pub open spec fn concat_tables_fold(ts: Seq<TableModel>, i: int) -> (
    Seq<ColumnModel>,
    Seq<Seq<char>>,
)
    decreases i,
{
    if i <= 0 {
        (Seq::empty(), Seq::empty())
    } else {
        let prev = concat_tables_fold(ts, i - 1);
        concat_table_fold(prev.0, prev.1, ts[i - 1], i - 1, ts[i - 1].columns.len() as int)
    }
}

/// The column list that concatenating the tables side by side yields,
/// after the rename pass.
pub open spec fn concat_renamed(ts: Seq<TableModel>) -> Seq<ColumnModel> {
    concat_tables_fold(ts, ts.len() as int).0
}

/// Concatenates the tables' columns side by side, left to right. A
/// column whose name was used by an earlier column is renamed with the
/// suffix `_<t>`, `t` the position of its table. Names that still
/// collide after the pass, or columns of unequal length, refuse the
/// table.
pub fn df_concat_columns(dfs: &Vec<Table>) -> (r: Result<Table, ExplorerError>)
    ensures
        r is Ok <==> cols_ok(concat_renamed(dfs.deep_view())),
        r is Ok ==> r->Ok_0@.columns == concat_renamed(dfs.deep_view()) && r->Ok_0@.wf(),
        r is Err ==> (r->Err_0 is DuplicateColumnName || r->Err_0 is LengthMismatch),
{
    let ghost tsv = dfs.deep_view();
    let mut cols: Vec<Column> = Vec::new();
    let mut seen: Vec<String> = Vec::new();
    let nt = dfs.len();
    let mut i: usize = 0;
    while i < nt
        invariant
            nt == dfs@.len(),
            tsv == dfs.deep_view(),
            i <= nt,
            (cols.deep_view(), seen.deep_view()) == concat_tables_fold(tsv, i as int),
        decreases nt - i,
    {
        let ghost st0 = concat_tables_fold(tsv, i as int);
        let w = dfs[i].columns.len();
        let mut j: usize = 0;
        while j < w
            invariant
                i < nt == dfs@.len(),
                tsv == dfs.deep_view(),
                w == dfs@[i as int].columns@.len(),
                st0 == concat_tables_fold(tsv, i as int),
                j <= w,
                (cols.deep_view(), seen.deep_view()) == concat_table_fold(
                    st0.0,
                    st0.1,
                    tsv[i as int],
                    i as int,
                    j as int,
                ),
            decreases w - j,
        {
            let ghost stj = concat_table_fold(st0.0, st0.1, tsv[i as int], i as int, j as int);
            let name = dfs[i].columns[j].name.clone();
            let values = dup_values(&dfs[i].columns[j].values);
            proof {
                assert(tsv[i as int].columns[j as int] == dfs@[i as int]@.columns[j as int]);
                assert(name@ == tsv[i as int].columns[j as int].name);
                assert(values.deep_view() == tsv[i as int].columns[j as int].values);
            }
            if crate::pivot::names_contain(&seen, &name) {
                let mut newname = name;
                newname.append("_");
                let sfx = u64_to_dec_string(i as u64);
                newname.append(sfx.as_str());
                proof {
                    reveal_strlit("_");
                    assert(newname@ =~= tsv[i as int].columns[j as int].name + seq!['_'] + dec_str(
                        i as nat,
                    ));
                }
                cols.push(Column { name: newname.clone(), values });
                seen.push(newname);
                proof {
                    assert(cols.deep_view() =~= stj.0.push(cols@.last()@));
                    assert(seen.deep_view() =~= stj.1.push(seen@.last()@));
                    assert((cols.deep_view(), seen.deep_view()) == concat_step(
                        stj.0,
                        stj.1,
                        tsv[i as int].columns[j as int],
                        i as int,
                    ));
                }
            } else {
                cols.push(Column { name: name.clone(), values });
                seen.push(name);
                proof {
                    assert(cols.deep_view() =~= stj.0.push(cols@.last()@));
                    assert(seen.deep_view() =~= stj.1.push(seen@.last()@));
                    assert((cols.deep_view(), seen.deep_view()) == concat_step(
                        stj.0,
                        stj.1,
                        tsv[i as int].columns[j as int],
                        i as int,
                    ));
                }
            }
            j += 1;
        }
        i += 1;
    }
    proof {
        assert(cols.deep_view() == concat_renamed(tsv));
    }
    df_from_series(cols)
}

/// How many cells of a column are missing.
pub open spec fn count_nulls(s: Seq<ValueModel>) -> nat
    decreases s.len(),
{
    if s.len() == 0 {
        0
    } else {
        count_nulls(s.drop_last()) + (if s.last() is Null {
            1nat
        } else {
            0nat
        })
    }
}

/// A one-row table counting, under each column's name, how many of its
/// cells are missing.
pub fn df_nil_count(t: &Table) -> (r: Table)
    requires
        t@.wf(),
    ensures
        r@.columns.len() == t@.columns.len(),
        forall|j: int|
            0 <= j < t@.columns.len() ==> (#[trigger] r@.columns[j]).name == t@.columns[j].name
                && r@.columns[j].values == seq![
                ValueModel::UInt(count_nulls(t@.columns[j].values) as u64),
            ],
        r@.wf(),
{
    let w = t.columns.len();
    let mut cols: Vec<Column> = Vec::new();
    let mut j: usize = 0;
    while j < w
        invariant
            t@.wf(),
            w == t.columns@.len(),
            j <= w,
            cols.len() == j,
            forall|x: int|
                0 <= x < j ==> (#[trigger] cols@[x]@).name == t@.columns[x].name && cols@[x]@.values
                    == seq![ValueModel::UInt(count_nulls(t@.columns[x].values) as u64)],
        decreases w - j,
    {
        let n = t.columns[j].values.len();
        let mut count: usize = 0;
        let mut k: usize = 0;
        while k < n
            invariant
                j < w == t.columns@.len(),
                n == t.columns@[j as int].values@.len(),
                k <= n,
                count as nat == count_nulls(t@.columns[j as int].values.take(k as int)),
                count <= k,
            decreases n - k,
        {
            let ghost pre = t@.columns[j as int].values.take(k as int);
            proof {
                assert(t@.columns[j as int].values.take(k + 1).drop_last() =~= pre);
                assert(t@.columns[j as int].values.take(k + 1).last() == t@.columns[j as int].values[
                    k as int]);
                assert(t@.columns[j as int].values[k as int] == t.columns@[j as int].values@[k as int]@);
            }
            match &t.columns[j].values[k] {
                crate::value::Value::Null => {
                    count += 1;
                },
                _ => {
                    proof {
                        let v = t.columns@[j as int].values@[k as int];
                        if v is Bool {
                        } else if v is Int {
                        } else if v is UInt {
                        } else if v is Str {
                        } else {
                            assert(v is Float);
                        }
                        assert(!(t@.columns[j as int].values[k as int] is Null));
                    }
                },
            }
            k += 1;
        }
        proof {
            assert(t@.columns[j as int].values.take(n as int) =~= t@.columns[j as int].values);
        }
        let mut vals: Vec<crate::value::Value> = Vec::new();
        vals.push(crate::value::Value::UInt(count as u64));
        cols.push(Column { name: t.columns[j].name.clone(), values: vals });
        proof {
            assert(cols@[j as int]@.values =~= seq![
                ValueModel::UInt(count_nulls(t@.columns[j as int].values) as u64),
            ]);
        }
        j += 1;
    }
    let out = Table { columns: cols };
    proof {
        assert forall|a: int, b: int|
            0 <= a < b < out@.columns.len() implies out@.columns[a].name != out@.columns[b].name by {
            assert(out@.columns[a].name == t@.columns[a].name);
            assert(out@.columns[b].name == t@.columns[b].name);
        }
        assert forall|a: int| 0 <= a < out@.columns.len() implies (#[trigger] out@.columns[a].values).len()
            == out@.nrows() by {
            assert(out@.columns[a].values.len() == 1);
            assert(out@.columns[0].values.len() == 1);
        }
    }
    out
}


/// The default name of transposed column `i`.
pub open spec fn transpose_default_name(i: int) -> Seq<char> {
    seq!['c', 'o', 'l', 'u', 'm', 'n', '_'] + dec_str(i as nat)
}

/// The columns of the transposed table: optionally a leading column
/// holding the source's column names, then one column per source row
/// carrying that row's cells in column order.
pub open spec fn transpose_cols(
    t: TableModel,
    keep: Option<Seq<char>>,
    names: Option<Seq<Seq<char>>>,
) -> Seq<ColumnModel> {
    let head: Seq<ColumnModel> = match keep {
        Some(nm) => seq![
            ColumnModel {
                name: nm,
                values: Seq::new(t.columns.len() as nat, |j: int| ValueModel::Str(t.columns[j].name)),
            },
        ],
        None => Seq::empty(),
    };
    head + Seq::new(
        t.nrows(),
        |i: int|
            ColumnModel {
                name: match names {
                    Some(ns) => ns[i],
                    None => transpose_default_name(i),
                },
                values: Seq::new(t.columns.len() as nat, |j: int| t.columns[j].values[i]),
            },
    )
}

/// Turns rows into columns: cell `(i, j)` of the source becomes cell
/// `(j, i)`. The new columns take the given names, one per source row,
/// or `column_<i>`; optionally the source's column names survive as a
/// leading column. A name list of the wrong length, or resulting
/// duplicate names, refuse the table.
pub fn df_transpose(
    df: &Table,
    keep_names_as: &Option<String>,
    new_col_names: &Option<Vec<String>>,
) -> (r: Result<Table, ExplorerError>)
    requires
        df@.wf(),
    ensures
        (match new_col_names {
            Some(ns) => ns@.len() != df@.nrows(),
            None => false,
        }) ==> r is Err && r->Err_0 is LengthMismatch,
        r is Ok <==> ((match new_col_names {
            Some(ns) => ns@.len() == df@.nrows(),
            None => true,
        }) && cols_ok(
            transpose_cols(
                df@,
                match keep_names_as {
                    Some(nm) => Some(nm@),
                    None => None,
                },
                match new_col_names {
                    Some(ns) => Some(ns.deep_view()),
                    None => None,
                },
            ),
        )),
        r is Ok ==> r->Ok_0@.columns == transpose_cols(
            df@,
            match keep_names_as {
                Some(nm) => Some(nm@),
                None => None,
            },
            match new_col_names {
                Some(ns) => Some(ns.deep_view()),
                None => None,
            },
        ) && r->Ok_0@.wf(),
        r is Err ==> r->Err_0 is LengthMismatch || r->Err_0 is DuplicateColumnName,
{
    let ghost keepv: Option<Seq<char>> = match keep_names_as {
        Some(nm) => Some(nm@),
        None => None,
    };
    let ghost namesv: Option<Seq<Seq<char>>> = match new_col_names {
        Some(ns) => Some(ns.deep_view()),
        None => None,
    };
    let ghost target = transpose_cols(df@, keepv, namesv);
    let n = crate::table::df_n_rows(df);
    let w = df.columns.len();
    match new_col_names {
        Some(ns) => {
            if ns.len() != n {
                return Err(ExplorerError::LengthMismatch);
            }
        },
        None => {},
    }
    let mut cols: Vec<Column> = Vec::new();
    match keep_names_as {
        Some(nm) => {
            let mut cells: Vec<Value> = Vec::new();
            let mut j: usize = 0;
            while j < w
                invariant
                    w == df.columns@.len(),
                    j <= w,
                    cells.len() == j,
                    forall|q: int| 0 <= q < j ==> cells@[q]@ == ValueModel::Str(df@.columns[q].name),
                decreases w - j,
            {
                cells.push(Value::Str(df.columns[j].name.clone()));
                j += 1;
            }
            cols.push(Column { name: nm.clone(), values: cells });
            proof {
                assert(cols@[0]@.values =~= target[0].values);
                assert(cols@[0]@ == target[0]);
            }
        },
        None => {},
    }
    let ghost head: int = cols@.len() as int;
    let mut i: usize = 0;
    while i < n
        invariant
            df@.wf(),
            n == df@.nrows(),
            w == df.columns@.len(),
            target == transpose_cols(df@, keepv, namesv),
            head == (if keepv is Some {
                1int
            } else {
                0int
            }),
            (match new_col_names {
                Some(ns) => ns@.len() == n && namesv == Some(ns.deep_view()),
                None => namesv is None,
            }),
            target.len() == head + n,
            i <= n,
            cols@.len() == head + i,
            forall|q: int| 0 <= q < head + i ==> cols@[q]@ == target[q],
        decreases n - i,
    {
        let mut cells: Vec<Value> = Vec::new();
        let mut j: usize = 0;
        while j < w
            invariant
                df@.wf(),
                i < n == df@.nrows(),
                w == df.columns@.len(),
                j <= w,
                cells.len() == j,
                forall|q: int| 0 <= q < j ==> cells@[q]@ == df@.columns[q].values[i as int],
            decreases w - j,
        {
            proof {
                assert(df@.columns[j as int].values.len() == df@.nrows());
            }
            cells.push(df.columns[j].values[i].dup());
            j += 1;
        }
        let name = match new_col_names {
            Some(ns) => ns[i].clone(),
            None => {
                let mut s = String::from_str("column_");
                crate::num_str::push_dec(&mut s, i as u64);
                proof {
                    reveal_strlit("column_");
                    assert(s@ =~= transpose_default_name(i as int));
                }
                s
            },
        };
        cols.push(Column { name, values: cells });
        proof {
            assert(cols@[head + i]@.values =~= target[head + i].values);
            assert(cols@[head + i]@ == target[head + i]);
        }
        i += 1;
    }
    proof {
        assert(cols.deep_view() =~= target);
    }
    df_from_series(cols)
}

} // verus!
