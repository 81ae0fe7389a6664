use vstd::prelude::*;

use crate::error::ExplorerError;
use crate::group::{all_found, is_stable_partition, rows_of, spec_resolve, stable_partition};
use crate::table::{spec_take, Column, Table, TableModel};
use crate::value::{Value, ValueModel};
use crate::table_ops::{concat_rows, df_take, idx_view, slice_len, slice_rows, slice_start, spec_vstack};

verus! {

/// The vertical concatenation of a sequence of tables, first to last.
pub open spec fn vconcat_all(parts: Seq<TableModel>) -> TableModel
    decreases parts.len(),
{
    if parts.len() == 0 {
        TableModel { columns: Seq::empty() }
    } else if parts.len() == 1 {
        parts[0]
    } else {
        spec_vstack(vconcat_all(parts.drop_last()), parts.last())
    }
}

/// Runs `transform` over the whole table when no grouping columns are
/// given; otherwise partitions the rows stably by the grouping columns,
/// runs `transform` once per group's sub-table, and stacks the results
/// in the partition's emitted group order. A failing transform aborts
/// the whole operation with that group's error; results whose schemas
/// diverge refuse to combine.
pub fn grouped_apply<F: Fn(Table) -> Result<Table, ExplorerError>>(
    table: Table,
    group_columns: &Vec<String>,
    transform: F,
) -> (r: Result<Table, ExplorerError>)
    requires
        table@.wf(),
        forall|t: Table| t@.wf() ==> #[trigger] call_requires(transform, (t,)),
        forall|t: Table, out: Table| #[trigger] call_ensures(transform, (t,), Ok(out)) ==> out@.wf(),
    ensures
        group_columns@.len() == 0 ==> call_ensures(transform, (table,), r),
        group_columns@.len() > 0 && r is Ok ==> all_found(table@, group_columns.deep_view())
            && exists|gs: Seq<Seq<int>>, subs: Seq<Table>, parts: Seq<Table>|
            #![auto]
            {
                &&& is_stable_partition(table@, spec_resolve(table@, group_columns.deep_view()), gs)
                &&& subs.len() == gs.len()
                &&& parts.len() == gs.len()
                &&& forall|g: int| 0 <= g < gs.len() ==> (#[trigger] subs[g])@ == spec_take(table@, gs[g])
                &&& forall|g: int|
                    0 <= g < gs.len() ==> call_ensures(transform, ((#[trigger] subs[g]),), Ok(parts[g]))
                &&& r->Ok_0@ == vconcat_all(parts.map_values(|p: Table| p@))
            },
        group_columns@.len() > 0 && r is Err ==> {
            ||| (!all_found(table@, group_columns.deep_view()) && r->Err_0 is ColumnNotFound)
            ||| (all_found(table@, group_columns.deep_view()) && exists|gs: Seq<Seq<int>>, g: int, sub: Table|
                #![auto]
                is_stable_partition(table@, spec_resolve(table@, group_columns.deep_view()), gs)
                    && 0 <= g < gs.len() && sub@ == spec_take(table@, gs[g]) && sub@.wf()
                    && sub@.names() == table@.names() && call_ensures(
                    transform,
                    (sub,),
                    Err(r->Err_0),
                ))
            ||| (all_found(table@, group_columns.deep_view()) && r->Err_0 is SchemaMismatch && exists|s1: Table, p1: Table, s2: Table, p2: Table|
                #![auto]
                call_ensures(transform, (s1,), Ok(p1)) && call_ensures(transform, (s2,), Ok(p2))
                    && s1@.names() == table@.names() && s2@.names() == table@.names()
                    && p1@.names() != p2@.names())
        },
{
    if group_columns.len() == 0 {
        return transform(table);
    }
    let entries = match stable_partition(&table, group_columns) {
        Ok(p) => p,
        Err(e) => {
            return Err(e);
        },
    };
    let ghost gsv = rows_of(entries@);
    let ghost mut subsv: Seq<Table> = Seq::empty();
    let ghost mut outsv: Seq<Table> = Seq::empty();
    let mut acc: Option<Table> = None;
    let m = entries.len();
    let mut g: usize = 0;
    while g < m
        invariant
            group_columns@.len() > 0,
            all_found(table@, group_columns.deep_view()),
            table@.wf(),
            forall|t: Table| t@.wf() ==> #[trigger] call_requires(transform, (t,)),
            forall|t: Table, out: Table| #[trigger] call_ensures(transform, (t,), Ok(out))
                ==> out@.wf(),
            m == entries.len(),
            gsv == rows_of(entries@),
            is_stable_partition(table@, spec_resolve(table@, group_columns.deep_view()), gsv),
            g <= m,
            subsv.len() == g,
            outsv.len() == g,
            forall|h: int| 0 <= h < g ==> (#[trigger] subsv[h])@ == spec_take(table@, gsv[h]),
            forall|h: int| 0 <= h < g ==> (#[trigger] subsv[h])@.wf() && subsv[h]@.names() == table@.names(),
            forall|h: int|
                0 <= h < g ==> call_ensures(transform, ((#[trigger] subsv[h]),), Ok(outsv[h])),
            forall|h: int| 0 <= h < g ==> (#[trigger] outsv[h])@.wf(),
            g == 0 ==> acc is None,
            g > 0 ==> acc is Some && acc->0@.wf() && acc->0@ == vconcat_all(
                outsv.map_values(|p: Table| p@),
            ) && acc->0@.names() == outsv[0]@.names(),
        decreases m - g,
    {
        proof {
            assert(gsv[g as int] == idx_view(entries@[g as int].rows@));
            assert forall|k: int|
                0 <= k < entries@[g as int].rows@.len() implies (#[trigger] entries@[g as int].rows@[k])
                < table@.nrows() by {
                assert(gsv[g as int][k] < table@.nrows());
            }
        }
        let sub = match df_take(&table, &entries[g].rows) {
            Ok(s) => s,
            Err(_) => {
                proof {
                    assert(false);
                }
                return Err(ExplorerError::IndexOutOfBounds);
            },
        };
        let ghost subg = sub;
        proof {
            assert(sub@ == spec_take(table@, gsv[g as int]));
        }
        let out = match transform(sub) {
            Ok(o) => o,
            Err(e) => {
                proof {
                    assert(call_ensures(transform, (subg,), Err::<Table, ExplorerError>(e)));
                    assert(subg@ == spec_take(table@, gsv[g as int]));
                    assert(is_stable_partition(
                        table@,
                        spec_resolve(table@, group_columns.deep_view()),
                        gsv,
                    ));
                }
                return Err(e);
            },
        };
        let ghost outg = out;
        let ghost subsv_pre = subsv;
        let ghost outsv_pre = outsv;
        proof {
            subsv = subsv.push(subg);
            outsv = outsv.push(outg);
        }
        match acc {
            None => {
                proof {
                    assert(outsv.map_values(|p: Table| p@) =~= seq![outg@]);
                    assert(vconcat_all(outsv.map_values(|p: Table| p@)) == outg@);
                }
                acc = Some(out);
            },
            Some(a) => {
                let joined = match concat_rows(&a, &out) {
                    Ok(j) => j,
                    Err(e) => {
                        proof {
                            assert(a@.names() != out@.names());
                            assert(outsv[0]@.names() == a@.names());
                            assert(call_ensures(transform, (subsv[0],), Ok(outsv[0])));
                            assert(subsv[0]@.names() == table@.names());
                            assert(subg@.names() == table@.names());
                        }
                        return Err(e);
                    },
                };
                proof {
                    let mapped = outsv.map_values(|p: Table| p@);
                    let prevm = outsv_pre.map_values(|p: Table| p@);
                    assert(mapped.drop_last() =~= prevm);
                    assert(mapped.last() == outg@);
                    assert(a@ == vconcat_all(prevm));
                    assert(joined@ == spec_vstack(a@, outg@));
                    assert(vconcat_all(mapped) == spec_vstack(
                        vconcat_all(mapped.drop_last()),
                        mapped.last(),
                    ));
                }
                acc = Some(joined);
            },
        }
        proof {
            assert(outsv[0]@.names() == vconcat_all(outsv.map_values(|p: Table| p@)).names()) by {
                lemma_vconcat_names(outsv.map_values(|p: Table| p@));
            };
        }
        g += 1;
    }
    let result = match acc {
        Some(a) => a,
        None => Table { columns: Vec::new() },
    };
    proof {
        if m == 0 {
            assert(outsv.map_values(|p: Table| p@) =~= Seq::<TableModel>::empty());
            assert(result@.columns =~= Seq::<crate::table::ColumnModel>::empty());
        }
        assert(result@ == vconcat_all(outsv.map_values(|p: Table| p@)));
        assert(is_stable_partition(table@, spec_resolve(table@, group_columns.deep_view()), gsv));
        assert(subsv.len() == gsv.len());
        assert(outsv.len() == gsv.len());
        assert(forall|g2: int| 0 <= g2 < gsv.len() ==> (#[trigger] subsv[g2])@ == spec_take(table@, gsv[g2]));
        assert(forall|g2: int|
            0 <= g2 < gsv.len() ==> call_ensures(transform, ((#[trigger] subsv[g2]),), Ok(outsv[g2])));
        assert(exists|gs: Seq<Seq<int>>, subs: Seq<Table>, parts: Seq<Table>|
            #![auto]
            {
                &&& is_stable_partition(table@, spec_resolve(table@, group_columns.deep_view()), gs)
                &&& subs.len() == gs.len()
                &&& parts.len() == gs.len()
                &&& forall|g2: int| 0 <= g2 < gs.len() ==> (#[trigger] subs[g2])@ == spec_take(table@, gs[g2])
                &&& forall|g2: int|
                    0 <= g2 < gs.len() ==> call_ensures(transform, ((#[trigger] subs[g2]),), Ok(parts[g2]))
                &&& result@ == vconcat_all(parts.map_values(|p: Table| p@))
            });
    }
    Ok(result)
}

/// A non-empty stack of tables carries its first table's column names.
proof fn lemma_vconcat_names(parts: Seq<TableModel>)
    requires
        parts.len() > 0,
    ensures
        vconcat_all(parts).names() == parts[0].names(),
    decreases parts.len(),
{
    if parts.len() > 1 {
        lemma_vconcat_names(parts.drop_last());
        assert(parts.drop_last()[0] == parts[0]);
        let a = vconcat_all(parts.drop_last());
        let v = vconcat_all(parts);
        assert(v == spec_vstack(a, parts.last()));
        assert(v.names() =~= a.names());
    }
}


/// The contiguous window of up to `length` rows at signed `offset`.
pub open spec fn slice_model(t: TableModel, offset: int, length: int) -> TableModel {
    spec_take(
        t,
        Seq::new(
            slice_len(t.nrows() as int, offset, length) as nat,
            |i: int| slice_start(t.nrows() as int, offset) + i,
        ),
    )
}

/// Row slicing by offset and length, applied within each group when
/// grouping columns are given: each group is sliced against its own row
/// numbering, and the slices are stacked in stable group order.
pub fn df_slice(df: Table, offset: i64, length: usize, groups: &Vec<String>) -> (r: Result<
    Table,
    ExplorerError,
>)
    requires
        df@.wf(),
    ensures
        groups@.len() == 0 ==> r is Ok && r->Ok_0@ == slice_model(df@, offset as int, length as int),
        groups@.len() > 0 ==> (r is Ok <==> all_found(df@, groups.deep_view())),
        groups@.len() > 0 && r is Ok ==> exists|gs: Seq<Seq<int>>|
            #![auto]
            is_stable_partition(df@, spec_resolve(df@, groups.deep_view()), gs) && r->Ok_0@
                == vconcat_all(
                gs.map_values(
                    |rows: Seq<int>| slice_model(spec_take(df@, rows), offset as int, length as int),
                ),
            ),
        r is Err ==> r->Err_0 is ColumnNotFound,
{
    let ghost dfv = df@;
    let transform = |tt: Table| -> (out: Result<Table, ExplorerError>)
        requires
            tt@.wf(),
        ensures
            out is Ok,
            out->Ok_0@ == slice_model(tt@, offset as int, length as int),
            out->Ok_0@.wf(),
            out->Ok_0@.names() == tt@.names(),
        { Ok(slice_rows(&tt, offset, length)) };
    proof {
        assert(forall|x: Table, y: Result<Table, ExplorerError>|
            #[trigger] call_ensures(transform, (x,), y) ==> y is Ok && y->Ok_0@ == slice_model(
                x@,
                offset as int,
                length as int,
            ) && y->Ok_0@.names() == x@.names());
    }
    let r = grouped_apply(df, groups, transform);
    proof {
        if groups@.len() > 0 {
            if r is Ok {
                let (gs, subs, parts): (Seq<Seq<int>>, Seq<Table>, Seq<Table>) = choose|
                    gs: Seq<Seq<int>>,
                    subs: Seq<Table>,
                    parts: Seq<Table>,
                |
                    #![auto]
                    {
                        &&& is_stable_partition(dfv, spec_resolve(dfv, groups.deep_view()), gs)
                        &&& subs.len() == gs.len()
                        &&& parts.len() == gs.len()
                        &&& forall|g2: int|
                            0 <= g2 < gs.len() ==> (#[trigger] subs[g2])@ == spec_take(dfv, gs[g2])
                        &&& forall|g2: int|
                            0 <= g2 < gs.len() ==> call_ensures(
                                transform,
                                ((#[trigger] subs[g2]),),
                                Ok(parts[g2]),
                            )
                        &&& r->Ok_0@ == vconcat_all(parts.map_values(|p: Table| p@))
                    };
                let target = gs.map_values(
                    |rows: Seq<int>| slice_model(spec_take(dfv, rows), offset as int, length as int),
                );
                assert forall|g2: int| 0 <= g2 < gs.len() implies parts.map_values(|p: Table| p@)[g2]
                    == target[g2] by {
                    assert(call_ensures(transform, (subs[g2],), Ok(parts[g2])));
                    assert(parts[g2]@ == slice_model(subs[g2]@, offset as int, length as int));
                }
                assert(parts.map_values(|p: Table| p@) =~= target);
            } else {
                assert(r->Err_0 is ColumnNotFound && !all_found(dfv, groups.deep_view()));
            }
        }
    }
    r
}

/// A sequence of 32-bit positions as mathematical integers.
pub open spec fn u32idx_view(s: Seq<u32>) -> Seq<int> {
    s.map_values(|u: u32| u as int)
}

/// Whether every position lies under `n`.
pub open spec fn all_in_bounds(idx: Seq<int>, n: int) -> bool {
    forall|k: int| 0 <= k < idx.len() ==> 0 <= #[trigger] idx[k] < n
}

/// Whether every group of the partition can answer the positions: each
/// position lies under every group's own row count.
pub open spec fn fits_all_groups(t: TableModel, idx: Seq<int>, gs: Seq<Seq<int>>) -> bool {
    forall|g: int|
        0 <= g < gs.len() ==> all_in_bounds(idx, spec_take(t, #[trigger] gs[g]).nrows() as int)
}

/// Row selection by integer positions, applied within each group when
/// grouping columns are given: the same position list is used against
/// each group's own row numbering.
pub fn df_slice_by_indices(df: Table, indices: Vec<u32>, groups: &Vec<String>) -> (r: Result<
    Table,
    ExplorerError,
>)
    requires
        df@.wf(),
    ensures
        groups@.len() == 0 ==> ((r is Ok <==> all_in_bounds(u32idx_view(indices@), df@.nrows() as int))
            && (r is Ok ==> r->Ok_0@ == spec_take(df@, u32idx_view(indices@)))),
        groups@.len() > 0 && r is Ok ==> all_found(df@, groups.deep_view()) && exists|gs: Seq<Seq<int>>|
            #![auto]
            is_stable_partition(df@, spec_resolve(df@, groups.deep_view()), gs) && fits_all_groups(
                df@,
                u32idx_view(indices@),
                gs,
            ) && r->Ok_0@ == vconcat_all(
                gs.map_values(|rows: Seq<int>| spec_take(spec_take(df@, rows), u32idx_view(indices@))),
            ),
        groups@.len() > 0 && !all_found(df@, groups.deep_view()) ==> r is Err && r->Err_0 is ColumnNotFound,
        groups@.len() > 0 && all_found(df@, groups.deep_view()) && r is Err ==> r->Err_0 is IndexOutOfBounds
            && exists|gs: Seq<Seq<int>>|
            #![auto]
            is_stable_partition(df@, spec_resolve(df@, groups.deep_view()), gs) && !fits_all_groups(
                df@,
                u32idx_view(indices@),
                gs,
            ),
        r is Err ==> r->Err_0 is ColumnNotFound || r->Err_0 is IndexOutOfBounds,
{
    let ghost dfv = df@;
    let mut ups: Vec<usize> = Vec::new();
    let ghost gnames = groups.deep_view();
    let n = indices.len();
    let mut i: usize = 0;
    while i < n
        invariant
            n == indices.len(),
            i <= n,
            ups.len() == i,
            forall|k: int| 0 <= k < i ==> ups@[k] == indices@[k] as usize,
        decreases n - i,
    {
        ups.push(indices[i] as usize);
        i += 1;
    }
    proof {
        assert(idx_view(ups@) =~= u32idx_view(indices@));
    }
    let transform = |tt: Table| -> (out: Result<Table, ExplorerError>)
        requires
            tt@.wf(),
        ensures
            out is Ok <==> all_in_bounds(idx_view(ups@), tt@.nrows() as int),
            out is Ok ==> out->Ok_0@ == spec_take(tt@, idx_view(ups@)) && out->Ok_0@.wf()
                && out->Ok_0@.names() == tt@.names(),
            out is Err ==> out->Err_0 is IndexOutOfBounds,
        {
            let out = df_take(&tt, &ups);
            proof {
                if out is Ok {
                    assert forall|k: int| 0 <= k < idx_view(ups@).len() implies 0 <= #[trigger] idx_view(
                        ups@,
                    )[k] < tt@.nrows() as int by {
                        assert(ups@[k] < tt@.nrows());
                    }
                } else {
                    assert(!(forall|k: int|
                        0 <= k < ups@.len() ==> (#[trigger] ups@[k]) < tt@.nrows()));
                    let k0 = choose|k: int| 0 <= k < ups@.len() && !((#[trigger] ups@[k]) < tt@.nrows());
                    assert(!(0 <= idx_view(ups@)[k0] < tt@.nrows() as int));
                }
            }
            out
        };
    proof {
        assert(idx_view(ups@) == u32idx_view(indices@));
        assert forall|x: Table, y: Result<Table, ExplorerError>|
            #[trigger] call_ensures(transform, (x,), y) implies ((y is Ok ==> y->Ok_0@ == spec_take(
            x@,
            idx_view(ups@),
        ) && y->Ok_0@.names() == x@.names() && all_in_bounds(
            u32idx_view(indices@),
            x@.nrows() as int,
        )) && (y is Err ==> y->Err_0 is IndexOutOfBounds && !all_in_bounds(
            u32idx_view(indices@),
            x@.nrows() as int,
        ))) by {
            assert(all_in_bounds(u32idx_view(indices@), x@.nrows() as int) == all_in_bounds(
                idx_view(ups@),
                x@.nrows() as int,
            ));
        }
    }
    let r = grouped_apply(df, groups, transform);
    proof {
        if groups@.len() > 0 {
            if r is Ok {
                let (gs, subs, parts): (Seq<Seq<int>>, Seq<Table>, Seq<Table>) = choose|
                    gs: Seq<Seq<int>>,
                    subs: Seq<Table>,
                    parts: Seq<Table>,
                |
                    #![auto]
                    {
                        &&& is_stable_partition(dfv, spec_resolve(dfv, groups.deep_view()), gs)
                        &&& subs.len() == gs.len()
                        &&& parts.len() == gs.len()
                        &&& forall|g2: int|
                            0 <= g2 < gs.len() ==> (#[trigger] subs[g2])@ == spec_take(dfv, gs[g2])
                        &&& forall|g2: int|
                            0 <= g2 < gs.len() ==> call_ensures(
                                transform,
                                ((#[trigger] subs[g2]),),
                                Ok(parts[g2]),
                            )
                        &&& r->Ok_0@ == vconcat_all(parts.map_values(|p: Table| p@))
                    };
                let target = gs.map_values(
                    |rows: Seq<int>| spec_take(spec_take(dfv, rows), u32idx_view(indices@)),
                );
                assert forall|g2: int| 0 <= g2 < gs.len() implies parts.map_values(|p: Table| p@)[g2]
                    == target[g2] && all_in_bounds(
                    u32idx_view(indices@),
                    spec_take(dfv, #[trigger] gs[g2]).nrows() as int,
                ) by {
                    assert(call_ensures(transform, (subs[g2],), Ok(parts[g2])));
                    assert(parts[g2]@ == spec_take(subs[g2]@, idx_view(ups@)));
                    assert(subs[g2]@ == spec_take(dfv, gs[g2]));
                }
                assert(fits_all_groups(dfv, u32idx_view(indices@), gs));
                assert(parts.map_values(|p: Table| p@) =~= target);
                assert(exists|gs2: Seq<Seq<int>>|
                    #![auto]
                    is_stable_partition(df@, spec_resolve(df@, groups.deep_view()), gs2)
                        && fits_all_groups(df@, u32idx_view(indices@), gs2) && r->Ok_0@
                        == vconcat_all(
                        gs2.map_values(
                            |rows: Seq<int>| spec_take(spec_take(df@, rows), u32idx_view(indices@)),
                        ),
                    )) by {
                    assert(gs.map_values(
                        |rows: Seq<int>| spec_take(spec_take(df@, rows), u32idx_view(indices@)),
                    ) =~= target);
                };
            } else {
                let e = r->Err_0;
                if !(e is ColumnNotFound && !all_found(dfv, gnames)) {
                    if exists|gs: Seq<Seq<int>>, g: int, sub: Table|
                        #![auto]
                        is_stable_partition(dfv, spec_resolve(dfv, gnames), gs) && 0 <= g
                            < gs.len() && sub@ == spec_take(dfv, gs[g]) && sub@.wf()
                            && sub@.names() == dfv.names() && call_ensures(
                            transform,
                            (sub,),
                            Err::<Table, ExplorerError>(e),
                        ) {
                        let (gs, g, sub): (Seq<Seq<int>>, int, Table) = choose|
                            gs: Seq<Seq<int>>,
                            g: int,
                            sub: Table,
                        |
                            #![auto]
                            is_stable_partition(dfv, spec_resolve(dfv, gnames), gs) && 0 <= g
                                < gs.len() && sub@ == spec_take(dfv, gs[g]) && sub@.wf()
                                && sub@.names() == dfv.names() && call_ensures(
                                transform,
                                (sub,),
                                Err::<Table, ExplorerError>(e),
                            );
                        assert(e is IndexOutOfBounds);
                        assert(!all_in_bounds(
                            u32idx_view(indices@),
                            spec_take(dfv, gs[g]).nrows() as int,
                        ));
                        assert(!fits_all_groups(df@, u32idx_view(indices@), gs));
                        assert(exists|gs2: Seq<Seq<int>>|
                            #![auto]
                            is_stable_partition(df@, spec_resolve(df@, groups.deep_view()), gs2)
                                && !fits_all_groups(df@, u32idx_view(indices@), gs2));
                    } else {
                        let (s1, p1, s2, p2): (Table, Table, Table, Table) = choose|
                            s1: Table,
                            p1: Table,
                            s2: Table,
                            p2: Table,
                        |
                            #![auto]
                            call_ensures(transform, (s1,), Ok(p1)) && call_ensures(
                                transform,
                                (s2,),
                                Ok(p2),
                            ) && s1@.names() == dfv.names() && s2@.names() == dfv.names()
                                && p1@.names() != p2@.names();
                        assert(p1@.names() == s1@.names());
                        assert(p2@.names() == s2@.names());
                        assert(false);
                    }
                }
            }
        }
    }
    r
}


/// Whether a cell can act as a row position: a non-negative integer that
/// fits 32 bits.
pub open spec fn valid_index_cell(v: ValueModel) -> bool {
    match v {
        ValueModel::Int(i) => 0 <= i <= u32::MAX,
        ValueModel::UInt(u) => u <= u32::MAX,
        _ => false,
    }
}

/// The position a valid cell denotes.
pub open spec fn cell_index(v: ValueModel) -> int {
    match v {
        ValueModel::Int(i) => i as int,
        ValueModel::UInt(u) => u as int,
        _ => 0,
    }
}

/// Whether every cell of the series can act as a row position.
pub open spec fn all_valid_indices(s: Seq<ValueModel>) -> bool {
    forall|k: int| 0 <= k < s.len() ==> valid_index_cell(#[trigger] s[k])
}

/// The positions a valid series denotes, in order.
pub open spec fn series_indices(s: Seq<ValueModel>) -> Seq<int> {
    s.map_values(|v: ValueModel| cell_index(v))
}

/// Row selection by a series of positions, applied within each group
/// when grouping columns are given. A series holding anything but
/// non-negative integers is refused before any row is touched.
pub fn df_slice_by_series(df: Table, series: &Column, groups: &Vec<String>) -> (r: Result<
    Table,
    ExplorerError,
>)
    requires
        df@.wf(),
    ensures
        !all_valid_indices(series@.values) ==> r is Err && r->Err_0 is InvalidIndices,
        all_valid_indices(series@.values) && groups@.len() == 0 ==> ((r is Ok <==> all_in_bounds(
            series_indices(series@.values),
            df@.nrows() as int,
        )) && (r is Ok ==> r->Ok_0@ == spec_take(df@, series_indices(series@.values)))),
        all_valid_indices(series@.values) && groups@.len() > 0 && r is Ok ==> all_found(
            df@,
            groups.deep_view(),
        ) && exists|gs: Seq<Seq<int>>|
            #![auto]
            is_stable_partition(df@, spec_resolve(df@, groups.deep_view()), gs) && fits_all_groups(
                df@,
                series_indices(series@.values),
                gs,
            ) && r->Ok_0@ == vconcat_all(
                gs.map_values(
                    |rows: Seq<int>| spec_take(spec_take(df@, rows), series_indices(series@.values)),
                ),
            ),
        all_valid_indices(series@.values) && groups@.len() > 0 && !all_found(df@, groups.deep_view())
            ==> r is Err && r->Err_0 is ColumnNotFound,
        all_valid_indices(series@.values) && groups@.len() > 0 && all_found(df@, groups.deep_view())
            && r is Err ==> r->Err_0 is IndexOutOfBounds && exists|gs: Seq<Seq<int>>|
            #![auto]
            is_stable_partition(df@, spec_resolve(df@, groups.deep_view()), gs) && !fits_all_groups(
                df@,
                series_indices(series@.values),
                gs,
            ),
        r is Err ==> r->Err_0 is ColumnNotFound || r->Err_0 is InvalidIndices || r->Err_0 is IndexOutOfBounds,
        all_valid_indices(series@.values) && r is Err ==> r->Err_0 is ColumnNotFound || r->Err_0 is IndexOutOfBounds,
{
    let mut conv: Vec<u32> = Vec::new();
    let n = series.values.len();
    let mut i: usize = 0;
    while i < n
        invariant
            n == series.values.len(),
            i <= n,
            conv.len() == i,
            forall|k: int| 0 <= k < i ==> valid_index_cell(#[trigger] series@.values[k]),
            forall|k: int| 0 <= k < i ==> conv@[k] as int == cell_index(series@.values[k]),
        decreases n - i,
    {
        proof {
            assert(series@.values[i as int] == series.values@[i as int]@);
        }
        match &series.values[i] {
            Value::Int(v) => {
                if *v < 0 || *v > u32::MAX as i64 {
                    proof {
                        assert(!valid_index_cell(series@.values[i as int]));
                    }
                    return Err(ExplorerError::InvalidIndices);
                }
                conv.push(*v as u32);
            },
            Value::UInt(u) => {
                if *u > u32::MAX as u64 {
                    proof {
                        assert(!valid_index_cell(series@.values[i as int]));
                    }
                    return Err(ExplorerError::InvalidIndices);
                }
                conv.push(*u as u32);
            },
            _ => {
                proof {
                    let v = series.values@[i as int];
                    if v is Null {
                    } else if v is Bool {
                    } else if v is Str {
                    } else {
                        assert(v is Float);
                    }
                    assert(!valid_index_cell(series@.values[i as int]));
                }
                return Err(ExplorerError::InvalidIndices);
            },
        }
        i += 1;
    }
    proof {
        assert(u32idx_view(conv@) =~= series_indices(series@.values));
    }
    df_slice_by_indices(df, conv, groups)
}

} // verus!
