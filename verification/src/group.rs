use vstd::prelude::*;

use crate::error::ExplorerError;
use crate::table::{find_column, Table, TableModel};
use crate::table_ops::idx_view;
use crate::value::{values_eq, Value, ValueModel};

verus! {

/// One group of the partition: the key the rows share and the positions
/// of those rows, in row order.
pub struct GroupEntry {
    pub key: Vec<Value>,
    pub rows: Vec<usize>,
}

/// The grouping key of row `i`: the row's cells at the grouping columns,
/// in grouping order.
pub open spec fn key_of(t: TableModel, cols: Seq<int>, i: int) -> Seq<ValueModel> {
    cols.map_values(|j: int| t.columns[j].values[i])
}

/// The grouping-column positions that a list of names resolves to.
pub open spec fn spec_resolve(t: TableModel, names: Seq<Seq<char>>) -> Seq<int> {
    names.map_values(|nm: Seq<char>| t.find_col(nm))
}

/// Whether every name resolves to a column of the table.
pub open spec fn all_found(t: TableModel, names: Seq<Seq<char>>) -> bool {
    forall|k: int| 0 <= k < names.len() ==> t.find_col(#[trigger] names[k]) >= 0
}

/// Whether some group of `groups` holds row `i`.
pub open spec fn covered(groups: Seq<Seq<int>>, i: int) -> bool {
    exists|g: int, a: int|
        0 <= g < groups.len() && 0 <= a < groups[g].len() && #[trigger] groups[g][a] == i
}

/// The stable partition of rows `0..m` by key: groups are non-empty,
/// internally in row order, keyed consistently, pairwise distinct in key,
/// emitted in the order their first row appears, and they cover `0..m`.
pub open spec fn is_stable_partition_upto(
    t: TableModel,
    cols: Seq<int>,
    groups: Seq<Seq<int>>,
    m: int,
) -> bool {
    &&& forall|g: int| 0 <= g < groups.len() ==> (#[trigger] groups[g]).len() > 0
    &&& forall|g: int, a: int, b: int|
        0 <= g < groups.len() && 0 <= a < b < groups[g].len() ==> #[trigger] groups[g][a]
            < #[trigger] groups[g][b]
    &&& forall|g: int, a: int|
        0 <= g < groups.len() && 0 <= a < groups[g].len() ==> 0 <= #[trigger] groups[g][a] < m
    &&& forall|i: int| 0 <= i < m ==> covered(groups, i)
    &&& forall|g: int, a: int|
        0 <= g < groups.len() && 0 <= a < groups[g].len() ==> key_of(t, cols, #[trigger] groups[g][a])
            == key_of(t, cols, groups[g][0])
    &&& forall|g1: int, g2: int|
        0 <= g1 < g2 < groups.len() ==> (#[trigger] groups[g1])[0] < (#[trigger] groups[g2])[0]
            && key_of(t, cols, groups[g1][0]) != key_of(t, cols, groups[g2][0])
}

/// The stable partition of a whole table.
pub open spec fn is_stable_partition(t: TableModel, cols: Seq<int>, groups: Seq<Seq<int>>) -> bool {
    is_stable_partition_upto(t, cols, groups, t.nrows() as int)
}

/// The row-position lists of the groups, in emitted order.
pub open spec fn rows_of(gs: Seq<GroupEntry>) -> Seq<Seq<int>> {
    gs.map_values(|e: GroupEntry| idx_view(e.rows@))
}

/// Resolves names to column positions; an absent name is the only
/// failure.
pub fn resolve_columns(t: &Table, names: &Vec<String>) -> (r: Result<Vec<usize>, ExplorerError>)
    ensures
        r is Ok <==> all_found(t@, names.deep_view()),
        r is Ok ==> idx_view(r->Ok_0@) == spec_resolve(t@, names.deep_view()) && r->Ok_0@.len()
            == names@.len() && (forall|k: int|
            0 <= k < names@.len() ==> (#[trigger] r->Ok_0@[k]) < t@.columns.len()),
        r is Err ==> r->Err_0 is ColumnNotFound,
{
    let mut out: Vec<usize> = Vec::new();
    let n = names.len();
    let mut i: usize = 0;
    while i < n
        invariant
            n == names.len(),
            i <= n,
            out.len() == i,
            forall|k: int| 0 <= k < i ==> t@.find_col(names.deep_view()[k]) >= 0,
            forall|k: int| 0 <= k < i ==> out@[k] == t@.find_col(names.deep_view()[k]),
            forall|k: int| 0 <= k < i ==> (#[trigger] out@[k]) < t@.columns.len(),
        decreases n - i,
    {
        match find_column(t, &names[i]) {
            Some(j) => {
                out.push(j);
            },
            None => {
                proof {
                    assert(names.deep_view()[i as int] == names@[i as int]@);
                    assert(t@.find_col(names.deep_view()[i as int]) < 0);
                }
                return Err(ExplorerError::ColumnNotFound(names[i].clone()));
            },
        }
        i += 1;
    }
    proof {
        assert(idx_view(out@) =~= spec_resolve(t@, names.deep_view()));
    }
    Ok(out)
}

/// The grouping key of row `i`, as cells.
fn build_key(t: &Table, cols: &Vec<usize>, i: usize) -> (r: Vec<Value>)
    requires
        t@.wf(),
        i < t@.nrows(),
        forall|k: int| 0 <= k < cols@.len() ==> (#[trigger] cols@[k]) < t@.columns.len(),
    ensures
        r.deep_view() == key_of(t@, idx_view(cols@), i as int),
{
    let mut out: Vec<Value> = Vec::new();
    let n = cols.len();
    let mut k: usize = 0;
    while k < n
        invariant
            t@.wf(),
            i < t@.nrows(),
            n == cols.len(),
            k <= n,
            out.len() == k,
            forall|a: int| 0 <= a < cols@.len() ==> (#[trigger] cols@[a]) < t@.columns.len(),
            forall|a: int| 0 <= a < k ==> out@[a]@ == t@.columns[cols@[a] as int].values[i as int],
        decreases n - k,
    {
        proof {
            assert(t@.columns[cols@[k as int] as int].values.len() == t@.nrows());
        }
        out.push(t.columns[cols[k]].values[i].dup());
        k += 1;
    }
    proof {
        let target = key_of(t@, idx_view(cols@), i as int);
        assert forall|a: int| 0 <= a < n implies out.deep_view()[a] == target[a] by {
            assert(out@[a]@ == t@.columns[cols@[a] as int].values[i as int]);
        }
        assert(out.deep_view() =~= target);
    }
    out
}

/// Partitions the table's rows by the named columns, groups emitted in
/// the order their key is first seen scanning rows top to bottom. Rows
/// share a group exactly when their key tuples are equal, null cells
/// equal to null cells. An absent name is the only failure.
pub fn stable_partition(t: &Table, group_names: &Vec<String>) -> (r: Result<
    Vec<GroupEntry>,
    ExplorerError,
>)
    requires
        t@.wf(),
    ensures
        r is Ok <==> all_found(t@, group_names.deep_view()),
        r is Ok ==> is_stable_partition(
            t@,
            spec_resolve(t@, group_names.deep_view()),
            rows_of(r->Ok_0@),
        ),
        r is Ok ==> (forall|g: int|
            0 <= g < r->Ok_0@.len() ==> (#[trigger] r->Ok_0@[g]).rows@.len() > 0
                && r->Ok_0@[g].key.deep_view() == key_of(
                t@,
                spec_resolve(t@, group_names.deep_view()),
                r->Ok_0@[g].rows@[0] as int,
            )),
        r is Err ==> r->Err_0 is ColumnNotFound,
{
    let cols = match resolve_columns(t, group_names) {
        Ok(c) => c,
        Err(e) => {
            return Err(e);
        },
    };
    let ghost colsv = idx_view(cols@);
    let n = crate::table::df_n_rows(t);
    let mut groups: Vec<GroupEntry> = Vec::new();
    let mut i: usize = 0;
    while i < n
        invariant
            t@.wf(),
            n == t@.nrows(),
            colsv == spec_resolve(t@, group_names.deep_view()),
            colsv == idx_view(cols@),
            forall|k: int| 0 <= k < cols@.len() ==> (#[trigger] cols@[k]) < t@.columns.len(),
            i <= n,
            is_stable_partition_upto(t@, colsv, rows_of(groups@), i as int),
            forall|g: int|
                0 <= g < groups@.len() ==> (#[trigger] groups@[g]).rows@.len() > 0
                    && groups@[g].key.deep_view() == key_of(t@, colsv, groups@[g].rows@[0] as int),
        decreases n - i,
    {
        let key = build_key(t, &cols, i);
        let ghost pre = groups@;
        let mut g: usize = 0;
        let glen = groups.len();
        let mut found = false;
        while g < glen && !found
            invariant
                glen == groups.len(),
                groups@ == pre,
                g <= glen,
                key.deep_view() == key_of(t@, colsv, i as int),
                forall|h: int|
                    0 <= h < groups@.len() ==> (#[trigger] groups@[h]).rows@.len() > 0
                        && groups@[h].key.deep_view() == key_of(
                        t@,
                        colsv,
                        groups@[h].rows@[0] as int,
                    ),
                !found ==> forall|h: int|
                    0 <= h < g ==> (#[trigger] groups@[h]).key.deep_view() != key.deep_view(),
                found ==> g < glen && groups@[g as int].key.deep_view() == key.deep_view(),
            decreases glen - g + (if found { 0int } else { 1int }),
        {
            if values_eq(&groups[g].key, &key) {
                found = true;
            } else {
                g += 1;
            }
        }
        if found {
            let mut e = groups.remove(g);
            e.rows.push(i);
            groups.insert(g, e);
            proof {
                assert(groups@ =~= pre.update(g as int, groups@[g as int]));
                lemma_extend_found(t@, colsv, pre, groups@, g as int, i as int);
            }
        } else {
            let mut rows: Vec<usize> = Vec::new();
            rows.push(i);
            groups.push(GroupEntry { key, rows });
            proof {
                lemma_extend_fresh(t@, colsv, pre, groups@, i as int);
            }
        }
        i += 1;
    }
    proof {
        assert(is_stable_partition_upto(t@, colsv, rows_of(groups@), n as int));
    }
    Ok(groups)
}

/// Appending row `i` to the matching group `g` keeps the partition
/// stable through `i + 1`.
proof fn lemma_extend_found(
    t: TableModel,
    cols: Seq<int>,
    pre: Seq<GroupEntry>,
    post: Seq<GroupEntry>,
    g: int,
    i: int,
)
    requires
        is_stable_partition_upto(t, cols, rows_of(pre), i),
        forall|h: int|
            0 <= h < pre.len() ==> (#[trigger] pre[h]).rows@.len() > 0 && pre[h].key.deep_view()
                == key_of(t, cols, pre[h].rows@[0] as int),
        0 <= g < pre.len(),
        key_of(t, cols, i) == pre[g].key.deep_view(),
        post.len() == pre.len(),
        post[g].key == pre[g].key,
        post[g].rows@ == pre[g].rows@.push(i as usize),
        forall|h: int| 0 <= h < pre.len() && h != g ==> post[h] == pre[h],
        0 <= i,
        i < usize::MAX,
    ensures
        is_stable_partition_upto(t, cols, rows_of(post), i + 1),
        forall|h: int|
            0 <= h < post.len() ==> (#[trigger] post[h]).rows@.len() > 0 && post[h].key.deep_view()
                == key_of(t, cols, post[h].rows@[0] as int),
{
    let rpre = rows_of(pre);
    let rpost = rows_of(post);
    assert forall|h: int| 0 <= h < post.len() implies rpost[h] == (if h == g {
        rpre[h].push(i)
    } else {
        rpre[h]
    }) by {
        if h == g {
            assert(idx_view(post[h].rows@) =~= idx_view(pre[h].rows@).push(i));
        }
    }
    assert(key_of(t, cols, rpre[g][0]) == key_of(t, cols, i));
    assert forall|x: int| 0 <= x < i + 1 implies covered(rpost, x) by {
        if x == i {
            assert(rpost[g] == rpre[g].push(i));
            assert(rpost[g][rpre[g].len() as int] == i);
        } else {
            assert(covered(rpre, x));
            let (g0, a0): (int, int) = choose|g0: int, a0: int|
                0 <= g0 < rpre.len() && 0 <= a0 < rpre[g0].len() && #[trigger] rpre[g0][a0] == x;
            if g0 == g {
                assert(rpost[g0] == rpre[g0].push(i));
            } else {
                assert(rpost[g0] == rpre[g0]);
            }
            assert(rpost[g0][a0] == x);
        }
    }
    assert forall|h: int, a: int|
        0 <= h < rpost.len() && 0 <= a < rpost[h].len() implies key_of(t, cols, #[trigger] rpost[h][a])
        == key_of(t, cols, rpost[h][0]) by {
        if h == g && a == rpre[g].len() {
            assert(rpost[h][a] == i);
            assert(rpost[h][0] == rpre[h][0]);
        } else {
            assert(rpost[h][a] == rpre[h][a]);
        }
    }
}

/// Opening a fresh group of the single row `i`, whose key no existing
/// group carries, keeps the partition stable through `i + 1`.
proof fn lemma_extend_fresh(
    t: TableModel,
    cols: Seq<int>,
    pre: Seq<GroupEntry>,
    post: Seq<GroupEntry>,
    i: int,
)
    requires
        is_stable_partition_upto(t, cols, rows_of(pre), i),
        forall|h: int|
            0 <= h < pre.len() ==> (#[trigger] pre[h]).rows@.len() > 0 && pre[h].key.deep_view()
                == key_of(t, cols, pre[h].rows@[0] as int),
        forall|h: int|
            0 <= h < pre.len() ==> (#[trigger] pre[h]).key.deep_view() != key_of(t, cols, i),
        post.len() == pre.len() + 1,
        forall|h: int| 0 <= h < pre.len() ==> post[h] == pre[h],
        post[pre.len() as int].key.deep_view() == key_of(t, cols, i),
        post[pre.len() as int].rows@ == seq![i as usize],
        0 <= i,
        i < usize::MAX,
    ensures
        is_stable_partition_upto(t, cols, rows_of(post), i + 1),
        forall|h: int|
            0 <= h < post.len() ==> (#[trigger] post[h]).rows@.len() > 0 && post[h].key.deep_view()
                == key_of(t, cols, post[h].rows@[0] as int),
{
    let rpre = rows_of(pre);
    let rpost = rows_of(post);
    let gnew = pre.len() as int;
    assert(idx_view(post[gnew].rows@) =~= seq![i]);
    assert forall|h: int| 0 <= h < pre.len() implies rpost[h] == rpre[h] by {
        assert(post[h] == pre[h]);
    }
    assert(rpost[gnew] == seq![i]);
    assert(rpost[gnew][0] == i);
    assert forall|x: int| 0 <= x < i + 1 implies covered(rpost, x) by {
        if x == i {
            assert(rpost[gnew][0] == i);
        } else {
            assert(covered(rpre, x));
            let (g0, a0): (int, int) = choose|g0: int, a0: int|
                0 <= g0 < rpre.len() && 0 <= a0 < rpre[g0].len() && #[trigger] rpre[g0][a0] == x;
            assert(rpost[g0] == rpre[g0]);
            assert(rpost[g0][a0] == x);
        }
    }
    assert forall|g1: int, g2: int| 0 <= g1 < g2 < rpost.len() implies (#[trigger] rpost[g1])[0]
        < (#[trigger] rpost[g2])[0] && key_of(t, cols, rpost[g1][0]) != key_of(
        t,
        cols,
        rpost[g2][0],
    ) by {
        if g2 == gnew {
            assert(rpost[g1] == rpre[g1]);
            assert(0 <= rpre[g1][0] < i);
            assert(pre[g1].key.deep_view() == key_of(t, cols, rpre[g1][0]));
        }
    }
}

/// The partition is a lossless, order-stable cover: every row position
/// of the table appears in exactly one place across the emitted groups,
/// and groups are emitted in the order of their first rows.
pub proof fn lemma_partition_is_lossless_cover(t: TableModel, cols: Seq<int>, groups: Seq<Seq<int>>)
    requires
        is_stable_partition(t, cols, groups),
    ensures
        forall|i: int| 0 <= i < t.nrows() ==> covered(groups, i),
        forall|g1: int, a1: int, g2: int, a2: int|
            0 <= g1 < groups.len() && 0 <= a1 < groups[g1].len() && 0 <= g2 < groups.len() && 0
                <= a2 < groups[g2].len() && #[trigger] groups[g1][a1] == #[trigger] groups[g2][a2]
                ==> g1 == g2 && a1 == a2,
        forall|g1: int, g2: int|
            0 <= g1 < g2 < groups.len() ==> (#[trigger] groups[g1])[0] < (#[trigger] groups[g2])[0],
{
    assert forall|g1: int, a1: int, g2: int, a2: int|
        0 <= g1 < groups.len() && 0 <= a1 < groups[g1].len() && 0 <= g2 < groups.len() && 0 <= a2
            < groups[g2].len() && #[trigger] groups[g1][a1] == #[trigger] groups[g2][a2] implies g1
        == g2 && a1 == a2 by {
        if g1 != g2 {
            assert(key_of(t, cols, groups[g1][a1]) == key_of(t, cols, groups[g1][0]));
            assert(key_of(t, cols, groups[g2][a2]) == key_of(t, cols, groups[g2][0]));
            if g1 < g2 {
                assert(key_of(t, cols, groups[g1][0]) != key_of(t, cols, groups[g2][0]));
            } else {
                assert(key_of(t, cols, groups[g2][0]) != key_of(t, cols, groups[g1][0]));
            }
        } else if a1 < a2 {
            assert(groups[g1][a1] < groups[g1][a2]);
        } else if a2 < a1 {
            assert(groups[g1][a2] < groups[g1][a1]);
        }
    }
}

/// The row positions of each stable group, in emitted order.
pub fn df_group_indices(t: &Table, groups: &Vec<String>) -> (r: Result<
    Vec<Vec<usize>>,
    ExplorerError,
>)
    requires
        t@.wf(),
    ensures
        r is Ok <==> all_found(t@, groups.deep_view()),
        r is Ok ==> is_stable_partition(
            t@,
            spec_resolve(t@, groups.deep_view()),
            r->Ok_0@.map_values(|v: Vec<usize>| idx_view(v@)),
        ),
        r is Err ==> r->Err_0 is ColumnNotFound,
{
    let parts = match stable_partition(t, groups) {
        Ok(p) => p,
        Err(e) => {
            return Err(e);
        },
    };
    let mut out: Vec<Vec<usize>> = Vec::new();
    let n = parts.len();
    let mut i: usize = 0;
    while i < n
        invariant
            n == parts.len(),
            i <= n,
            out.len() == i,
            forall|k: int| 0 <= k < i ==> out@[k]@ == parts@[k].rows@,
        decreases n - i,
    {
        let mut rows: Vec<usize> = Vec::new();
        let m = parts[i].rows.len();
        let mut j: usize = 0;
        while j < m
            invariant
                i < n == parts.len(),
                m == parts@[i as int].rows@.len(),
                j <= m,
                rows.len() == j,
                forall|k: int| 0 <= k < j ==> rows@[k] == parts@[i as int].rows@[k],
            decreases m - j,
        {
            rows.push(parts[i].rows[j]);
            j += 1;
        }
        proof {
            assert(rows@ =~= parts@[i as int].rows@);
        }
        out.push(rows);
        i += 1;
    }
    proof {
        assert(out@.map_values(|v: Vec<usize>| idx_view(v@)) =~= rows_of(parts@));
    }
    Ok(out)
}


/// Two strictly increasing position lists with the same members are
/// the same list.
proof fn lemma_incr_same_members(s1: Seq<int>, s2: Seq<int>)
    requires
        forall|a: int, b: int| 0 <= a < b < s1.len() ==> s1[a] < s1[b],
        forall|a: int, b: int| 0 <= a < b < s2.len() ==> s2[a] < s2[b],
        forall|x: int| s1.contains(x) <==> s2.contains(x),
    ensures
        s1 == s2,
    decreases s1.len(),
{
    if s1.len() == 0 {
        if s2.len() > 0 {
            assert(s2.contains(s2[0]));
            assert(s1.contains(s2[0]));
            assert(false);
        }
        assert(s1 =~= s2);
    } else {
        assert(s1.contains(s1[0]));
        assert(s2.contains(s1[0]));
        let i2 = choose|i: int| 0 <= i < s2.len() && s2[i] == s1[0];
        assert(s2.contains(s2[0]));
        assert(s1.contains(s2[0]));
        let i1 = choose|i: int| 0 <= i < s1.len() && s1[i] == s2[0];
        if i2 > 0 {
            assert(s2[0] < s2[i2]);
        }
        if i1 > 0 {
            assert(s1[0] < s1[i1]);
        }
        assert(s1[0] == s2[0]);
        let t1 = s1.drop_first();
        let t2 = s2.drop_first();
        assert forall|x: int| t1.contains(x) implies t2.contains(x) by {
            let j = choose|j: int| 0 <= j < t1.len() && t1[j] == x;
            assert(s1[j + 1] == x);
            assert(s1[0] < x);
            assert(s1.contains(x));
            assert(s2.contains(x));
            let j2 = choose|j: int| 0 <= j < s2.len() && s2[j] == x;
            assert(j2 != 0);
            assert(t2[j2 - 1] == x);
            assert(t2.contains(x));
        }
        assert forall|x: int| t2.contains(x) implies t1.contains(x) by {
            let j = choose|j: int| 0 <= j < t2.len() && t2[j] == x;
            assert(s2[j + 1] == x);
            assert(s2[0] < x);
            assert(s2.contains(x));
            assert(s1.contains(x));
            let j1 = choose|j: int| 0 <= j < s1.len() && s1[j] == x;
            assert(j1 != 0);
            assert(t1[j1 - 1] == x);
            assert(t1.contains(x));
        }
        assert forall|a: int, b: int| 0 <= a < b < t1.len() implies t1[a] < t1[b] by {
            assert(t1[a] == s1[a + 1] && t1[b] == s1[b + 1]);
        }
        assert forall|a: int, b: int| 0 <= a < b < t2.len() implies t2[a] < t2[b] by {
            assert(t2[a] == s2[a + 1] && t2[b] == s2[b + 1]);
        }
        lemma_incr_same_members(t1, t2);
        assert(s1.len() == t1.len() + 1 && s2.len() == t2.len() + 1);
        assert forall|i: int| 0 <= i < s1.len() implies s1[i] == s2[i] by {
            if i > 0 {
                assert(s1[i] == t1[i - 1]);
                assert(s2[i] == t2[i - 1]);
            }
        }
        assert(s1 =~= s2);
    }
}

/// A stable group holds exactly the rows bearing its key.
proof fn lemma_group_members(t: TableModel, cols: Seq<int>, gs: Seq<Seq<int>>, g: int)
    requires
        is_stable_partition(t, cols, gs),
        0 <= g < gs.len(),
    ensures
        forall|x: int|
            gs[g].contains(x) <==> (0 <= x < t.nrows() && key_of(t, cols, x) == key_of(
                t,
                cols,
                gs[g][0],
            )),
{
    assert forall|x: int|
        gs[g].contains(x) <==> (0 <= x < t.nrows() && key_of(t, cols, x) == key_of(
        t,
        cols,
        gs[g][0],
    )) by {
        if gs[g].contains(x) {
            let a = choose|a: int| 0 <= a < gs[g].len() && gs[g][a] == x;
            assert(0 <= gs[g][a] < t.nrows());
            assert(key_of(t, cols, gs[g][a]) == key_of(t, cols, gs[g][0]));
        }
        if 0 <= x < t.nrows() && key_of(t, cols, x) == key_of(t, cols, gs[g][0]) {
            assert(covered(gs, x));
            let (g2, a2): (int, int) = choose|g2: int, a2: int|
                0 <= g2 < gs.len() && 0 <= a2 < gs[g2].len() && #[trigger] gs[g2][a2] == x;
            assert(key_of(t, cols, gs[g2][a2]) == key_of(t, cols, gs[g2][0]));
            if g2 < g {
                assert(key_of(t, cols, gs[g2][0]) != key_of(t, cols, gs[g][0]));
                assert(false);
            } else if g2 > g {
                assert(key_of(t, cols, gs[g][0]) != key_of(t, cols, gs[g2][0]));
                assert(false);
            }
            assert(gs[g].contains(x));
        }
    }
}

/// Matching prefixes of two stable partitions of the same table and
/// keys: every group before `g` agrees.
proof fn lemma_partition_prefix(
    t: TableModel,
    cols: Seq<int>,
    gs: Seq<Seq<int>>,
    hs: Seq<Seq<int>>,
    g: int,
)
    requires
        is_stable_partition(t, cols, gs),
        is_stable_partition(t, cols, hs),
        0 <= g <= gs.len(),
    ensures
        forall|h: int| 0 <= h < g ==> h < hs.len() && gs[h] == hs[h],
    decreases g,
{
    if g > 0 {
        lemma_partition_prefix(t, cols, gs, hs, g - 1);
        let gg = g - 1;
        let f = gs[gg][0];
        assert(covered(gs, f)) by {
            assert(gs[gg][0] == f);
        }
        assert(0 <= f < t.nrows());
        assert(covered(hs, f));
        let (g2, a2): (int, int) = choose|g2: int, a2: int|
            0 <= g2 < hs.len() && 0 <= a2 < hs[g2].len() && #[trigger] hs[g2][a2] == f;
        lemma_group_members(t, cols, gs, gg);
        lemma_group_members(t, cols, hs, g2);
        assert(key_of(t, cols, hs[g2][a2]) == key_of(t, cols, hs[g2][0]));
        assert(key_of(t, cols, f) == key_of(t, cols, hs[g2][0]));
        assert forall|x: int| gs[gg].contains(x) <==> hs[g2].contains(x) by {
            assert(gs[gg].contains(x) <==> (0 <= x < t.nrows() && key_of(t, cols, x) == key_of(
                t,
                cols,
                gs[gg][0],
            )));
            assert(hs[g2].contains(x) <==> (0 <= x < t.nrows() && key_of(t, cols, x) == key_of(
                t,
                cols,
                hs[g2][0],
            )));
            assert(key_of(t, cols, gs[gg][0]) == key_of(t, cols, hs[g2][0]));
        }
        lemma_incr_same_members(gs[gg], hs[g2]);
        assert(gs[gg] == hs[g2]);
        assert(hs[g2][0] == f);
        if g2 < gg {
            assert(gs[g2] == hs[g2]);
            assert(gs[g2][0] == gs[gg][0]);
            assert(gs[g2][0] < gs[gg][0]);
            assert(false);
        } else if g2 > gg {
            assert(gg < hs.len());
            let f2 = hs[gg][0];
            assert(hs[gg][0] < hs[g2][0]);
            assert(f2 < f);
            assert(covered(hs, f2)) by {
                assert(hs[gg][0] == f2);
            }
            assert(0 <= f2 < t.nrows());
            assert(covered(gs, f2));
            let (g3, a3): (int, int) = choose|g3: int, a3: int|
                0 <= g3 < gs.len() && 0 <= a3 < gs[g3].len() && #[trigger] gs[g3][a3] == f2;
            lemma_group_members(t, cols, gs, g3);
            lemma_group_members(t, cols, hs, gg);
            assert(key_of(t, cols, gs[g3][a3]) == key_of(t, cols, gs[g3][0]));
            assert forall|x: int| gs[g3].contains(x) <==> hs[gg].contains(x) by {
                assert(key_of(t, cols, gs[g3][0]) == key_of(t, cols, hs[gg][0]));
            }
            lemma_incr_same_members(gs[g3], hs[gg]);
            assert(gs[g3] == hs[gg]);
            assert(gs[g3][0] == f2);
            if g3 < gg {
                assert(gs[g3] == hs[g3]);
                assert(hs[g3] == hs[gg]);
                assert(hs[g3][0] < hs[gg][0]);
                assert(false);
            } else if g3 == gg {
                assert(gs[gg][0] == f2);
                assert(f2 < f);
                assert(false);
            } else {
                assert(gs[gg][0] < gs[g3][0]);
                assert(f < f2);
                assert(false);
            }
        }
        assert(g2 == gg);
        assert(gg < hs.len() && gs[gg] == hs[gg]);
    }
}

/// For one table and one key-column list the stable partition is
/// unique: any two sequences of groups satisfying it are equal, group
/// for group. With the grouper's contract this pins every
/// partition-shaped result — in particular, two runs of the pivot on
/// the same input build their cells from the same groups.
pub proof fn lemma_partition_unique(
    t: TableModel,
    cols: Seq<int>,
    gs: Seq<Seq<int>>,
    hs: Seq<Seq<int>>,
)
    requires
        is_stable_partition(t, cols, gs),
        is_stable_partition(t, cols, hs),
    ensures
        gs == hs,
{
    lemma_partition_prefix(t, cols, gs, hs, gs.len() as int);
    lemma_partition_prefix(t, cols, hs, gs, hs.len() as int);
    assert(gs.len() == hs.len()) by {
        if gs.len() < hs.len() {
            assert(gs.len() < hs.len() && hs[gs.len() as int] == gs[gs.len() as int]);
            assert(false);
        }
        if hs.len() < gs.len() {
            assert(hs.len() < gs.len() && gs[hs.len() as int] == hs[hs.len() as int]);
            assert(false);
        }
    }
    assert(gs =~= hs);
}

} // verus!
