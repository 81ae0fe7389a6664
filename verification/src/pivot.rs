use vstd::prelude::*;

use crate::error::ExplorerError;
use crate::num_str::{dec_str, push_dec, u64_to_dec_string};
use crate::table::{Column, ColumnModel, Table, TableModel};
use crate::value::{Value, ValueModel};
use vstd::pervasive::VecAdditionalExecFns;
use vstd::string::StringExecFns;

verus! {

/// The word a missing pivot key renders as before remapping.
pub open spec fn null_name() -> Seq<char> {
    seq!['n', 'u', 'l', 'l']
}

/// The sentinel it is remapped to.
pub open spec fn nil_name() -> Seq<char> {
    seq!['n', 'i', 'l']
}

/// One step of the collision-resolution pass over an ordered name list,
/// carrying the per-name collision counter.
///
/// A name seen before is prefixed when a prefix is configured; if that
/// changes nothing, it takes a `_<count>` suffix instead, counted per
/// base name; the chosen name's own counter is then started or bumped.
/// A fresh name that is not an identifier has a literal `null` remapped
/// to `nil` and the prefix applied; identifiers keep their name. Either
/// way the chosen name's counter is set to one.
pub open spec fn resolve_step(
    names_acc: Seq<Seq<char>>,
    counter: Map<Seq<char>, int>,
    name: Seq<char>,
    ids: Seq<Seq<char>>,
    prefix: Option<Seq<char>>,
) -> (Seq<Seq<char>>, Map<Seq<char>, int>) {
    if counter.dom().contains(name) {
        let c = counter[name];
        let n1 = if prefix is Some {
            prefix->0 + name
        } else {
            name
        };
        let n2 = if n1 == name {
            name + seq!['_'] + dec_str(c as nat)
        } else {
            n1
        };
        let bumped = if counter.dom().contains(n2) {
            counter.insert(n2, counter[n2] + 1)
        } else {
            counter.insert(n2, 1)
        };
        (names_acc.push(n2), bumped)
    } else {
        if !ids.contains(name) {
            let n0 = if name == null_name() {
                nil_name()
            } else {
                name
            };
            let n1 = if prefix is Some {
                prefix->0 + n0
            } else {
                n0
            };
            (names_acc.push(n1), counter.insert(n1, 1))
        } else {
            (names_acc.push(name), counter.insert(name, 1))
        }
    }
}

/// The pass folded over the first `i` names.
pub open spec fn resolve_fold(
    names: Seq<Seq<char>>,
    i: int,
    ids: Seq<Seq<char>>,
    prefix: Option<Seq<char>>,
) -> (Seq<Seq<char>>, Map<Seq<char>, int>)
    decreases i,
{
    if i <= 0 {
        (Seq::empty(), Map::empty())
    } else {
        let prev = resolve_fold(names, i - 1, ids, prefix);
        resolve_step(prev.0, prev.1, names[i - 1], ids, prefix)
    }
}

/// The final name list the pass assigns, left to right.
pub open spec fn resolved_names(
    names: Seq<Seq<char>>,
    ids: Seq<Seq<char>>,
    prefix: Option<Seq<char>>,
) -> Seq<Seq<char>> {
    resolve_fold(names, names.len() as int, ids, prefix).0
}

/// The collision pass is deterministic: the names it assigns are a
/// function of the raw name list, the identifier names and the prefix
/// alone, so two runs over the same input agree name for name, with no
/// dependence on any iteration order.
pub proof fn lemma_collision_pass_deterministic(
    names: Seq<Seq<char>>,
    ids: Seq<Seq<char>>,
    prefix: Option<Seq<char>>,
    r1: Seq<Seq<char>>,
    r2: Seq<Seq<char>>,
)
    requires
        r1 == resolved_names(names, ids, prefix),
        r2 == resolved_names(names, ids, prefix),
    ensures
        r1 == r2,
{
}

/// The counter as stored: one entry per counted name.
pub open spec fn cmap(entries: Seq<(String, u64)>) -> Map<Seq<char>, int>
    decreases entries.len(),
{
    if entries.len() == 0 {
        Map::empty()
    } else {
        cmap(entries.drop_last()).insert(entries.last().0@, entries.last().1 as int)
    }
}

/// Unique stored keys make the stored entries and the map agree.
proof fn lemma_cmap_props(entries: Seq<(String, u64)>)
    requires
        forall|a: int, b: int| 0 <= a < b < entries.len() ==> entries[a].0@ != entries[b].0@,
    ensures
        forall|k: int|
            0 <= k < entries.len() ==> cmap(entries).dom().contains((#[trigger] entries[k]).0@)
                && cmap(entries)[entries[k].0@] == entries[k].1 as int,
        forall|n: Seq<char>|
            cmap(entries).dom().contains(n) ==> exists|k: int|
                0 <= k < entries.len() && (#[trigger] entries[k]).0@ == n,
    decreases entries.len(),
{
    if entries.len() > 0 {
        let prev = entries.drop_last();
        lemma_cmap_props(prev);
        assert forall|k: int|
            0 <= k < entries.len() implies cmap(entries).dom().contains((#[trigger] entries[k]).0@)
            && cmap(entries)[entries[k].0@] == entries[k].1 as int by {
            if k < entries.len() - 1 {
                assert(prev[k] == entries[k]);
                assert(entries[k].0@ != entries.last().0@);
            }
        }
        assert forall|n: Seq<char>| cmap(entries).dom().contains(n) implies exists|k: int|
            0 <= k < entries.len() && (#[trigger] entries[k]).0@ == n by {
            if n != entries.last().0@ {
                assert(cmap(prev).dom().contains(n));
                let k0 = choose|k: int| 0 <= k < prev.len() && (#[trigger] prev[k]).0@ == n;
                assert(entries[k0] == prev[k0]);
                assert(entries[k0].0@ == n);
            } else {
                assert(entries[entries.len() - 1].0@ == n);
            }
        }
    }
}

/// What the stored counter holds for a name, if anything.
fn counter_get(entries: &Vec<(String, u64)>, name: &String) -> (r: Option<u64>)
    requires
        forall|a: int, b: int| 0 <= a < b < entries@.len() ==> entries@[a].0@ != entries@[b].0@,
    ensures
        match r {
            Some(v) => cmap(entries@).dom().contains(name@) && cmap(entries@)[name@] == v as int,
            None => !cmap(entries@).dom().contains(name@),
        },
{
    proof {
        lemma_cmap_props(entries@);
    }
    let n = entries.len();
    let mut i: usize = 0;
    while i < n
        invariant
            n == entries@.len(),
            i <= n,
            forall|a: int, b: int| 0 <= a < b < entries@.len() ==> entries@[a].0@ != entries@[b].0@,
            forall|k: int| 0 <= k < i ==> (#[trigger] entries@[k]).0@ != name@,
        decreases n - i,
    {
        if entries[i].0.eq(name) {
            proof {
                lemma_cmap_props(entries@);
            }
            return Some(entries[i].1);
        }
        i += 1;
    }
    proof {
        lemma_cmap_props(entries@);
        if cmap(entries@).dom().contains(name@) {
            let k0 = choose|k: int| 0 <= k < entries@.len() && (#[trigger] entries@[k]).0@ == name@;
            assert(false);
        }
    }
    None
}

/// The counter map after overwriting one stored entry.
proof fn lemma_cmap_update(entries: Seq<(String, u64)>, k: int, e: (String, u64))
    requires
        forall|a: int, b: int| 0 <= a < b < entries.len() ==> entries[a].0@ != entries[b].0@,
        0 <= k < entries.len(),
        entries[k].0@ == e.0@,
    ensures
        cmap(entries.update(k, e)) =~= cmap(entries).insert(e.0@, e.1 as int),
    decreases entries.len(),
{
    let upd = entries.update(k, e);
    if k == entries.len() - 1 {
        assert(upd.drop_last() =~= entries.drop_last());
    } else {
        lemma_cmap_props(entries.drop_last());
        lemma_cmap_update(entries.drop_last(), k, e);
        assert(upd.drop_last() =~= entries.drop_last().update(k, e));
        assert(upd.last() == entries.last());
        assert(entries.last().0@ != e.0@);
    }
}

/// Sets a name's count, keeping one entry per name.
fn counter_set(entries: &mut Vec<(String, u64)>, name: &String, v: u64)
    requires
        forall|a: int, b: int|
            0 <= a < b < old(entries)@.len() ==> old(entries)@[a].0@ != old(entries)@[b].0@,
    ensures
        forall|a: int, b: int|
            0 <= a < b < final(entries)@.len() ==> final(entries)@[a].0@ != final(entries)@[b].0@,
        cmap(final(entries)@) == cmap(old(entries)@).insert(name@, v as int),
        forall|k: int|
            0 <= k < final(entries)@.len() ==> ((#[trigger] final(entries)@[k]).1 == v || (k < old(
                entries,
            )@.len() && final(entries)@[k].1 == old(entries)@[k].1)),
{
    let n = entries.len();
    let mut i: usize = 0;
    while i < n
        invariant
            n == entries@.len(),
            entries@ == old(entries)@,
            forall|a: int, b: int|
                0 <= a < b < entries@.len() ==> entries@[a].0@ != entries@[b].0@,
            i <= n,
            forall|k: int| 0 <= k < i ==> (#[trigger] entries@[k]).0@ != name@,
        decreases n - i,
    {
        if entries[i].0.eq(name) {
            let ghost pre = entries@;
            entries.set(i, (name.clone(), v));
            proof {
                let e = entries@[i as int];
                assert(e.0@ == name@ && e.1 == v);
                lemma_cmap_update(pre, i as int, e);
                assert forall|a: int, b: int|
                    0 <= a < b < entries@.len() implies entries@[a].0@ != entries@[b].0@ by {
                    if a != i && b != i {
                        assert(entries@[a] == pre[a] && entries@[b] == pre[b]);
                    } else if a == i {
                        assert(entries@[b] == pre[b] && pre[a].0@ == name@);
                    } else {
                        assert(entries@[a] == pre[a] && pre[b].0@ == name@);
                    }
                }
                assert(cmap(entries@) =~= cmap(pre).insert(name@, v as int));
            }
            return ;
        }
        i += 1;
    }
    let ghost pre = entries@;
    entries.push((name.clone(), v));
    proof {
        assert(entries@.drop_last() =~= pre);
        assert(cmap(entries@) =~= cmap(pre).insert(name@, v as int));
        assert forall|a: int, b: int|
            0 <= a < b < entries@.len() implies entries@[a].0@ != entries@[b].0@ by {
            if b == entries@.len() - 1 {
                assert(pre[a].0@ != name@);
            } else {
                assert(entries@[a] == pre[a] && entries@[b] == pre[b]);
            }
        }
    }
}

/// Whether a list of names holds one with this text.
pub(crate) fn names_contain(names: &Vec<String>, name: &String) -> (r: bool)
    ensures
        r == names.deep_view().contains(name@),
{
    let n = names.len();
    let mut i: usize = 0;
    while i < n
        invariant
            n == names@.len(),
            i <= n,
            forall|k: int| 0 <= k < i ==> names.deep_view()[k] != name@,
        decreases n - i,
    {
        if names[i].eq(name) {
            proof {
                assert(names.deep_view()[i as int] == name@);
            }
            return true;
        }
        i += 1;
    }
    proof {
        if names.deep_view().contains(name@) {
            let k0 = choose|k: int| 0 <= k < names.deep_view().len() && names.deep_view()[k] == name@;
            assert(false);
        }
    }
    false
}

/// Runs the deterministic collision-resolution pass over an ordered
/// name list: the result is a pure function of the list, the identifier
/// names and the optional prefix.
pub fn resolve_collision_names(
    names: &Vec<String>,
    id_columns: &Vec<String>,
    names_prefix: &Option<String>,
) -> (r: Vec<String>)
    ensures
        r.deep_view() == resolved_names(
            names.deep_view(),
            id_columns.deep_view(),
            match names_prefix {
                Some(p) => Some(p@),
                None => None,
            },
        ),
{
    let ghost namesv = names.deep_view();
    let ghost idsv = id_columns.deep_view();
    let ghost prefv: Option<Seq<char>> = match names_prefix {
        Some(p) => Some(p@),
        None => None,
    };
    let mut out: Vec<String> = Vec::new();
    let mut counter: Vec<(String, u64)> = Vec::new();
    let n = names.len();
    let mut i: usize = 0;
    while i < n
        invariant
            n == names@.len(),
            namesv == names.deep_view(),
            idsv == id_columns.deep_view(),
            prefv == (match names_prefix {
                Some(p) => Some(p@),
                None => None::<Seq<char>>,
            }),
            i <= n,
            forall|a: int, b: int| 0 <= a < b < counter@.len() ==> counter@[a].0@ != counter@[b].0@,
            forall|k: int| 0 <= k < counter@.len() ==> (#[trigger] counter@[k]).1 as int <= i,
            (out.deep_view(), cmap(counter@)) == resolve_fold(namesv, i as int, idsv, prefv),
        decreases n - i,
    {
        let ghost st = resolve_fold(namesv, i as int, idsv, prefv);
        let name = names[i].clone();
        proof {
            assert(name@ == namesv[i as int]);
        }
        match counter_get(&counter, &name) {
            Some(c) => {
                let n1 = match names_prefix {
                    Some(p) => {
                        let mut s = p.clone();
                        s.append(name.as_str());
                        s
                    },
                    None => name.clone(),
                };
                let n2 = if n1.eq(&name) {
                    let mut s = name.clone();
                    s.append("_");
                    push_dec(&mut s, c);
                    proof {
                        reveal_strlit("_");
                        assert(s@ =~= name@ + seq!['_'] + dec_str(c as nat));
                    }
                    s
                } else {
                    n1
                };
                let bumped = match counter_get(&counter, &n2) {
                    Some(c2) => {
                        proof {
                            lemma_cmap_props(counter@);
                            let k0 = choose|k: int|
                                0 <= k < counter@.len() && (#[trigger] counter@[k]).0@ == n2@;
                            assert(counter@[k0].1 as int == c2 as int);
                            assert(c2 as int <= i as int);
                        }
                        c2 + 1
                    },
                    None => 1,
                };
                counter_set(&mut counter, &n2, bumped);
                out.push(n2);
                proof {
                    assert(out.deep_view() =~= st.0.push(out@.last()@));
                    assert((out.deep_view(), cmap(counter@)) == resolve_step(
                        st.0,
                        st.1,
                        namesv[i as int],
                        idsv,
                        prefv,
                    ));
                }
            },
            None => {
                let is_id = names_contain(id_columns, &name);
                let nullword = String::from_str("null");
                proof {
                    reveal_strlit("null");
                    assert(nullword@ =~= null_name());
                }
                let chosen = if !is_id {
                    let n0 = if name.eq(&nullword) {
                        let nilword = String::from_str("nil");
                        proof {
                            reveal_strlit("nil");
                            assert(nilword@ =~= nil_name());
                        }
                        nilword
                    } else {
                        name.clone()
                    };
                    match names_prefix {
                        Some(p) => {
                            let mut s = p.clone();
                            s.append(n0.as_str());
                            s
                        },
                        None => n0,
                    }
                } else {
                    name.clone()
                };
                counter_set(&mut counter, &chosen, 1);
                out.push(chosen);
                proof {
                    assert(out.deep_view() =~= st.0.push(out@.last()@));
                    assert((out.deep_view(), cmap(counter@)) == resolve_step(
                        st.0,
                        st.1,
                        namesv[i as int],
                        idsv,
                        prefv,
                    ));
                }
            },
        }
        i += 1;
    }
    proof {
        assert(out.deep_view() == resolved_names(namesv, idsv, prefv));
    }
    out
}


/// The decimal rendering of a signed integer.
pub open spec fn int_str(i: int) -> Seq<char> {
    if i < 0 {
        seq!['-'] + dec_str((-i) as nat)
    } else {
        dec_str(i as nat)
    }
}

/// Whether a pivot key cell can be rendered as a column name.
pub open spec fn can_name(v: ValueModel) -> bool {
    !(v is Float)
}

/// The column name a pivot key cell renders as: its text for a string,
/// its decimal rendering for an integer, `true`/`false` for a boolean,
/// and `null` for a missing key.
pub open spec fn key_name(v: ValueModel) -> Seq<char> {
    match v {
        ValueModel::Null => null_name(),
        ValueModel::Bool(b) => if b {
            seq!['t', 'r', 'u', 'e']
        } else {
            seq!['f', 'a', 'l', 's', 'e']
        },
        ValueModel::Int(i) => int_str(i as int),
        ValueModel::UInt(u) => dec_str(u as nat),
        ValueModel::Str(t) => t,
        ValueModel::Float(_) => Seq::empty(),
    }
}

/// Renders a pivot key cell as a column name; a floating-point key is
/// the only refusal.
fn render_key(v: &Value) -> (r: Result<String, ExplorerError>)
    ensures
        r is Ok <==> can_name(v@),
        r is Ok ==> r->Ok_0@ == key_name(v@),
        r is Err ==> r->Err_0 is UnsupportedPivotKey,
{
    match v {
        Value::Null => {
            let s = String::from_str("null");
            proof {
                reveal_strlit("null");
                assert(s@ =~= null_name());
            }
            Ok(s)
        },
        Value::Bool(b) => {
            if *b {
                let s = String::from_str("true");
                proof {
                    reveal_strlit("true");
                    assert(s@ =~= seq!['t', 'r', 'u', 'e']);
                }
                Ok(s)
            } else {
                let s = String::from_str("false");
                proof {
                    reveal_strlit("false");
                    assert(s@ =~= seq!['f', 'a', 'l', 's', 'e']);
                }
                Ok(s)
            }
        },
        Value::Int(i) => {
            if *i < 0 {
                let mag: u64 = (-(*i as i128)) as u64;
                let mut s = String::from_str("-");
                proof {
                    reveal_strlit("-");
                    assert(s@ =~= seq!['-']);
                }
                push_dec(&mut s, mag);
                proof {
                    assert(s@ =~= int_str(*i as int));
                }
                Ok(s)
            } else {
                Ok(u64_to_dec_string(*i as u64))
            }
        },
        Value::UInt(u) => Ok(u64_to_dec_string(*u)),
        Value::Str(t) => Ok(t.clone()),
        Value::Float(_) => Err(ExplorerError::UnsupportedPivotKey),
    }
}

/// The distinct cells of a sequence, each at its first occurrence, in
/// occurrence order.
pub open spec fn distinct_first_seen(s: Seq<ValueModel>) -> Seq<ValueModel>
    decreases s.len(),
{
    if s.len() == 0 {
        Seq::empty()
    } else {
        let prev = distinct_first_seen(s.drop_last());
        if prev.contains(s.last()) {
            prev
        } else {
            prev.push(s.last())
        }
    }
}

/// Whether the cells hold one with this model.
fn contains_value(vs: &Vec<Value>, v: &Value) -> (r: bool)
    ensures
        r == vs.deep_view().contains(v@),
{
    let n = vs.len();
    let mut i: usize = 0;
    while i < n
        invariant
            n == vs@.len(),
            i <= n,
            forall|k: int| 0 <= k < i ==> vs.deep_view()[k] != v@,
        decreases n - i,
    {
        if vs[i].eq_value(v) {
            proof {
                assert(vs.deep_view()[i as int] == v@);
            }
            return true;
        }
        i += 1;
    }
    proof {
        if vs.deep_view().contains(v@) {
            let k0 = choose|k: int| 0 <= k < vs.deep_view().len() && vs.deep_view()[k] == v@;
            assert(false);
        }
    }
    false
}

/// The distinct cells of `vals` in first-seen order.
fn distinct_keys(vals: &Vec<Value>) -> (r: Vec<Value>)
    ensures
        r.deep_view() == distinct_first_seen(vals.deep_view()),
{
    let mut out: Vec<Value> = Vec::new();
    let n = vals.len();
    let mut i: usize = 0;
    while i < n
        invariant
            n == vals@.len(),
            i <= n,
            out.deep_view() == distinct_first_seen(vals.deep_view().take(i as int)),
        decreases n - i,
    {
        let ghost pre = vals.deep_view().take(i as int);
        proof {
            assert(vals.deep_view().take(i + 1).drop_last() =~= pre);
            assert(vals.deep_view().take(i + 1).last() == vals.deep_view()[i as int]);
            assert(vals.deep_view()[i as int] == vals@[i as int]@);
        }
        if !contains_value(&out, &vals[i]) {
            out.push(vals[i].dup());
            proof {
                assert(out.deep_view() =~= distinct_first_seen(vals.deep_view().take(i + 1)));
            }
        } else {
            proof {
                assert(out.deep_view() =~= distinct_first_seen(vals.deep_view().take(i + 1)));
            }
        }
        i += 1;
    }
    proof {
        assert(vals.deep_view().take(n as int) =~= vals.deep_view());
    }
    out
}

/// The first cell of the value column among `rows` whose pivot cell
/// equals `key`; missing when no row of the group carries the key.
pub open spec fn first_match_cell(
    t: TableModel,
    rows: Seq<int>,
    pcol: int,
    vcol: int,
    key: ValueModel,
) -> ValueModel
    decreases rows.len(),
{
    if rows.len() == 0 {
        ValueModel::Null
    } else if t.columns[pcol].values[rows[0]] == key {
        t.columns[vcol].values[rows[0]]
    } else {
        first_match_cell(t, rows.drop_first(), pcol, vcol, key)
    }
}

/// Scans a group's rows for the first pivot match, top to bottom.
fn first_match(t: &Table, rows: &Vec<usize>, pcol: usize, vcol: usize, key: &Value) -> (r: Value)
    requires
        t@.wf(),
        pcol < t@.columns.len(),
        vcol < t@.columns.len(),
        forall|k: int| 0 <= k < rows@.len() ==> (#[trigger] rows@[k]) < t@.nrows(),
    ensures
        r@ == first_match_cell(t@, crate::table_ops::idx_view(rows@), pcol as int, vcol as int, key@),
{
    let ghost rowsv = crate::table_ops::idx_view(rows@);
    proof {
        assert(rowsv.skip(0) =~= rowsv);
    }
    let n = rows.len();
    let mut j: usize = 0;
    while j < n
        invariant
            t@.wf(),
            pcol < t@.columns.len(),
            vcol < t@.columns.len(),
            n == rows@.len(),
            rowsv == crate::table_ops::idx_view(rows@),
            forall|k: int| 0 <= k < rows@.len() ==> (#[trigger] rows@[k]) < t@.nrows(),
            j <= n,
            first_match_cell(t@, rowsv.skip(j as int), pcol as int, vcol as int, key@)
                == first_match_cell(t@, rowsv, pcol as int, vcol as int, key@),
        decreases n - j,
    {
        proof {
            assert(t@.columns[pcol as int].values.len() == t@.nrows());
            assert(t@.columns[vcol as int].values.len() == t@.nrows());
            assert(rowsv.skip(j as int)[0] == rowsv[j as int]);
            assert(rowsv.skip(j as int).drop_first() =~= rowsv.skip(j + 1));
        }
        if t.columns[pcol].values[rows[j]].eq_value(key) {
            proof {
                assert(t@.columns[pcol as int].values[rowsv[j as int]] == key@);
            }
            return t.columns[vcol].values[rows[j]].dup();
        }
        j += 1;
    }
    proof {
        assert(rowsv.skip(n as int) =~= Seq::<int>::empty());
    }
    Value::Null
}


/// The raw generated name of synthesized column `x`: the rendered key,
/// prefixed by its value column's name when several value columns are
/// pivoted.
pub open spec fn pivot_gen_name(t: TableModel, vcols: Seq<int>, dk: Seq<ValueModel>, x: int) -> Seq<
    char,
> {
    let v = x / dk.len() as int;
    let k = x % dk.len() as int;
    if vcols.len() == 1 {
        key_name(dk[k])
    } else {
        t.columns[vcols[v]].name + seq!['_'] + key_name(dk[k])
    }
}

/// The raw name list entering the collision pass: identifier names,
/// then one generated name per (value column x distinct key), value
/// columns outermost.
pub open spec fn pivot_raw_names(
    t: TableModel,
    idcols: Seq<int>,
    vcols: Seq<int>,
    dk: Seq<ValueModel>,
) -> Seq<Seq<char>> {
    Seq::new(idcols.len(), |j: int| t.columns[idcols[j]].name) + Seq::new(
        vcols.len() * dk.len(),
        |x: int| pivot_gen_name(t, vcols, dk, x),
    )
}

/// The cell lists of the wide table, one per output column: identifier
/// cells are each group's first-row cells; a synthesized column holds
/// each group's first matching value, missing when the group never
/// carries the key.
pub open spec fn pivot_raw_values(
    t: TableModel,
    idcols: Seq<int>,
    pcol: int,
    vcols: Seq<int>,
    gs: Seq<Seq<int>>,
    dk: Seq<ValueModel>,
) -> Seq<Seq<ValueModel>> {
    Seq::new(
        idcols.len(),
        |j: int| Seq::new(gs.len(), |g: int| t.columns[idcols[j]].values[gs[g][0]]),
    ) + Seq::new(
        vcols.len() * dk.len(),
        |x: int|
            Seq::new(
                gs.len(),
                |g: int|
                    first_match_cell(
                        t,
                        gs[g],
                        pcol,
                        vcols[x / dk.len() as int],
                        dk[x % dk.len() as int],
                    ),
            ),
    )
}

/// Columns zipped from a name list and a cell-list list.
pub open spec fn named_columns(names: Seq<Seq<char>>, values: Seq<Seq<ValueModel>>) -> Seq<
    ColumnModel,
> {
    Seq::new(values.len(), |j: int| ColumnModel { name: names[j], values: values[j] })
}

/// Whether a name list repeats nothing.
pub open spec fn distinct_names(names: Seq<Seq<char>>) -> bool {
    forall|a: int, b: int| 0 <= a < b < names.len() ==> names[a] != names[b]
}

/// Whether every cell of the pivot column can be rendered as a name.
pub open spec fn pivot_keys_nameable(t: TableModel, pname: Seq<char>) -> bool {
    forall|k: int|
        0 <= k < t.columns[t.find_col(pname)].values.len() ==> can_name(
            #[trigger] t.columns[t.find_col(pname)].values[k],
        )
}

/// The final name list of the pivot, after the collision pass.
pub open spec fn pivot_final_names(
    t: TableModel,
    idsn: Seq<Seq<char>>,
    pname: Seq<char>,
    vsn: Seq<Seq<char>>,
    prefix: Option<Seq<char>>,
) -> Seq<Seq<char>> {
    let idcols = crate::group::spec_resolve(t, idsn);
    let vcols = crate::group::spec_resolve(t, vsn);
    let dk = distinct_first_seen(t.columns[t.find_col(pname)].values);
    resolved_names(pivot_raw_names(t, idcols, vcols, dk), idsn, prefix)
}

/// The cell lists of the pivot for a given partition.
pub open spec fn pivot_values_for(
    t: TableModel,
    idsn: Seq<Seq<char>>,
    pname: Seq<char>,
    vsn: Seq<Seq<char>>,
    gs: Seq<Seq<int>>,
) -> Seq<Seq<ValueModel>> {
    let idcols = crate::group::spec_resolve(t, idsn);
    let vcols = crate::group::spec_resolve(t, vsn);
    let dk = distinct_first_seen(t.columns[t.find_col(pname)].values);
    pivot_raw_values(t, idcols, t.find_col(pname), vcols, gs, dk)
}

/// Reshapes a long table wide: rows are grouped stably by the
/// identifier columns; each distinct pivot-key cell, in first-seen
/// order, yields one column per value column holding each group's first
/// matching value; the full name list then runs through the
/// deterministic collision pass. Absent columns, unrenderable pivot
/// keys and residual duplicate names are the failures, in that order.
pub fn df_pivot_wider(
    df: &Table,
    id_columns: &Vec<String>,
    pivot_column: &String,
    values_column: &Vec<String>,
    names_prefix: &Option<String>,
) -> (r: Result<Table, ExplorerError>)
    requires
        df@.wf(),
    ensures
        !(crate::group::all_found(df@, id_columns.deep_view()) && df@.find_col(pivot_column@) >= 0
            && crate::group::all_found(df@, values_column.deep_view())) ==> r is Err && r->Err_0 is ColumnNotFound,
        (crate::group::all_found(df@, id_columns.deep_view()) && df@.find_col(pivot_column@) >= 0
            && crate::group::all_found(df@, values_column.deep_view())
            && !pivot_keys_nameable(df@, pivot_column@)) ==> r is Err && r->Err_0 is UnsupportedPivotKey,
        (crate::group::all_found(df@, id_columns.deep_view()) && df@.find_col(pivot_column@) >= 0
            && crate::group::all_found(df@, values_column.deep_view())
            && pivot_keys_nameable(df@, pivot_column@)) ==> (r is Ok <==> distinct_names(
            pivot_final_names(
                df@,
                id_columns.deep_view(),
                pivot_column@,
                values_column.deep_view(),
                match names_prefix {
                    Some(p) => Some(p@),
                    None => None,
                },
            ),
        )),
        r is Ok ==> exists|gs: Seq<Seq<int>>|
            #![auto]
            crate::group::is_stable_partition(
                df@,
                crate::group::spec_resolve(df@, id_columns.deep_view()),
                gs,
            ) && r->Ok_0@.columns == named_columns(
                pivot_final_names(
                    df@,
                    id_columns.deep_view(),
                    pivot_column@,
                    values_column.deep_view(),
                    match names_prefix {
                        Some(p) => Some(p@),
                        None => None,
                    },
                ),
                pivot_values_for(
                    df@,
                    id_columns.deep_view(),
                    pivot_column@,
                    values_column.deep_view(),
                    gs,
                ),
            ) && r->Ok_0@.wf(),
        r is Err ==> r->Err_0 is ColumnNotFound || r->Err_0 is UnsupportedPivotKey || r->Err_0 is DuplicateColumnName,
{
    let ghost idsn = id_columns.deep_view();
    let ghost vsn = values_column.deep_view();
    let ghost prefv: Option<Seq<char>> = match names_prefix {
        Some(p) => Some(p@),
        None => None,
    };
    let idcols = match crate::group::resolve_columns(df, id_columns) {
        Ok(c) => c,
        Err(e) => {
            return Err(e);
        },
    };
    let pcol = match crate::table::find_column(df, pivot_column) {
        Some(j) => j,
        None => {
            return Err(ExplorerError::ColumnNotFound(pivot_column.clone()));
        },
    };
    let vcols = match crate::group::resolve_columns(df, values_column) {
        Ok(c) => c,
        Err(e) => {
            return Err(e);
        },
    };
    let entries = match crate::group::stable_partition(df, id_columns) {
        Ok(p) => p,
        Err(_) => {
            proof {
                assert(false);
            }
            return Err(ExplorerError::ColumnNotFound(pivot_column.clone()));
        },
    };
    let ghost gsv = crate::group::rows_of(entries@);
    let ghost idcolsv = crate::table_ops::idx_view(idcols@);
    let ghost vcolsv = crate::table_ops::idx_view(vcols@);
    let ghost pv = df@.columns[pcol as int].values;
    let ghost dkv = distinct_first_seen(pv);

    // Distinct pivot keys, refusing unrenderable ones.
    let keys = distinct_keys(&df.columns[pcol].values);
    let mut knames: Vec<String> = Vec::new();
    let nk = keys.len();
    let mut k: usize = 0;
    while k < nk
        invariant
            crate::group::all_found(df@, id_columns.deep_view()),
            crate::group::all_found(df@, values_column.deep_view()),
            pcol < df@.columns.len(),
            df@.find_col(pivot_column@) == pcol as int,
            nk == keys@.len(),
            keys.deep_view() == dkv,
            pv == df@.columns[pcol as int].values,
            dkv == distinct_first_seen(pv),
            k <= nk,
            knames.len() == k,
            forall|x: int| 0 <= x < k ==> can_name(#[trigger] dkv[x]),
            forall|x: int| 0 <= x < k ==> knames@[x]@ == key_name(dkv[x]),
        decreases nk - k,
    {
        match render_key(&keys[k]) {
            Ok(nm) => {
                knames.push(nm);
                proof {
                    assert(keys@[k as int]@ == dkv[k as int]);
                }
            },
            Err(e) => {
                proof {
                    assert(keys@[k as int]@ == dkv[k as int]);
                    assert(!can_name(dkv[k as int]));
                    lemma_distinct_sub(pv, dkv[k as int]);
                    assert(!pivot_keys_nameable(df@, pivot_column@));
                }
                return Err(e);
            },
        }
        k += 1;
    }
    proof {
        lemma_distinct_super(pv);
        assert forall|x: int| 0 <= x < pv.len() implies can_name(#[trigger] pv[x]) by {
            let d = choose|d: int| 0 <= d < dkv.len() && dkv[d] == pv[x];
            assert(can_name(dkv[d]));
        }
        assert(pivot_keys_nameable(df@, pivot_column@));
    }

    let ng = entries.len();
    let ghost rawvals = pivot_raw_values(df@, idcolsv, pcol as int, vcolsv, gsv, dkv);
    let ghost rawnames = pivot_raw_names(df@, idcolsv, vcolsv, dkv);

    // Identifier columns: each group's first-row cells.
    let mut vallists: Vec<Vec<Value>> = Vec::new();
    let mut rnames: Vec<String> = Vec::new();
    let nid = idcols.len();
    let mut j: usize = 0;
    while j < nid
        invariant
            df@.wf(),
            nid == idcols@.len(),
            idcolsv == crate::table_ops::idx_view(idcols@),
            forall|x: int| 0 <= x < idcols@.len() ==> (#[trigger] idcols@[x]) < df@.columns.len(),
            ng == entries.len(),
            gsv == crate::group::rows_of(entries@),
            crate::group::is_stable_partition(df@, crate::group::spec_resolve(df@, idsn), gsv),
            idcolsv == crate::group::spec_resolve(df@, idsn),
            idsn == id_columns.deep_view(),
            rawvals == pivot_raw_values(df@, idcolsv, pcol as int, vcolsv, gsv, dkv),
            rawnames == pivot_raw_names(df@, idcolsv, vcolsv, dkv),
            j <= nid,
            vallists.len() == j,
            rnames.len() == j,
            forall|x: int| 0 <= x < j ==> (#[trigger] vallists@[x]).deep_view() == rawvals[x],
            forall|x: int| 0 <= x < j ==> (#[trigger] rnames@[x])@ == rawnames[x],
        decreases nid - j,
    {
        let mut cells: Vec<Value> = Vec::new();
        let mut g: usize = 0;
        while g < ng
            invariant
                df@.wf(),
                j < nid == idcols@.len(),
                idcolsv == crate::table_ops::idx_view(idcols@),
                forall|x: int| 0 <= x < idcols@.len() ==> (#[trigger] idcols@[x]) < df@.columns.len(),
                ng == entries.len(),
                gsv == crate::group::rows_of(entries@),
                crate::group::is_stable_partition(df@, crate::group::spec_resolve(df@, idsn), gsv),
                idcolsv == crate::group::spec_resolve(df@, idsn),
                g <= ng,
                cells.len() == g,
                forall|x: int| 0 <= x < g ==> cells@[x]@ == df@.columns[idcolsv[j as int]].values[
                    gsv[x][0]],
            decreases ng - g,
        {
            proof {
                assert(gsv[g as int].len() > 0);
                assert(gsv[g as int][0] == entries@[g as int].rows@[0]);
                assert(0 <= gsv[g as int][0] < df@.nrows());
                assert(df@.columns[idcols@[j as int] as int].values.len() == df@.nrows());
            }
            cells.push(df.columns[idcols[j]].values[entries[g].rows[0]].dup());
            g += 1;
        }
        proof {
            assert(rawvals[j as int].len() == gsv.len());
            assert forall|x: int| 0 <= x < ng implies cells.deep_view()[x] == rawvals[j as int][x] by {
                assert(cells@[x]@ == df@.columns[idcolsv[j as int]].values[gsv[x][0]]);
            }
            assert(cells.deep_view() =~= rawvals[j as int]);
        }
        vallists.push(cells);
        rnames.push(id_columns[j].clone());
        proof {
            crate::table::lemma_find_col_in(df@.columns, idsn[j as int]);
            assert(df@.columns[idcolsv[j as int]].name == idsn[j as int]);
            assert(rnames@[j as int]@ == rawnames[j as int]);
        }
        j += 1;
    }

    // Synthesized columns: value columns outermost, keys in first-seen
    // order, each group's first matching value.
    let nv = vcols.len();
    let mut v: usize = 0;
    while v < nv
        invariant
            df@.wf(),
            nv == vcols@.len(),
            nid == idcols@.len(),
            nk == keys@.len(),
            keys.deep_view() == dkv,
            knames@.len() == nk,
            forall|x: int| 0 <= x < nk ==> knames@[x]@ == key_name(dkv[x]),
            idcolsv == crate::table_ops::idx_view(idcols@),
            vcolsv == crate::table_ops::idx_view(vcols@),
            forall|x: int| 0 <= x < vcols@.len() ==> (#[trigger] vcols@[x]) < df@.columns.len(),
            pcol < df@.columns.len(),
            ng == entries.len(),
            gsv == crate::group::rows_of(entries@),
            crate::group::is_stable_partition(df@, crate::group::spec_resolve(df@, idsn), gsv),
            vcolsv == crate::group::spec_resolve(df@, vsn),
            vsn == values_column.deep_view(),
            rawvals == pivot_raw_values(df@, idcolsv, pcol as int, vcolsv, gsv, dkv),
            rawnames == pivot_raw_names(df@, idcolsv, vcolsv, dkv),
            v <= nv,
            vallists.len() == nid + v * nk,
            rnames.len() == nid + v * nk,
            forall|x: int| 0 <= x < vallists@.len() ==> (#[trigger] vallists@[x]).deep_view()
                == rawvals[x],
            forall|x: int| 0 <= x < rnames@.len() ==> (#[trigger] rnames@[x])@ == rawnames[x],
        decreases nv - v,
    {
        let mut k: usize = 0;
        while k < nk
            invariant
                df@.wf(),
                v < nv == vcols@.len(),
                nid == idcols@.len(),
                nk == keys@.len(),
                keys.deep_view() == dkv,
                knames@.len() == nk,
                forall|x: int| 0 <= x < nk ==> knames@[x]@ == key_name(dkv[x]),
                idcolsv == crate::table_ops::idx_view(idcols@),
                nid == idcols@.len(),
                vcolsv == crate::table_ops::idx_view(vcols@),
                forall|x: int| 0 <= x < vcols@.len() ==> (#[trigger] vcols@[x]) < df@.columns.len(),
                pcol < df@.columns.len(),
                ng == entries.len(),
                gsv == crate::group::rows_of(entries@),
                crate::group::is_stable_partition(df@, crate::group::spec_resolve(df@, idsn), gsv),
                vcolsv == crate::group::spec_resolve(df@, vsn),
                vsn == values_column.deep_view(),
                rawvals == pivot_raw_values(df@, idcolsv, pcol as int, vcolsv, gsv, dkv),
                rawnames == pivot_raw_names(df@, idcolsv, vcolsv, dkv),
                k <= nk,
                vallists.len() == nid + v * nk + k,
                rnames.len() == nid + v * nk + k,
                forall|x: int| 0 <= x < vallists@.len() ==> (#[trigger] vallists@[x]).deep_view()
                    == rawvals[x],
                forall|x: int| 0 <= x < rnames@.len() ==> (#[trigger] rnames@[x])@ == rawnames[x],
            decreases nk - k,
        {
            let ghost x = (v * nk + k) as int;
            proof {
                assert(v * nk + k < nv * nk) by (nonlinear_arith)
                    requires
                        0 <= v < nv,
                        0 <= k < nk,
                ;
                assert(x / nk as int == v as int && x % nk as int == k as int) by (nonlinear_arith)
                    requires
                        x == v * nk + k,
                        0 <= k < nk,
                        0 <= v,
                ;
            }
            let mut cells: Vec<Value> = Vec::new();
            let mut g: usize = 0;
            while g < ng
                invariant
                    df@.wf(),
                    v < nv,
                    k < nk,
                    nk == keys@.len(),
                    keys.deep_view() == dkv,
                    vcolsv == crate::table_ops::idx_view(vcols@),
                    v < vcols@.len(),
                    forall|y: int| 0 <= y < vcols@.len() ==> (#[trigger] vcols@[y]) < df@.columns.len(),
                    pcol < df@.columns.len(),
                    ng == entries.len(),
                    gsv == crate::group::rows_of(entries@),
                    crate::group::is_stable_partition(
                        df@,
                        crate::group::spec_resolve(df@, idsn),
                        gsv,
                    ),
                    g <= ng,
                    cells.len() == g,
                    forall|y: int| 0 <= y < g ==> cells@[y]@ == first_match_cell(
                        df@,
                        gsv[y],
                        pcol as int,
                        vcolsv[v as int],
                        dkv[k as int],
                    ),
                decreases ng - g,
            {
                proof {
                    assert forall|y: int|
                        0 <= y < entries@[g as int].rows@.len() implies (#[trigger] entries@[
                        g as int].rows@[y]) < df@.nrows() by {
                        assert(gsv[g as int][y] < df@.nrows());
                    }
                    assert(keys@[k as int]@ == dkv[k as int]);
                }
                let cell = first_match(df, &entries[g].rows, pcol, vcols[v], &keys[k]);
                cells.push(cell);
                proof {
                    assert(crate::table_ops::idx_view(entries@[g as int].rows@) == gsv[g as int]);
                }
                g += 1;
            }
            proof {
                assert(idcolsv.len() == nid as int);
                assert(dkv.len() == nk as int);
                assert(rawvals[nid + x] =~= Seq::new(
                    gsv.len(),
                    |g2: int|
                        first_match_cell(
                            df@,
                            gsv[g2],
                            pcol as int,
                            vcolsv[x / nk as int],
                            dkv[x % nk as int],
                        ),
                ));
                assert forall|y: int| 0 <= y < ng implies cells.deep_view()[y] == rawvals[nid + x][y] by {
                    assert(cells@[y]@ == first_match_cell(
                        df@,
                        gsv[y],
                        pcol as int,
                        vcolsv[v as int],
                        dkv[k as int],
                    ));
                }
                assert(cells.deep_view() =~= rawvals[nid + x]);
            }
            let name = if nv == 1 {
                let nm = knames[k].clone();
                proof {
                    assert(idcolsv.len() == nid as int);
                    assert(dkv.len() == nk as int);
                    assert(rawnames[nid + x] == pivot_gen_name(df@, vcolsv, dkv, x));
                    assert(pivot_gen_name(df@, vcolsv, dkv, x) == key_name(dkv[k as int]));
                    assert(nm@ == knames@[k as int]@);
                }
                nm
            } else {
                let mut nm = values_column[v].clone();
                nm.append("_");
                nm.append(knames[k].as_str());
                proof {
                    reveal_strlit("_");
                    crate::table::lemma_find_col_in(df@.columns, vsn[v as int]);
                    assert(df@.columns[vcolsv[v as int]].name == vsn[v as int]);
                    assert(idcolsv.len() == nid as int);
                    assert(dkv.len() == nk as int);
                    assert(rawnames[nid + x] == pivot_gen_name(df@, vcolsv, dkv, x));
                    assert(knames@[k as int]@ == key_name(dkv[k as int]));
                    assert(nm@ =~= rawnames[nid + x]);
                }
                nm
            };
            vallists.push(cells);
            rnames.push(name);
            proof {
                assert(vallists@.len() == nid + v * nk + k + 1);
                assert(nid + v * nk + k == nid + x);
            }
            k += 1;
        }
        proof {
            assert(v * nk + nk == (v + 1) * nk) by (nonlinear_arith);
        }
        v += 1;
    }
    proof {
        assert(vallists@.len() == nid + nv * nk);
        assert(rawvals.len() == nid + nv * nk);
        assert(rawnames.len() == nid + nv * nk);
    }

    // The collision pass, then the residual-duplicate check.
    let finals = resolve_collision_names(&rnames, id_columns, names_prefix);
    proof {
        assert(rnames.deep_view() =~= rawnames);
        assert(pivot_final_names(df@, idsn, pivot_column@, vsn, prefv) == resolved_names(
            rawnames,
            idsn,
            prefv,
        ));
        assert(finals.deep_view() == pivot_final_names(df@, idsn, pivot_column@, vsn, prefv));
    }
    let nf = finals.len();
    proof {
        lemma_resolved_len(rawnames, idsn, prefv);
        assert(nf == rawnames.len());
        assert(nf == nid + nv * nk);
        assert(vallists@.len() == nf);
        assert(rawvals.len() == nf);
        assert forall|x: int| 0 <= x < vallists@.len() implies (#[trigger] vallists@[x]).len()
            == entries@.len() by {
            assert(vallists@[x].deep_view() == rawvals[x]);
            if x < nid {
                assert(rawvals[x].len() == gsv.len());
            } else {
                assert(rawvals[x].len() == gsv.len());
            }
        }
    }
    let mut a: usize = 0;
    while a < nf
        invariant
            crate::group::all_found(df@, id_columns.deep_view()),
            crate::group::all_found(df@, values_column.deep_view()),
            df@.find_col(pivot_column@) >= 0,
            pivot_keys_nameable(df@, pivot_column@),
            idsn == id_columns.deep_view(),
            vsn == values_column.deep_view(),
            prefv == (match names_prefix {
                Some(p) => Some(p@),
                None => None::<Seq<char>>,
            }),
            finals.deep_view() == pivot_final_names(df@, idsn, pivot_column@, vsn, prefv),
            nf == finals@.len(),
            a <= nf,
            forall|x: int, y: int| 0 <= x < y < finals.deep_view().len() && x < a ==> finals.deep_view()[x]
                != finals.deep_view()[y],
        decreases nf - a,
    {
        let mut b: usize = a + 1;
        while b < nf
            invariant
                crate::group::all_found(df@, id_columns.deep_view()),
                crate::group::all_found(df@, values_column.deep_view()),
                df@.find_col(pivot_column@) >= 0,
                pivot_keys_nameable(df@, pivot_column@),
                idsn == id_columns.deep_view(),
                vsn == values_column.deep_view(),
                prefv == (match names_prefix {
                    Some(p) => Some(p@),
                    None => None::<Seq<char>>,
                }),
                finals.deep_view() == pivot_final_names(df@, idsn, pivot_column@, vsn, prefv),
                a < nf == finals@.len(),
                a < b <= nf,
                forall|y: int| a < y < b ==> finals.deep_view()[a as int] != finals.deep_view()[y],
            decreases nf - b,
        {
            if finals[a].eq(&finals[b]) {
                proof {
                    assert(finals.deep_view()[a as int] == finals.deep_view()[b as int]);
                    assert(!distinct_names(finals.deep_view()));
                }
                return Err(ExplorerError::DuplicateColumnName(finals[b].clone()));
            }
            b += 1;
        }
        a += 1;
    }
    proof {
        assert(distinct_names(finals.deep_view()));
    }

    // Assemble.
    let mut cols: Vec<Column> = Vec::new();
    let mut j: usize = 0;
    let ghost finalnames = finals.deep_view();
    while j < nf
        invariant
            nf == finals@.len(),
            finalnames == finals.deep_view(),
            vallists@.len() == nf,
            rawvals.len() == nf,
            forall|x: int| 0 <= x < vallists@.len() ==> (#[trigger] vallists@[x]).deep_view()
                == rawvals[x],
            forall|x: int| 0 <= x < vallists@.len() ==> (#[trigger] vallists@[x]).len()
                == entries@.len(),
            j <= nf,
            cols.len() == j,
            forall|x: int| 0 <= x < j ==> cols@[x]@ == (named_columns(finalnames, rawvals)[x]),
        decreases nf - j,
    {
        let name = finals[j].clone();
        let cellsj = crate::value::dup_values(&vallists[j]);
        cols.push(Column { name, values: cellsj });
        proof {
            assert(cols@[j as int]@ == named_columns(finalnames, rawvals)[j as int]);
        }
        j += 1;
    }
    let out = Table { columns: cols };
    proof {
        assert(out@.columns =~= named_columns(finalnames, rawvals));
        assert(rawvals.len() == nf);
        assert forall|x: int, y: int|
            0 <= x < y < out@.columns.len() implies out@.columns[x].name != out@.columns[y].name by {
            assert(out@.columns[x].name == finalnames[x]);
            assert(out@.columns[y].name == finalnames[y]);
        }
        assert forall|x: int| 0 <= x < out@.columns.len() implies (#[trigger] out@.columns[x].values).len()
            == out@.nrows() by {
            assert(out@.columns[x].values == rawvals[x]);
            if x > 0 {
                assert(rawvals[0].len() == gsv.len());
                assert(rawvals[x].len() == gsv.len());
            }
        }
    }
    Ok(out)
}


/// The whole pivot is deterministic: any two result column lists that
/// the pivot's contract admits for one and the same input are equal —
/// the name pass is a pure function and the stable partition behind
/// the cells is unique.
pub proof fn lemma_pivot_result_unique(
    t: TableModel,
    idsn: Seq<Seq<char>>,
    pname: Seq<char>,
    vsn: Seq<Seq<char>>,
    prefix: Option<Seq<char>>,
    c1: Seq<ColumnModel>,
    c2: Seq<ColumnModel>,
)
    requires
        exists|gs: Seq<Seq<int>>|
            #![auto]
            crate::group::is_stable_partition(t, crate::group::spec_resolve(t, idsn), gs) && c1
                == named_columns(
                pivot_final_names(t, idsn, pname, vsn, prefix),
                pivot_values_for(t, idsn, pname, vsn, gs),
            ),
        exists|gs: Seq<Seq<int>>|
            #![auto]
            crate::group::is_stable_partition(t, crate::group::spec_resolve(t, idsn), gs) && c2
                == named_columns(
                pivot_final_names(t, idsn, pname, vsn, prefix),
                pivot_values_for(t, idsn, pname, vsn, gs),
            ),
    ensures
        c1 == c2,
{
    let gs1 = choose|gs: Seq<Seq<int>>|
        #![auto]
        crate::group::is_stable_partition(t, crate::group::spec_resolve(t, idsn), gs) && c1
            == named_columns(
            pivot_final_names(t, idsn, pname, vsn, prefix),
            pivot_values_for(t, idsn, pname, vsn, gs),
        );
    let gs2 = choose|gs: Seq<Seq<int>>|
        #![auto]
        crate::group::is_stable_partition(t, crate::group::spec_resolve(t, idsn), gs) && c2
            == named_columns(
            pivot_final_names(t, idsn, pname, vsn, prefix),
            pivot_values_for(t, idsn, pname, vsn, gs),
        );
    crate::group::lemma_partition_unique(t, crate::group::spec_resolve(t, idsn), gs1, gs2);
}

/// Every cell of the source appears among its distinct keys.
proof fn lemma_distinct_super(s: Seq<ValueModel>)
    ensures
        forall|x: int| 0 <= x < s.len() ==> distinct_first_seen(s).contains(#[trigger] s[x]),
    decreases s.len(),
{
    if s.len() > 0 {
        lemma_distinct_super(s.drop_last());
        let prev = distinct_first_seen(s.drop_last());
        assert forall|x: int| 0 <= x < s.len() implies distinct_first_seen(s).contains(
            #[trigger] s[x],
        ) by {
            if x < s.len() - 1 {
                assert(s.drop_last()[x] == s[x]);
                assert(prev.contains(s[x]));
                let d = choose|d: int| 0 <= d < prev.len() && prev[d] == s[x];
                if !prev.contains(s.last()) {
                    assert(distinct_first_seen(s)[d] == s[x]);
                } else {
                    assert(distinct_first_seen(s)[d] == s[x]);
                }
            } else {
                if prev.contains(s.last()) {
                    let d = choose|d: int| 0 <= d < prev.len() && prev[d] == s.last();
                    assert(distinct_first_seen(s)[d] == s[x]);
                } else {
                    assert(distinct_first_seen(s).last() == s[x]);
                }
            }
        }
    }
}

/// Every distinct key appears in the source.
proof fn lemma_distinct_sub(s: Seq<ValueModel>, v: ValueModel)
    requires
        distinct_first_seen(s).contains(v),
    ensures
        s.contains(v),
    decreases s.len(),
{
    if s.len() > 0 {
        let prev = distinct_first_seen(s.drop_last());
        if prev.contains(v) {
            lemma_distinct_sub(s.drop_last(), v);
            let x = choose|x: int| 0 <= x < s.drop_last().len() && s.drop_last()[x] == v;
            assert(s[x] == v);
        } else {
            assert(v == s.last());
            assert(s[s.len() - 1] == v);
        }
    }
}

/// The pass assigns one final name per raw name.
proof fn lemma_resolved_len(
    names: Seq<Seq<char>>,
    ids: Seq<Seq<char>>,
    prefix: Option<Seq<char>>,
)
    ensures
        resolved_names(names, ids, prefix).len() == names.len(),
{
    lemma_fold_len(names, names.len() as int, ids, prefix);
}

/// The fold's name list grows one per step.
proof fn lemma_fold_len(names: Seq<Seq<char>>, i: int, ids: Seq<Seq<char>>, prefix: Option<Seq<char>>)
    requires
        0 <= i,
    ensures
        resolve_fold(names, i, ids, prefix).0.len() == i,
    decreases i,
{
    if i > 0 {
        lemma_fold_len(names, i - 1, ids, prefix);
    }
}

} // verus!
