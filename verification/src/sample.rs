use vstd::prelude::*;

use crate::apply::{grouped_apply, vconcat_all};
use crate::error::ExplorerError;
use crate::group::{all_found, is_stable_partition, spec_resolve};
use crate::table::{spec_take, Table, TableModel};
use crate::table_ops::{df_take, idx_view};

verus! {

#[verifier::external_type_specification]
#[verifier::external_body]
pub struct ExChaCha12Rng(rand_chacha::ChaCha12Rng);

/// Relies on rand_chacha's ChaCha12 generator: a fresh stream, seeded
/// from `seed` when one is given, else from system entropy. The seeded
/// path cannot panic; the entropy-seeded path aborts only if the
/// platform's entropy source fails, an environmental condition and
/// never a property of any input.
#[verifier::external_body]
fn new_rng(seed: Option<u64>) -> rand_chacha::ChaCha12Rng {
    match seed {
        Some(s) => <rand_chacha::ChaCha12Rng as rand_chacha::rand_core::SeedableRng>::seed_from_u64(
            s,
        ),
        None => <rand_chacha::ChaCha12Rng as rand_chacha::rand_core::SeedableRng>::from_entropy(),
    }
}

/// Relies on rand's index sampling: exactly `amount` distinct positions
/// drawn from under `length`, in the sampler's own order.
#[verifier::external_body]
fn sample_distinct_indices(rng: &mut rand_chacha::ChaCha12Rng, length: usize, amount: usize) -> (r:
    Vec<usize>)
    requires
        amount <= length,
    ensures
        r@.len() == amount,
        forall|k: int| 0 <= k < r@.len() ==> (#[trigger] r@[k]) < length,
        forall|a: int, b: int| 0 <= a < b < r@.len() ==> r@[a] != r@[b],
{
    rand::seq::index::sample(rng, length, amount).into_vec()
}

/// Relies on rand's range sampling: one position under `bound`.
#[verifier::external_body]
fn gen_index_below(rng: &mut rand_chacha::ChaCha12Rng, bound: usize) -> (r: usize)
    requires
        bound > 0,
    ensures
        r < bound,
{
    rand::Rng::gen_range(rng, 0..bound)
}

/// Relies on rand's in-place shuffle: the same positions rearranged,
/// none lost, none invented, distinctness kept.
#[verifier::external_body]
fn shuffle_indices(rng: &mut rand_chacha::ChaCha12Rng, v: &mut Vec<usize>)
    ensures
        final(v)@.len() == old(v)@.len(),
        final(v)@.to_multiset() == old(v)@.to_multiset(),
        forall|k: int| 0 <= k < final(v)@.len() ==> old(v)@.contains(#[trigger] final(v)@[k]),
        (forall|a: int, b: int| 0 <= a < b < old(v)@.len() ==> old(v)@[a] != old(v)@[b])
            ==> (forall|a: int, b: int| 0 <= a < b < final(v)@.len() ==> final(v)@[a] != final(v)@[b]),
{
    rand::seq::SliceRandom::shuffle(v.as_mut_slice(), rng)
}

/// Draws `n` row positions from a table of `len` rows: distinct when
/// drawing without replacement, independent ones otherwise, optionally
/// shuffled afterwards.
fn sample_positions(
    rng: &mut rand_chacha::ChaCha12Rng,
    len: usize,
    n: usize,
    replace: bool,
    shuffle: bool,
) -> (r: Vec<usize>)
    requires
        !replace ==> n <= len,
        replace && n > 0 ==> len > 0,
    ensures
        r@.len() == n,
        forall|k: int| 0 <= k < r@.len() ==> (#[trigger] r@[k]) < len,
        !replace ==> forall|a: int, b: int| 0 <= a < b < r@.len() ==> r@[a] != r@[b],
{
    let mut idx: Vec<usize>;
    if replace {
        idx = Vec::new();
        let mut i: usize = 0;
        while i < n
            invariant
                n > 0 ==> len > 0,
                i <= n,
                idx@.len() == i,
                forall|k: int| 0 <= k < idx@.len() ==> (#[trigger] idx@[k]) < len,
            decreases n - i,
        {
            let p = gen_index_below(rng, len);
            idx.push(p);
            i += 1;
        }
    } else {
        idx = sample_distinct_indices(rng, len, n);
    }
    if shuffle {
        let ghost pre = idx@;
        shuffle_indices(rng, &mut idx);
        proof {
            assert forall|k: int| 0 <= k < idx@.len() implies (#[trigger] idx@[k]) < len by {
                let j = choose|j: int| 0 <= j < pre.len() && pre[j] == idx@[k];
            }
        }
    }
    idx
}

/// Whether `out` is a sample of `n` rows of `sub`: some list of `n` row
/// positions of `sub`, distinct when drawn without replacement, whose
/// rows `out` holds in draw order.
pub open spec fn is_sample_of(sub: TableModel, out: TableModel, n: nat, replace: bool) -> bool {
    exists|idx: Seq<int>|
        #![auto]
        {
            &&& idx.len() == n
            &&& forall|k: int| 0 <= k < idx.len() ==> 0 <= #[trigger] idx[k] < sub.nrows()
            &&& (!replace ==> forall|a: int, b: int|
                0 <= a < b < idx.len() ==> #[trigger] idx[a] != #[trigger] idx[b])
            &&& out == spec_take(sub, idx)
        }
}

/// Whether a request for `n` rows can be met from `len` rows.
pub open spec fn sample_ok(len: nat, n: nat, replace: bool) -> bool {
    if replace {
        len > 0 || n == 0
    } else {
        n <= len
    }
}

/// Whether every group of the partition can answer a draw of `n` rows.
pub open spec fn sample_ok_all_groups(t: TableModel, gs: Seq<Seq<int>>, n: nat, replace: bool) -> bool {
    forall|g: int|
        0 <= g < gs.len() ==> sample_ok(spec_take(t, #[trigger] gs[g]).nrows(), n, replace)
}

/// One sampling pass over a single table: `n` rows drawn with or
/// without replacement from a fresh stream, reproducibly seeded when a
/// seed is given. Asking for more rows than exist, without replacement,
/// or for any rows of an empty table, with replacement, is the failure.
pub fn sample_rows(t: &Table, n: usize, replace: bool, shuffle: bool, seed: Option<u64>) -> (r:
    Result<Table, ExplorerError>)
    requires
        t@.wf(),
    ensures
        r is Ok <==> sample_ok(t@.nrows(), n as nat, replace),
        r is Ok ==> is_sample_of(t@, r->Ok_0@, n as nat, replace) && r->Ok_0@.wf()
            && r->Ok_0@.names() == t@.names() && r->Ok_0@.nrows() == n,
        r is Err ==> r->Err_0 is SampleTooLarge,
{
    let len = crate::table::df_n_rows(t);
    if replace {
        if len == 0 && n > 0 {
            return Err(ExplorerError::SampleTooLarge);
        }
    } else {
        if n > len {
            return Err(ExplorerError::SampleTooLarge);
        }
    }
    let mut rng = new_rng(seed);
    let idx = sample_positions(&mut rng, len, n, replace, shuffle);
    match df_take(t, &idx) {
        Ok(out) => {
            proof {
                let iv = idx_view(idx@);
                assert(iv.len() == n);
                assert forall|k: int| 0 <= k < iv.len() implies 0 <= #[trigger] iv[k] < t@.nrows() by {
                    assert(idx@[k] < len);
                }
                if !replace {
                    assert forall|a: int, b: int|
                        0 <= a < b < iv.len() implies #[trigger] iv[a] != #[trigger] iv[b] by {
                        assert(idx@[a] != idx@[b]);
                    }
                }
                assert(is_sample_of(t@, out@, n as nat, replace));
            }
            Ok(out)
        },
        Err(_) => {
            proof {
                assert(false);
            }
            Err(ExplorerError::SampleTooLarge)
        },
    }
}

/// Row sampling by count, applied within each group when grouping
/// columns are given. The same seed is reused, identically, for every
/// group's independent draw: groups of equal size therefore draw the
/// same relative row pattern — a documented property of the operation,
/// not an accident.
pub fn df_sample_n(
    df: Table,
    n: u64,
    replace: bool,
    shuffle: bool,
    seed: Option<u64>,
    groups: &Vec<String>,
) -> (r: Result<Table, ExplorerError>)
    requires
        df@.wf(),
    ensures
        groups@.len() == 0 ==> ((r is Ok <==> (n <= usize::MAX && sample_ok(
            df@.nrows(),
            n as nat,
            replace,
        ))) && (r is Ok ==> is_sample_of(df@, r->Ok_0@, n as nat, replace) && r->Ok_0@.nrows()
            == n)),
        groups@.len() > 0 && r is Ok ==> all_found(df@, groups.deep_view()) && exists|
            gs: Seq<Seq<int>>,
            parts: Seq<Table>,
        |
            #![auto]
            {
                &&& is_stable_partition(df@, spec_resolve(df@, groups.deep_view()), gs)
                &&& parts.len() == gs.len()
                &&& forall|g: int|
                    0 <= g < gs.len() ==> is_sample_of(
                        spec_take(df@, gs[g]),
                        (#[trigger] parts[g])@,
                        n as nat,
                        replace,
                    )
                &&& sample_ok_all_groups(df@, gs, n as nat, replace)
                &&& r->Ok_0@ == vconcat_all(parts.map_values(|p: Table| p@))
            },
        groups@.len() > 0 && !all_found(df@, groups.deep_view()) ==> r is Err && r->Err_0 is ColumnNotFound,
        groups@.len() > 0 && all_found(df@, groups.deep_view()) && n <= usize::MAX && r is Err
            ==> r->Err_0 is SampleTooLarge && exists|gs: Seq<Seq<int>>|
            #![auto]
            is_stable_partition(df@, spec_resolve(df@, groups.deep_view()), gs)
                && !sample_ok_all_groups(df@, gs, n as nat, replace),
        r is Err ==> r->Err_0 is ColumnNotFound || r->Err_0 is SampleTooLarge,
{
    let ghost dfv = df@;
    if n > usize::MAX as u64 {
        if groups.len() == 0 {
            return Err(ExplorerError::SampleTooLarge);
        }
        return Err(if crate::group::resolve_columns(&df, groups).is_err() {
            ExplorerError::ColumnNotFound(String::new())
        } else {
            ExplorerError::SampleTooLarge
        });
    }
    let n_us = n as usize;
    let transform = |tt: Table| -> (out: Result<Table, ExplorerError>)
        requires
            tt@.wf(),
        ensures
            out is Ok <==> sample_ok(tt@.nrows(), n_us as nat, replace),
            out is Ok ==> is_sample_of(tt@, out->Ok_0@, n_us as nat, replace) && out->Ok_0@.wf()
                && out->Ok_0@.names() == tt@.names(),
            out is Err ==> out->Err_0 is SampleTooLarge,
        { sample_rows(&tt, n_us, replace, shuffle, seed) };
    proof {
        assert(forall|x: Table, y: Result<Table, ExplorerError>|
            #[trigger] call_ensures(transform, (x,), y) ==> ((y is Ok ==> is_sample_of(
                x@,
                y->Ok_0@,
                n_us as nat,
                replace,
            ) && y->Ok_0@.names() == x@.names()) && (y is Err ==> y->Err_0 is SampleTooLarge)));
    }
    let r = grouped_apply(df, groups, transform);
    proof {
        if groups@.len() > 0 {
            if r is Ok {
                let (gs, subs, parts): (Seq<Seq<int>>, Seq<Table>, Seq<Table>) = choose|
                    gs: Seq<Seq<int>>,
                    subs: Seq<Table>,
                    parts: Seq<Table>,
                |
                    #![auto]
                    {
                        &&& is_stable_partition(dfv, spec_resolve(dfv, groups.deep_view()), gs)
                        &&& subs.len() == gs.len()
                        &&& parts.len() == gs.len()
                        &&& forall|g2: int|
                            0 <= g2 < gs.len() ==> (#[trigger] subs[g2])@ == spec_take(dfv, gs[g2])
                        &&& forall|g2: int|
                            0 <= g2 < gs.len() ==> call_ensures(
                                transform,
                                ((#[trigger] subs[g2]),),
                                Ok(parts[g2]),
                            )
                        &&& r->Ok_0@ == vconcat_all(parts.map_values(|p: Table| p@))
                    };
                assert forall|g2: int| 0 <= g2 < gs.len() implies is_sample_of(
                    spec_take(dfv, gs[g2]),
                    (#[trigger] parts[g2])@,
                    n_us as nat,
                    replace,
                ) && sample_ok(spec_take(dfv, #[trigger] gs[g2]).nrows(), n as nat, replace) by {
                    assert(call_ensures(transform, (subs[g2],), Ok(parts[g2])));
                    assert(subs[g2]@ == spec_take(dfv, gs[g2]));
                }
                assert forall|g2: int| 0 <= g2 < gs.len() implies sample_ok(
                    spec_take(df@, #[trigger] gs[g2]).nrows(),
                    n as nat,
                    replace,
                ) by {
                    assert(spec_take(df@, gs[g2]) == spec_take(dfv, gs[g2]));
                    assert(is_sample_of(
                        spec_take(dfv, gs[g2]),
                        (parts[g2])@,
                        n_us as nat,
                        replace,
                    ) && sample_ok(spec_take(dfv, gs[g2]).nrows(), n as nat, replace));
                }
                assert(sample_ok_all_groups(df@, gs, n as nat, replace));
            } else {
                let e = r->Err_0;
                if !(e is ColumnNotFound && !all_found(dfv, groups.deep_view())) {
                    if exists|gs: Seq<Seq<int>>, g: int, sub: Table|
                        #![auto]
                        is_stable_partition(dfv, spec_resolve(dfv, groups.deep_view()), gs) && 0
                            <= g < gs.len() && sub@ == spec_take(dfv, gs[g]) && sub@.wf()
                            && sub@.names() == dfv.names() && call_ensures(
                            transform,
                            (sub,),
                            Err::<Table, ExplorerError>(e),
                        ) {
                        let (gs, g, sub): (Seq<Seq<int>>, int, Table) = choose|
                            gs: Seq<Seq<int>>,
                            g: int,
                            sub: Table,
                        |
                            #![auto]
                            is_stable_partition(dfv, spec_resolve(dfv, groups.deep_view()), gs)
                                && 0 <= g < gs.len() && sub@ == spec_take(dfv, gs[g]) && sub@.wf()
                                && sub@.names() == dfv.names() && call_ensures(
                                transform,
                                (sub,),
                                Err::<Table, ExplorerError>(e),
                            );
                        assert(e is SampleTooLarge);
                        assert(!sample_ok(spec_take(dfv, gs[g]).nrows(), n as nat, replace));
                        assert(spec_take(df@, gs[g]) == spec_take(dfv, gs[g]));
                        assert(!sample_ok_all_groups(df@, gs, n as nat, replace));
                        assert(exists|gs2: Seq<Seq<int>>|
                            #![auto]
                            is_stable_partition(df@, spec_resolve(df@, groups.deep_view()), gs2)
                                && !sample_ok_all_groups(df@, gs2, n as nat, replace));
                    } else {
                        let (s1, p1, s2, p2): (Table, Table, Table, Table) = choose|
                            s1: Table,
                            p1: Table,
                            s2: Table,
                            p2: Table,
                        |
                            #![auto]
                            call_ensures(transform, (s1,), Ok(p1)) && call_ensures(
                                transform,
                                (s2,),
                                Ok(p2),
                            ) && s1@.names() == dfv.names() && s2@.names() == dfv.names()
                                && p1@.names() != p2@.names();
                        assert(p1@.names() == s1@.names());
                        assert(p2@.names() == s2@.names());
                        assert(false);
                    }
                }
            }
        }
    }
    r
}

/// How many rows a fractional request draws from a group of `len`
/// rows: the integer part of `len` scaled by `num / den`.
pub open spec fn frac_count(len: nat, num: nat, den: nat) -> nat
    recommends
        den > 0,
{
    (len * num) / den
}

/// Whether every group of the partition can answer its own fractional
/// draw: the scaled count is representable and drawable.
pub open spec fn frac_ok_all_groups(
    t: TableModel,
    gs: Seq<Seq<int>>,
    num: nat,
    den: nat,
    replace: bool,
) -> bool {
    forall|g: int|
        0 <= g < gs.len() ==> (frac_count(spec_take(t, #[trigger] gs[g]).nrows(), num, den)
            <= usize::MAX && sample_ok(
            spec_take(t, gs[g]).nrows(),
            frac_count(spec_take(t, gs[g]).nrows(), num, den),
            replace,
        ))
}

/// Row sampling by fraction, applied within each group when grouping
/// columns are given: each group draws the integer part of its own row
/// count scaled by `frac_num / frac_den`. A zero denominator is
/// refused; the seed is reused identically across groups, as with
/// sampling by count.
pub fn df_sample_frac(
    df: Table,
    frac_num: u64,
    frac_den: u64,
    replace: bool,
    shuffle: bool,
    seed: Option<u64>,
    groups: &Vec<String>,
) -> (r: Result<Table, ExplorerError>)
    requires
        df@.wf(),
    ensures
        frac_den == 0 ==> r is Err && r->Err_0 is InvalidParameters,
        frac_den > 0 && groups@.len() == 0 ==> ((r is Ok <==> (frac_count(
            df@.nrows(),
            frac_num as nat,
            frac_den as nat,
        ) <= usize::MAX && sample_ok(
            df@.nrows(),
            frac_count(df@.nrows(), frac_num as nat, frac_den as nat),
            replace,
        ))) && (r is Ok ==> is_sample_of(
            df@,
            r->Ok_0@,
            frac_count(df@.nrows(), frac_num as nat, frac_den as nat),
            replace,
        ))),
        frac_den > 0 && groups@.len() > 0 && r is Ok ==> all_found(df@, groups.deep_view())
            && exists|gs: Seq<Seq<int>>, parts: Seq<Table>|
            #![auto]
            {
                &&& is_stable_partition(df@, spec_resolve(df@, groups.deep_view()), gs)
                &&& parts.len() == gs.len()
                &&& forall|g: int|
                    0 <= g < gs.len() ==> is_sample_of(
                        spec_take(df@, gs[g]),
                        (#[trigger] parts[g])@,
                        frac_count(spec_take(df@, gs[g]).nrows(), frac_num as nat, frac_den as nat),
                        replace,
                    )
                &&& frac_ok_all_groups(df@, gs, frac_num as nat, frac_den as nat, replace)
                &&& r->Ok_0@ == vconcat_all(parts.map_values(|p: Table| p@))
            },
        frac_den > 0 && groups@.len() > 0 && !all_found(df@, groups.deep_view()) ==> r is Err
            && r->Err_0 is ColumnNotFound,
        frac_den > 0 && groups@.len() > 0 && all_found(df@, groups.deep_view()) && r is Err
            ==> r->Err_0 is SampleTooLarge && exists|gs: Seq<Seq<int>>|
            #![auto]
            is_stable_partition(df@, spec_resolve(df@, groups.deep_view()), gs)
                && !frac_ok_all_groups(df@, gs, frac_num as nat, frac_den as nat, replace),
        r is Err ==> r->Err_0 is ColumnNotFound || r->Err_0 is SampleTooLarge || r->Err_0 is InvalidParameters,
{
    let ghost dfv = df@;
    if frac_den == 0 {
        return Err(ExplorerError::InvalidParameters);
    }
    let transform = |tt: Table| -> (out: Result<Table, ExplorerError>)
        requires
            tt@.wf(),
        ensures
            out is Ok ==> is_sample_of(
                tt@,
                out->Ok_0@,
                frac_count(tt@.nrows(), frac_num as nat, frac_den as nat),
                replace,
            ) && out->Ok_0@.wf() && out->Ok_0@.names() == tt@.names(),
            out is Ok <==> (frac_count(tt@.nrows(), frac_num as nat, frac_den as nat) <= usize::MAX
                && sample_ok(
                tt@.nrows(),
                frac_count(tt@.nrows(), frac_num as nat, frac_den as nat),
                replace,
            )),
            out is Err ==> out->Err_0 is SampleTooLarge,
        {
            let m = crate::table::df_n_rows(&tt);
            proof {
                assert((m as u128) * (frac_num as u128)
                    <= 340282366920938463426481119284349108225u128) by (nonlinear_arith)
                    requires
                        m as u128 <= 18446744073709551615u128,
                        frac_num as u128 <= 18446744073709551615u128,
                ;
            }
            let scaled: u128 = (m as u128) * (frac_num as u128) / (frac_den as u128);
            if scaled > usize::MAX as u128 {
                return Err(ExplorerError::SampleTooLarge);
            }
            let k = scaled as usize;
            proof {
                assert(k as nat == frac_count(tt@.nrows(), frac_num as nat, frac_den as nat));
            }
            sample_rows(&tt, k, replace, shuffle, seed)
        };
    proof {
        assert(forall|x: Table, y: Result<Table, ExplorerError>|
            #[trigger] call_ensures(transform, (x,), y) ==> ((y is Ok ==> is_sample_of(
                x@,
                y->Ok_0@,
                frac_count(x@.nrows(), frac_num as nat, frac_den as nat),
                replace,
            ) && y->Ok_0@.names() == x@.names()) && (y is Err ==> y->Err_0 is SampleTooLarge)));
    }
    let r = grouped_apply(df, groups, transform);
    proof {
        if groups@.len() > 0 {
            if r is Ok {
                let (gs, subs, parts): (Seq<Seq<int>>, Seq<Table>, Seq<Table>) = choose|
                    gs: Seq<Seq<int>>,
                    subs: Seq<Table>,
                    parts: Seq<Table>,
                |
                    #![auto]
                    {
                        &&& is_stable_partition(dfv, spec_resolve(dfv, groups.deep_view()), gs)
                        &&& subs.len() == gs.len()
                        &&& parts.len() == gs.len()
                        &&& forall|g2: int|
                            0 <= g2 < gs.len() ==> (#[trigger] subs[g2])@ == spec_take(dfv, gs[g2])
                        &&& forall|g2: int|
                            0 <= g2 < gs.len() ==> call_ensures(
                                transform,
                                ((#[trigger] subs[g2]),),
                                Ok(parts[g2]),
                            )
                        &&& r->Ok_0@ == vconcat_all(parts.map_values(|p: Table| p@))
                    };
                assert forall|g2: int| 0 <= g2 < gs.len() implies is_sample_of(
                    spec_take(dfv, gs[g2]),
                    (#[trigger] parts[g2])@,
                    frac_count(spec_take(dfv, gs[g2]).nrows(), frac_num as nat, frac_den as nat),
                    replace,
                ) by {
                    assert(call_ensures(transform, (subs[g2],), Ok(parts[g2])));
                    assert(subs[g2]@ == spec_take(dfv, gs[g2]));
                }
                assert forall|g2: int|
                    0 <= g2 < gs.len() implies (frac_count(
                    spec_take(df@, #[trigger] gs[g2]).nrows(),
                    frac_num as nat,
                    frac_den as nat,
                ) <= usize::MAX && sample_ok(
                    spec_take(df@, gs[g2]).nrows(),
                    frac_count(spec_take(df@, gs[g2]).nrows(), frac_num as nat, frac_den as nat),
                    replace,
                )) by {
                    assert(call_ensures(transform, (subs[g2],), Ok(parts[g2])));
                    assert(subs[g2]@ == spec_take(dfv, gs[g2]));
                    assert(spec_take(df@, gs[g2]) == spec_take(dfv, gs[g2]));
                }
                assert(frac_ok_all_groups(df@, gs, frac_num as nat, frac_den as nat, replace));
            } else {
                let e = r->Err_0;
                if !(e is ColumnNotFound && !all_found(dfv, groups.deep_view())) {
                    if exists|gs: Seq<Seq<int>>, g: int, sub: Table|
                        #![auto]
                        is_stable_partition(dfv, spec_resolve(dfv, groups.deep_view()), gs) && 0
                            <= g < gs.len() && sub@ == spec_take(dfv, gs[g]) && sub@.wf()
                            && sub@.names() == dfv.names() && call_ensures(
                            transform,
                            (sub,),
                            Err::<Table, ExplorerError>(e),
                        ) {
                        let (gs, g, sub): (Seq<Seq<int>>, int, Table) = choose|
                            gs: Seq<Seq<int>>,
                            g: int,
                            sub: Table,
                        |
                            #![auto]
                            is_stable_partition(dfv, spec_resolve(dfv, groups.deep_view()), gs)
                                && 0 <= g < gs.len() && sub@ == spec_take(dfv, gs[g]) && sub@.wf()
                                && sub@.names() == dfv.names() && call_ensures(
                                transform,
                                (sub,),
                                Err::<Table, ExplorerError>(e),
                            );
                        assert(e is SampleTooLarge);
                        assert(spec_take(df@, gs[g]) == spec_take(dfv, gs[g]));
                        assert(!frac_ok_all_groups(df@, gs, frac_num as nat, frac_den as nat, replace));
                        assert(exists|gs2: Seq<Seq<int>>|
                            #![auto]
                            is_stable_partition(df@, spec_resolve(df@, groups.deep_view()), gs2)
                                && !frac_ok_all_groups(
                                df@,
                                gs2,
                                frac_num as nat,
                                frac_den as nat,
                                replace,
                            ));
                    } else {
                        let (s1, p1, s2, p2): (Table, Table, Table, Table) = choose|
                            s1: Table,
                            p1: Table,
                            s2: Table,
                            p2: Table,
                        |
                            #![auto]
                            call_ensures(transform, (s1,), Ok(p1)) && call_ensures(
                                transform,
                                (s2,),
                                Ok(p2),
                            ) && s1@.names() == dfv.names() && s2@.names() == dfv.names()
                                && p1@.names() != p2@.names();
                        assert(p1@.names() == s1@.names());
                        assert(p2@.names() == s2@.names());
                        assert(false);
                    }
                }
            }
        }
    }
    r
}

} // verus!
