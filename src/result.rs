//! The per-function results: the surviving monomorphizations, re-indexed densely, with the
//! callee monomorphization that each call site uses.
use vstd::prelude::*;
use crate::constraint::{Constraint, ConcretePerm, satisfied_by};
use crate::inst::{table_view, selection_ok, is_first_compatible};
use crate::mono::{mono_sigs_of, lemma_mono_sigs_distinct};
use crate::mono_filter::{
    row_kept,
    lemma_row_kept_bound,
    lemma_row_kept_all,
    lemma_row_kept_step,
    table_ok,
    sels_ok,
    sel_spec,
    some_selection_fails,
    removed_shape,
    removal_closed,
    get_all_mono_sigs,
    find_all_instantiations,
    filter_suspicious_monos,
    filter_unreachable,
};
use crate::inter::{SolveError, analyze_inter, grows_csets, is_complete, pass_bound};
use crate::labeled_ty::LFnSig;
use crate::summary::{FnSummary, Instantiation, table_wf, copy_assign, copy_sig, lsig_view};

verus! {

/// One monomorphization of a function.
pub struct MonoResult {
    /// The concrete permission of each signature variable.
    pub assign: Vec<ConcretePerm>,
    /// For each instantiation of the function, in order, the index of the chosen callee
    /// monomorphization in the callee's result.
    pub callee_mono_idxs: Vec<usize>,
}

/// The result of the analysis for one function.
pub struct FunctionResult {
    /// The signature, each pointer labeled with a signature variable.
    pub sig: LFnSig,
    pub num_sig_vars: u32,
    /// Constraint set over the signature variables.
    pub cset: Vec<Constraint>,
    pub monos: Vec<MonoResult>,
    /// The callee of each instantiation, in order.
    pub inst_callees: Vec<usize>,
    /// The referenced functions, each once, in order of first reference.
    pub callee_ids: Vec<usize>,
}

/// The position that a kept monomorphization `k` takes once the removed ones before it are gone.
pub open spec fn kept_before(r: Seq<bool>, k: int) -> nat {
    row_kept(r.take(k))
}

/// Some kept monomorphization below `bound` lands at position `m`.
pub open spec fn kept_origin(r: Seq<bool>, m: int, bound: int) -> bool {
    exists|k: int| 0 <= k < bound && !r[k] && #[trigger] kept_before(r, k) == m
}

/// The callee of each instantiation.
pub open spec fn callees_of(insts: Seq<Instantiation>) -> Seq<usize> {
    insts.map_values(|i: Instantiation| i.callee)
}

/// The monomorphizations of every function of a table of summaries.
pub open spec fn mono_table(summs: Seq<FnSummary>) -> Seq<Seq<Seq<ConcretePerm>>> {
    Seq::new(summs.len(), |f: int| mono_sigs_of(summs[f].num_sig_vars as nat, summs[f].cset@))
}

/// The assignments of a list of monomorphizations.
pub open spec fn mono_assigns(monos: Seq<MonoResult>) -> Seq<Seq<ConcretePerm>> {
    monos.map_values(|m: MonoResult| m.assign@)
}

/// Monomorphization `m` of function `f` satisfies the function's constraint set, and each of its
/// call sites points at an existing callee monomorphization that, with it, satisfies the
/// instantiation's constraints: the first such in the callee's full enumeration, at its position
/// after filtering.
pub open spec fn mono_sound(summs: Seq<FnSummary>, r: Seq<FunctionResult>, f: int, m: int) -> bool {
    let a = r[f].monos@[m];
    let insts = summs[f].insts@;
    &&& mono_sigs_of(summs[f].num_sig_vars as nat, summs[f].cset@).contains(a.assign@)
    &&& a.callee_mono_idxs@.len() == insts.len()
    &&& forall|j: int|
        0 <= j < insts.len() ==> {
            let g = insts[j].callee as int;
            let idx = #[trigger] a.callee_mono_idxs@[j] as int;
            &&& idx < r[g].monos@.len()
            &&& satisfied_by(insts[j].cset@, a.assign@, r[g].monos@[idx].assign@)
            &&& exists|k: int|
                is_first_compatible(insts[j].cset@, a.assign@, mono_table(summs)[g], k)
                    && #[trigger] mono_table(summs)[g][k] == r[g].monos@[idx].assign@
        }
}

/// Per function: the position of each kept monomorphization after filtering.
pub fn filtered_mono_idxs(removed: &Vec<Vec<bool>>) -> (r: Vec<Vec<usize>>)
    ensures
        r@.len() == removed@.len(),
        forall|f: int| 0 <= f < r@.len() ==> (#[trigger] r@[f])@.len() == removed@[f]@.len(),
        forall|f: int, k: int|
            0 <= f < r@.len() && 0 <= k < r@[f]@.len() ==> #[trigger] r@[f]@[k] == kept_before(
                removed@[f]@,
                k,
            ),
{
    let mut r: Vec<Vec<usize>> = Vec::new();
    for f in 0..removed.len()
        invariant
            r@.len() == f,
            f <= removed@.len(),
            forall|g: int| 0 <= g < f ==> (#[trigger] r@[g])@.len() == removed@[g]@.len(),
            forall|g: int, k: int|
                0 <= g < f && 0 <= k < r@[g]@.len() ==> #[trigger] r@[g]@[k] == kept_before(
                    removed@[g]@,
                    k,
                ),
    {
        let row = &removed[f];
        let mut out: Vec<usize> = Vec::new();
        let mut j: usize = 0;
        let n = row.len();
        for k in 0..n
            invariant
                n == row@.len(),
                out@.len() == k,
                j == row_kept(row@.take(k as int)),
                forall|q: int| 0 <= q < k ==> #[trigger] out@[q] == kept_before(row@, q),
        {
            proof {
                lemma_row_kept_step(row@, k as int);
                lemma_row_kept_bound(row@.take(k as int + 1));
            }
            out.push(j);
            if !row[k] {
                j = j + 1;
            }
        }
        r.push(out);
    }
    r
}

/// The elements of `s`, each once, in order of first occurrence.
pub open spec fn first_occurrences(s: Seq<usize>) -> Seq<usize>
    decreases s.len(),
{
    if s.len() == 0 {
        Seq::empty()
    } else {
        let r = first_occurrences(s.drop_last());
        if r.contains(s.last()) { r } else { r.push(s.last()) }
    }
}

/// The list of `ids`, each once, in order of first occurrence.
fn dedup_ids(ids: &Vec<usize>) -> (r: Vec<usize>)
    ensures
        r@ == first_occurrences(ids@),
        r@.no_duplicates(),
        forall|x: usize| r@.contains(x) <==> ids@.contains(x),
{
    let mut r: Vec<usize> = Vec::new();
    let n = ids.len();
    for i in 0..n
        invariant
            n == ids@.len(),
            r@ == first_occurrences(ids@.take(i as int)),
            r@.no_duplicates(),
            forall|x: usize| r@.contains(x) <==> ids@.take(i as int).contains(x),
    {
        let x = ids[i];
        let mut found = false;
        let m = r.len();
        for k in 0..m
            invariant
                m == r@.len(),
                found <==> r@.take(k as int).contains(x),
        {
            proof {
                let t0 = r@.take(k as int);
                let t1 = r@.take(k as int + 1);
                assert(t1 =~= t0.push(r@[k as int]));
                if t0.contains(x) {
                    let w = choose|w: int| 0 <= w < t0.len() && t0[w] == x;
                    assert(t1[w] == x);
                }
                if t1.contains(x) && !t0.contains(x) {
                    let w = choose|w: int| 0 <= w < t1.len() && t1[w] == x;
                    if w < k {
                        assert(t0[w] == x);
                    }
                }
                if r@[k as int] == x {
                    assert(t1[k as int] == x);
                }
            }
            if r[k] == x {
                found = true;
            }
        }
        assert(r@.take(m as int) =~= r@);
        let ghost t0 = ids@.take(i as int);
        let ghost t1 = ids@.take(i as int + 1);
        assert(t1 =~= t0.push(x));
        assert(t1.drop_last() =~= t0);
        let ghost r0 = r@;
        if !found {
            r.push(x);
        }
        proof {
            assert forall|y: usize| r@.contains(y) <==> t1.contains(y) by {
                if t1.contains(y) {
                    let w = choose|w: int| 0 <= w < t1.len() && t1[w] == y;
                    if w < i {
                        assert(t0[w] == y);
                        assert(r0.contains(y));
                        let v = choose|v: int| 0 <= v < r0.len() && r0[v] == y;
                        assert(r@[v] == y);
                    } else if !found {
                        assert(r@[r0.len() as int] == y);
                    } else {
                        assert(r0.contains(y));
                        let v = choose|v: int| 0 <= v < r0.len() && r0[v] == y;
                        assert(r@[v] == y);
                    }
                }
                if r@.contains(y) {
                    let v = choose|v: int| 0 <= v < r@.len() && r@[v] == y;
                    if v < r0.len() {
                        assert(r0[v] == y);
                        assert(r0.contains(y));
                        assert(t0.contains(y));
                        let w = choose|w: int| 0 <= w < t0.len() && t0[w] == y;
                        assert(t1[w] == y);
                    } else {
                        assert(t1[i as int] == y);
                    }
                }
            }
        }
    }
    assert(ids@.take(n as int) =~= ids@);
    r
}

/// What `build_result` promises of the result of function `f`.
pub open spec fn row_ok(
    summs: Seq<FnSummary>,
    tv: Seq<Seq<Seq<ConcretePerm>>>,
    sels: Seq<Vec<Option<Vec<usize>>>>,
    removed: Seq<Vec<bool>>,
    f: int,
    res: FunctionResult,
) -> bool {
    &&& lsig_view(res.sig) == lsig_view(summs[f].sig)
    &&& res.num_sig_vars == summs[f].num_sig_vars
    &&& res.cset@ == summs[f].cset@
    &&& res.inst_callees@ == callees_of(summs[f].insts@)
    &&& res.callee_ids@ == first_occurrences(callees_of(summs[f].insts@))
    &&& res.callee_ids@.no_duplicates()
    &&& forall|x: usize| res.callee_ids@.contains(x) <==> callees_of(summs[f].insts@).contains(x)
    &&& res.monos@.len() == row_kept(removed[f]@)
    &&& forall|k: int|
        0 <= k < tv[f].len() && !removed[f]@[k] ==> {
            let m = #[trigger] kept_before(removed[f]@, k) as int;
            &&& m < res.monos@.len()
            &&& res.monos@[m].assign@ == tv[f][k]
            &&& res.monos@[m].callee_mono_idxs@.len() == summs[f].insts@.len()
            &&& forall|j: int|
                0 <= j < summs[f].insts@.len() ==> #[trigger] res.monos@[m].callee_mono_idxs@[j]
                    == kept_before(
                    removed[summs[f].insts@[j].callee as int]@,
                    sels[f]@[k]->Some_0@[j] as int,
                )
        }
    &&& forall|m: int| 0 <= m < res.monos@.len() ==> #[trigger] kept_origin(removed[f]@, m, tv[f].len() as int)
}

/// For each instantiation, the entry of `idxs` at its callee and its selected monomorphization.
fn callee_positions(insts: &Vec<Instantiation>, sel: &Vec<usize>, idxs: &Vec<Vec<usize>>) -> (r: Vec<usize>)
    requires
        sel@.len() == insts@.len(),
        forall|j: int| 0 <= j < insts@.len() ==> {
            let g = #[trigger] insts@[j].callee as int;
            g < idxs@.len() && sel@[j] < idxs@[g]@.len()
        },
    ensures
        r@.len() == insts@.len(),
        forall|j: int| 0 <= j < insts@.len() ==> #[trigger] r@[j] == idxs@[insts@[j].callee as int]@[sel@[j] as int],
{
    let mut r: Vec<usize> = Vec::new();
    let n = insts.len();
    for j in 0..n
        invariant
            n == insts@.len(),
            sel@.len() == insts@.len(),
            forall|q: int| 0 <= q < insts@.len() ==> {
                let g = #[trigger] insts@[q].callee as int;
                g < idxs@.len() && sel@[q] < idxs@[g]@.len()
            },
            r@.len() == j,
            forall|q: int| 0 <= q < j ==> #[trigger] r@[q] == idxs@[insts@[q].callee as int]@[sel@[q] as int],
    {
        let g = insts[j].callee;
        proof {
            assert(0 <= j < insts@.len());
        }
        r.push(idxs[g][sel[j]]);
    }
    r
}

fn build_result(
    summs: &Vec<FnSummary>,
    f: usize,
    table: &Vec<Vec<Vec<ConcretePerm>>>,
    sels: &Vec<Vec<Option<Vec<usize>>>>,
    removed: &Vec<Vec<bool>>,
    idxs: &Vec<Vec<usize>>,
) -> (res: FunctionResult)
    requires
        f < summs@.len(),
        table_wf(summs@),
        table_ok(summs@, table_view(table@)),
        sels_ok(summs@, table_view(table@), sels@),
        removed_shape(table_view(table@), removed@),
        removal_closed(summs@, sels@, removed@),
        idxs@.len() == removed@.len(),
        forall|g: int| 0 <= g < idxs@.len() ==> (#[trigger] idxs@[g])@.len() == removed@[g]@.len(),
        forall|g: int, k: int|
            0 <= g < idxs@.len() && 0 <= k < idxs@[g]@.len() ==> #[trigger] idxs@[g]@[k] == kept_before(
                removed@[g]@,
                k,
            ),
    ensures
        row_ok(summs@, table_view(table@), sels@, removed@, f as int, res),
{
    let ghost tv = table_view(table@);
    let summ = &summs[f];
    let ghost fi = f as int;
    let ghost row = removed@[fi]@;
    assert(row.len() == tv[fi].len());
    assert(tv[fi] == crate::summary::assigns_view(table@[fi]@));
    let mut monos: Vec<MonoResult> = Vec::new();
    let n = table[f].len();
    let mut k: usize = 0;
    while k < n
        invariant
            k <= n,
            n == tv[fi].len(),
            n == table@[fi]@.len(),
            fi == f,
            f < summs@.len(),
            summ == summs@[fi],
            row == removed@[fi]@,
            tv == table_view(table@),
            tv[fi] == crate::summary::assigns_view(table@[fi]@),
            table_wf(summs@),
            table_ok(summs@, tv),
            sels_ok(summs@, tv, sels@),
            removed_shape(tv, removed@),
            removal_closed(summs@, sels@, removed@),
            idxs@.len() == removed@.len(),
            forall|g: int| 0 <= g < idxs@.len() ==> (#[trigger] idxs@[g])@.len() == removed@[g]@.len(),
            forall|g: int, q: int|
                0 <= g < idxs@.len() && 0 <= q < idxs@[g]@.len() ==> #[trigger] idxs@[g]@[q]
                    == kept_before(removed@[g]@, q),
            monos@.len() == row_kept(row.take(k as int)),
            forall|q: int|
                0 <= q < k && !row[q] ==> {
                    let m = #[trigger] kept_before(row, q) as int;
                    &&& m < monos@.len()
                    &&& monos@[m].assign@ == tv[fi][q]
                    &&& monos@[m].callee_mono_idxs@.len() == summs@[fi].insts@.len()
                    &&& forall|j: int|
                        0 <= j < summs@[fi].insts@.len() ==> #[trigger] monos@[m].callee_mono_idxs@[j]
                            == kept_before(
                            removed@[summs@[fi].insts@[j].callee as int]@,
                            sels@[fi]@[q]->Some_0@[j] as int,
                        )
                },
            forall|m: int| 0 <= m < monos@.len() ==> #[trigger] kept_origin(row, m, k as int),
        decreases n - k,
    {
        proof {
            lemma_row_kept_step(row, k as int);
        }
        if !removed[f][k] {
            let ghost ki = k as int;
            assert(sel_spec(sels@[fi]@[ki], summs@[fi].insts@, tv[fi][ki], tv));
            assert(sels@[fi]@[ki] is Some);
            let sel = match &sels[f][k] {
                Some(s) => s,
                None => {
                    proof {
                        assert(false);
                    }
                    return FunctionResult {
                        sig: copy_sig(&summ.sig),
                        num_sig_vars: 0,
                        cset: Vec::new(),
                        monos: Vec::new(),
                        inst_callees: Vec::new(),
                        callee_ids: Vec::new(),
                    };
                },
            };
            assert(sels@[fi]@[ki] == Some(*sel));
            assert(selection_ok(summs@[fi].insts@, tv[fi][ki], tv, sel@));
            proof {
                assert forall|j: int| 0 <= j < summs@[fi].insts@.len() implies {
                    let g = #[trigger] summs@[fi].insts@[j].callee as int;
                    g < idxs@.len() && sel@[j] < idxs@[g]@.len()
                } by {
                    let g = summs@[fi].insts@[j].callee as int;
                    assert(is_first_compatible(summs@[fi].insts@[j].cset@, tv[fi][ki], tv[g], sel@[j] as int));
                    assert(removed@[g]@.len() == tv[g].len());
                }
            }
            let cidx = callee_positions(&summ.insts, sel, idxs);
            proof {
                assert forall|j: int| 0 <= j < summs@[fi].insts@.len() implies #[trigger] cidx@[j] == kept_before(
                    removed@[summs@[fi].insts@[j].callee as int]@,
                    sels@[fi]@[ki]->Some_0@[j] as int,
                ) by {
                    let g = summs@[fi].insts@[j].callee as int;
                    assert(idxs@[g]@[sel@[j] as int] == kept_before(removed@[g]@, sel@[j] as int));
                }
            }
            let ghost old_monos = monos@;
            monos.push(MonoResult { assign: copy_assign(&table[f][k]), callee_mono_idxs: cidx });
            proof {
                assert forall|q: int|
                    0 <= q < k + 1 && !row[q] implies {
                        let m = #[trigger] kept_before(row, q) as int;
                        &&& m < monos@.len()
                        &&& monos@[m].assign@ == tv[fi][q]
                        &&& monos@[m].callee_mono_idxs@.len() == summs@[fi].insts@.len()
                        &&& forall|j: int|
                            0 <= j < summs@[fi].insts@.len() ==> #[trigger] monos@[m].callee_mono_idxs@[j]
                                == kept_before(
                                removed@[summs@[fi].insts@[j].callee as int]@,
                                sels@[fi]@[q]->Some_0@[j] as int,
                            )
                    } by {
                    if q < k {
                        assert(monos@[kept_before(row, q) as int] == old_monos[kept_before(row, q) as int]);
                    }
                }
                assert forall|m: int| 0 <= m < monos@.len() implies #[trigger] kept_origin(row, m, k + 1) by {
                    if m < old_monos.len() {
                        assert(kept_origin(row, m, k as int));
                        let q = choose|q: int| 0 <= q < k && !row[q] && #[trigger] kept_before(row, q) == m;
                        assert(kept_before(row, q) == m);
                    } else {
                        assert(kept_before(row, k as int) == m);
                    }
                }
            }
        } else {
            proof {
                assert forall|m: int| 0 <= m < monos@.len() implies #[trigger] kept_origin(row, m, k + 1) by {
                    assert(kept_origin(row, m, k as int));
                    let q = choose|q: int| 0 <= q < k && !row[q] && #[trigger] kept_before(row, q) == m;
                    assert(kept_before(row, q) == m);
                }
            }
        }
        k = k + 1;
    }
    assert(row.take(n as int) =~= row);
    let mut inst_callees: Vec<usize> = Vec::new();
    for j in 0..summ.insts.len()
        invariant
            inst_callees@ == callees_of(summ.insts@).take(j as int),
    {
        inst_callees.push(summ.insts[j].callee);
        assert(inst_callees@ =~= callees_of(summ.insts@).take(j as int + 1));
    }
    assert(inst_callees@ =~= callees_of(summ.insts@));
    let callee_ids = dedup_ids(&inst_callees);
    let mut cset: Vec<Constraint> = Vec::new();
    for j in 0..summ.cset.len()
        invariant
            cset@ == summ.cset@.take(j as int),
    {
        cset.push(summ.cset[j]);
        assert(cset@ =~= summ.cset@.take(j as int + 1));
    }
    assert(cset@ =~= summ.cset@);
    let sig = copy_sig(&summ.sig);
    FunctionResult { sig, num_sig_vars: summ.num_sig_vars, cset, monos, inst_callees, callee_ids }
}

/// What the analysis promises of its results for a table of summaries: one result per function,
/// in order, with the function's signature, constraint set and callees; every monomorphization
/// sound; and, when every call site of every monomorphization has a compatible callee
/// monomorphization, every monomorphization kept.
pub open spec fn results_ok(summs: Seq<FnSummary>, roots: Seq<bool>, r: Seq<FunctionResult>) -> bool {
    &&& r.len() == summs.len()
    &&& forall|f: int|
        0 <= f < summs.len() ==> {
            &&& lsig_view((#[trigger] r[f]).sig) == lsig_view(summs[f].sig)
            &&& r[f].num_sig_vars == summs[f].num_sig_vars
            &&& r[f].cset@ == summs[f].cset@
            &&& r[f].inst_callees@ == callees_of(summs[f].insts@)
            &&& r[f].callee_ids@ == first_occurrences(callees_of(summs[f].insts@))
            &&& r[f].callee_ids@.no_duplicates()
            &&& forall|x: usize| r[f].callee_ids@.contains(x) <==> callees_of(summs[f].insts@).contains(x)
        }
    &&& forall|f: int, m: int|
        0 <= f < summs.len() && 0 <= m < r[f].monos@.len() ==> #[trigger] mono_sound(summs, r, f, m)
    &&& forall|f: int, m1: int, m2: int|
        0 <= f < summs.len() && 0 <= m1 < r[f].monos@.len() && 0 <= m2 < r[f].monos@.len() && m1 != m2
            ==> #[trigger] r[f].monos@[m1].assign@ != #[trigger] r[f].monos@[m2].assign@
    &&& !some_selection_fails(summs, mono_table(summs)) ==> forall|f: int|
        0 <= f < summs.len() && roots[f] ==> #[trigger] mono_assigns(r[f].monos@) == mono_table(summs)[f]
}

/// Monomorphizes every function of a table of complete summaries, selects at each call site the
/// callee monomorphization to use, removes the monomorphizations that cannot be used, and builds
/// one result per function, in the order of the table.
///
/// Every monomorphization of a result satisfies the function's constraint set, and each of its
/// call sites points into the callee's (filtered) list at a monomorphization that satisfies the
/// instantiation's constraints.  A monomorphization stays only if a root function's usable
/// monomorphization reaches it through selections; when every function is a root and every call
/// site of every monomorphization has a compatible callee monomorphization, nothing is removed.
/// An unsatisfiable function keeps its entry, with no monomorphization.
pub fn analyze_complete(summs: &Vec<FnSummary>, roots: &Vec<bool>) -> (r: Vec<FunctionResult>)
    requires
        table_wf(summs@),
        roots@.len() == summs@.len(),
    ensures
        results_ok(summs@, roots@, r@),
{
    let table = get_all_mono_sigs(summs);
    let ghost tv = table_view(table@);
    let sels = find_all_instantiations(summs, &table);
    let removed = filter_suspicious_monos(summs, &table, &sels);
    let dead = filter_unreachable(summs, &table, &sels, &removed, roots);
    let idxs = filtered_mono_idxs(&dead);
    let mut r: Vec<FunctionResult> = Vec::new();
    let n = summs.len();
    for f in 0..n
        invariant
            n == summs@.len(),
            r@.len() == f,
            tv == table_view(table@),
            table_wf(summs@),
            table_ok(summs@, tv),
            sels_ok(summs@, tv, sels@),
            removed_shape(tv, dead@),
            removal_closed(summs@, sels@, dead@),
            idxs@.len() == dead@.len(),
            forall|g: int| 0 <= g < idxs@.len() ==> (#[trigger] idxs@[g])@.len() == dead@[g]@.len(),
            forall|g: int, k: int|
                0 <= g < idxs@.len() && 0 <= k < idxs@[g]@.len() ==> #[trigger] idxs@[g]@[k] == kept_before(
                    dead@[g]@,
                    k,
                ),
            forall|g: int| 0 <= g < f ==> row_ok(summs@, tv, sels@, dead@, g, #[trigger] r@[g]),
    {
        let res = build_result(summs, f, &table, &sels, &dead, &idxs);
        r.push(res);
    }
    proof {
        assert(tv =~= mono_table(summs@));
        assert forall|f: int, m: int|
            0 <= f < summs@.len() && 0 <= m < r@[f].monos@.len() implies #[trigger] mono_sound(summs@, r@, f, m) by {
            assert(row_ok(summs@, tv, sels@, dead@, f, r@[f]));
            assert(kept_origin(dead@[f]@, m, tv[f].len() as int));
            let k = choose|k: int|
                0 <= k < tv[f].len() && !dead@[f]@[k] && #[trigger] kept_before(dead@[f]@, k) == m;
            let a = r@[f].monos@[m];
            assert(a.assign@ == tv[f][k]);
            assert(tv[f].contains(a.assign@));
            assert(sel_spec(sels@[f]@[k], summs@[f].insts@, tv[f][k], tv));
            let sel = sels@[f]@[k]->Some_0;
            let insts = summs@[f].insts@;
            assert forall|j: int| 0 <= j < insts.len() implies {
                let g = insts[j].callee as int;
                let idx = #[trigger] a.callee_mono_idxs@[j] as int;
                &&& idx < r@[g].monos@.len()
                &&& satisfied_by(insts[j].cset@, a.assign@, r@[g].monos@[idx].assign@)
            } by {
                let g = insts[j].callee as int;
                let sk = sel@[j] as int;
                assert(is_first_compatible(insts[j].cset@, tv[f][k], tv[g], sk));
                assert(!dead@[g]@[sk]);
                assert(row_ok(summs@, tv, sels@, dead@, g, r@[g]));
                assert(a.callee_mono_idxs@[j] == kept_before(dead@[g]@, sk));
                assert(mono_table(summs@)[g] == tv[g]);
                assert(is_first_compatible(insts[j].cset@, a.assign@, mono_table(summs@)[g], sk));
            }
        }
        assert forall|f: int, m1: int, m2: int|
            0 <= f < summs@.len() && 0 <= m1 < r@[f].monos@.len() && 0 <= m2 < r@[f].monos@.len() && m1 != m2
                implies #[trigger] r@[f].monos@[m1].assign@ != #[trigger] r@[f].monos@[m2].assign@ by {
            assert(row_ok(summs@, tv, sels@, dead@, f, r@[f]));
            assert(kept_origin(dead@[f]@, m1, tv[f].len() as int));
            assert(kept_origin(dead@[f]@, m2, tv[f].len() as int));
            let k1 = choose|k: int| 0 <= k < tv[f].len() && !dead@[f]@[k] && #[trigger] kept_before(dead@[f]@, k) == m1;
            let k2 = choose|k: int| 0 <= k < tv[f].len() && !dead@[f]@[k] && #[trigger] kept_before(dead@[f]@, k) == m2;
            lemma_mono_sigs_distinct(summs@[f].num_sig_vars as nat, summs@[f].cset@);
            assert(k1 != k2);
            assert(r@[f].monos@[m1].assign@ == tv[f][k1]);
            assert(r@[f].monos@[m2].assign@ == tv[f][k2]);
        }
        if !some_selection_fails(summs@, mono_table(summs@)) {
            assert forall|f: int| 0 <= f < summs@.len() && roots@[f] implies #[trigger] mono_assigns(r@[f].monos@)
                == mono_table(summs@)[f] by {
                let row = dead@[f]@;
                assert forall|i: int| 0 <= i < row.len() implies !#[trigger] row[i] by {
                    assert(roots@[f]);
                    if removed@[f]@[i] {
                        assert(some_selection_fails(summs@, tv));
                    }
                }
                lemma_row_kept_all(row);
                assert(row_ok(summs@, tv, sels@, dead@, f, r@[f]));
                assert forall|k: int| 0 <= k < row.len() implies #[trigger] mono_assigns(r@[f].monos@)[k] == tv[f][k] by {
                    assert forall|i: int| 0 <= i < row.take(k).len() implies !#[trigger] row.take(k)[i] by {
                        assert(!row[i]);
                    }
                    lemma_row_kept_all(row.take(k));
                    assert(kept_before(row, k) == k);
                }
                assert(mono_assigns(r@[f].monos@) =~= tv[f]);
            }
        }
    }
    r
}

/// The whole analysis over a table of summaries: completes every constraint set (see
/// `analyze_inter`), then monomorphizes, selects and filters (see `analyze_complete`).  Fails,
/// leaving the summaries as they were, when the constraint sets do not settle within
/// `max_passes` passes.
pub fn analyze(summs: &mut Vec<FnSummary>, roots: &Vec<bool>, max_passes: usize) -> (r: Result<Vec<FunctionResult>, SolveError>)
    requires
        table_wf(old(summs)@),
        roots@.len() == old(summs)@.len(),
    ensures
        grows_csets(old(summs)@, final(summs)@),
        match r {
            Ok(res) => is_complete(final(summs)@) && results_ok(final(summs)@, roots@, res@),
            Err(e) => e == SolveError::DidNotConverge && final(summs)@ == old(summs)@,
        },
        max_passes >= pass_bound(old(summs)@) ==> r is Ok,
        is_complete(old(summs)@) && max_passes > 0 ==> r is Ok && final(summs)@ == old(summs)@,
{
    match analyze_inter(summs, max_passes) {
        Ok(()) => {
            proof {
                assert forall|f: int, j: int|
                    0 <= f < summs@.len() && 0 <= j < summs@[f].insts@.len() implies #[trigger] summs@[f].insts@[j].callee
                        < summs@.len() by {
                    assert(summs@[f] == summs@[f]);
                    assert(summs@[f].insts == old(summs)@[f].insts);
                    assert(old(summs)@[f].insts@[j].callee < old(summs)@.len());
                }
            }
            Ok(analyze_complete(summs, roots))
        },
        Err(e) => Err(e),
    }
}

} // verus!
