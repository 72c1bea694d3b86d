//! Removal of the monomorphizations that cannot be used: those with an instantiation that has no
//! compatible callee monomorphization, and, transitively, those that select a removed one.
use vstd::prelude::*;
use crate::constraint::ConcretePerm;
use crate::inst::{find_instantiations, selection_fails, selection_ok, table_view};
use crate::mono::{get_mono_sigs, mono_sigs_of};
use crate::summary::{FnSummary, Instantiation, table_wf, assigns_view};

verus! {

/// The number of `false` entries (kept monomorphizations) of a row.
pub open spec fn row_kept(r: Seq<bool>) -> nat
    decreases r.len(),
{
    if r.len() == 0 {
        0
    } else {
        row_kept(r.drop_last()) + if r.last() {
            0nat
        } else {
            1nat
        }
    }
}

/// The number of kept monomorphizations over all rows.
pub open spec fn total_kept(rows: Seq<Vec<bool>>) -> nat
    decreases rows.len(),
{
    if rows.len() == 0 {
        0
    } else {
        total_kept(rows.drop_last()) + row_kept(rows.last()@)
    }
}

pub proof fn lemma_row_kept_bound(r: Seq<bool>)
    ensures
        row_kept(r) <= r.len(),
    decreases r.len(),
{
    if r.len() > 0 {
        lemma_row_kept_bound(r.drop_last());
    }
}

pub proof fn lemma_row_kept_all(r: Seq<bool>)
    requires
        forall|i: int| 0 <= i < r.len() ==> !#[trigger] r[i],
    ensures
        row_kept(r) == r.len(),
    decreases r.len(),
{
    if r.len() > 0 {
        lemma_row_kept_all(r.drop_last());
    }
}

pub proof fn lemma_row_kept_step(r: Seq<bool>, i: int)
    requires
        0 <= i < r.len(),
    ensures
        row_kept(r.take(i + 1)) == row_kept(r.take(i)) + if r[i] { 0nat } else { 1nat },
{
    assert(r.take(i + 1).drop_last() =~= r.take(i));
}

proof fn lemma_row_kept_remove(r: Seq<bool>, i: int)
    requires
        0 <= i < r.len(),
        !r[i],
    ensures
        row_kept(r.update(i, true)) + 1 == row_kept(r),
    decreases r.len(),
{
    if i == r.len() - 1 {
        assert(r.update(i, true).drop_last() =~= r.drop_last());
    } else {
        lemma_row_kept_remove(r.drop_last(), i);
        assert(r.update(i, true).drop_last() =~= r.drop_last().update(i, true));
    }
}

proof fn lemma_total_kept_remove(rows: Seq<Vec<bool>>, f: int, row: Vec<bool>)
    requires
        0 <= f < rows.len(),
        row_kept(row@) + 1 == row_kept(rows[f]@),
    ensures
        total_kept(rows.update(f, row)) + 1 == total_kept(rows),
    decreases rows.len(),
{
    if f == rows.len() - 1 {
        assert(rows.update(f, row).drop_last() =~= rows.drop_last());
    } else {
        lemma_total_kept_remove(rows.drop_last(), f, row);
        assert(rows.update(f, row).drop_last() =~= rows.drop_last().update(f, row));
    }
}

/// The monomorphizations of every function of the table, in order.
pub open spec fn table_ok(summs: Seq<FnSummary>, tv: Seq<Seq<Seq<ConcretePerm>>>) -> bool {
    &&& tv.len() == summs.len()
    &&& forall|f: int|
        0 <= f < summs.len() ==> #[trigger] tv[f] == mono_sigs_of(
            summs[f].num_sig_vars as nat,
            summs[f].cset@,
        )
}

/// What `find_instantiations` promises of one result.
pub open spec fn sel_spec(
    o: Option<Vec<usize>>,
    insts: Seq<Instantiation>,
    sig: Seq<ConcretePerm>,
    tv: Seq<Seq<Seq<ConcretePerm>>>,
) -> bool {
    match o {
        Some(s) => selection_ok(insts, sig, tv, s@),
        None => selection_fails(insts, sig, tv),
    }
}

/// `sels` holds the selection of every monomorphization of every function.
pub open spec fn sels_ok(
    summs: Seq<FnSummary>,
    tv: Seq<Seq<Seq<ConcretePerm>>>,
    sels: Seq<Vec<Option<Vec<usize>>>>,
) -> bool {
    &&& sels.len() == summs.len()
    &&& forall|f: int| 0 <= f < summs.len() ==> (#[trigger] sels[f])@.len() == tv[f].len()
    &&& forall|f: int, i: int|
        0 <= f < summs.len() && 0 <= i < tv[f].len() ==> sel_spec(
            #[trigger] sels[f]@[i],
            summs[f].insts@,
            tv[f][i],
            tv,
        )
}

/// Some monomorphization of some function has an instantiation with no compatible callee
/// monomorphization.
pub open spec fn some_selection_fails(summs: Seq<FnSummary>, tv: Seq<Seq<Seq<ConcretePerm>>>) -> bool {
    exists|f: int, i: int|
        0 <= f < summs.len() && 0 <= i < tv[f].len() && #[trigger] selection_fails(
            summs[f].insts@,
            tv[f][i],
            tv,
        )
}

/// `removed` has one flag per monomorphization.
pub open spec fn removed_shape(tv: Seq<Seq<Seq<ConcretePerm>>>, removed: Seq<Vec<bool>>) -> bool {
    &&& removed.len() == tv.len()
    &&& forall|f: int| 0 <= f < tv.len() ==> (#[trigger] removed[f])@.len() == tv[f].len()
}

/// Every member of `s` is a monomorphization with a selection, and selects only members of `s`.
pub open spec fn selection_consistent(
    summs: Seq<FnSummary>,
    sels: Seq<Vec<Option<Vec<usize>>>>,
    tv: Seq<Seq<Seq<ConcretePerm>>>,
    s: Set<(int, int)>,
) -> bool {
    forall|f: int, i: int|
        #[trigger] s.contains((f, i)) ==> {
            &&& 0 <= f < tv.len() && 0 <= i < tv[f].len()
            &&& sels[f]@[i] is Some
            &&& forall|j: int|
                0 <= j < summs[f].insts@.len() ==> s.contains(
                    (summs[f].insts@[j].callee as int, #[trigger] sels[f]@[i]->Some_0@[j] as int),
                )
        }
}

/// Every kept monomorphization has a selection, and selects only kept callee monomorphizations.
pub open spec fn removal_closed(
    summs: Seq<FnSummary>,
    sels: Seq<Vec<Option<Vec<usize>>>>,
    removed: Seq<Vec<bool>>,
) -> bool {
    forall|f: int, i: int|
        0 <= f < summs.len() && 0 <= i < removed[f]@.len() && !(#[trigger] removed[f]@[i]) ==> {
            &&& sels[f]@[i] is Some
            &&& forall|j: int|
                0 <= j < summs[f].insts@.len() ==> !removed[summs[f].insts@[j].callee as int]@[(
                #[trigger] sels[f]@[i]->Some_0@[j]) as int]
        }
}

/// Enumerates the monomorphizations of every function.
pub fn get_all_mono_sigs(summs: &Vec<FnSummary>) -> (r: Vec<Vec<Vec<ConcretePerm>>>)
    ensures
        table_ok(summs@, table_view(r@)),
{
    let mut r: Vec<Vec<Vec<ConcretePerm>>> = Vec::new();
    for f in 0..summs.len()
        invariant
            r@.len() == f,
            forall|g: int|
                0 <= g < f ==> #[trigger] assigns_view(r@[g]@) == mono_sigs_of(
                    summs@[g].num_sig_vars as nat,
                    summs@[g].cset@,
                ),
    {
        r.push(get_mono_sigs(&summs[f]));
    }
    proof {
        let tv = table_view(r@);
        assert forall|g: int| 0 <= g < summs@.len() implies #[trigger] tv[g] == mono_sigs_of(
            summs@[g].num_sig_vars as nat,
            summs@[g].cset@,
        ) by {
            assert(tv[g] == assigns_view(r@[g]@));
        }
    }
    r
}

/// Selects callee monomorphizations for every monomorphization of every function.
pub fn find_all_instantiations(summs: &Vec<FnSummary>, table: &Vec<Vec<Vec<ConcretePerm>>>) -> (r: Vec<
    Vec<Option<Vec<usize>>>,
>)
    requires
        table_wf(summs@),
        table_ok(summs@, table_view(table@)),
    ensures
        sels_ok(summs@, table_view(table@), r@),
{
    let ghost tv = table_view(table@);
    let mut r: Vec<Vec<Option<Vec<usize>>>> = Vec::new();
    for f in 0..summs.len()
        invariant
            r@.len() == f,
            tv == table_view(table@),
            table_wf(summs@),
            table_ok(summs@, tv),
            forall|g: int| 0 <= g < f ==> (#[trigger] r@[g])@.len() == tv[g].len(),
            forall|g: int, i: int|
                0 <= g < f && 0 <= i < tv[g].len() ==> sel_spec(
                    #[trigger] r@[g]@[i],
                    summs@[g].insts@,
                    tv[g][i],
                    tv,
                ),
    {
        let mut row: Vec<Option<Vec<usize>>> = Vec::new();
        assert(tv[f as int] == assigns_view(table@[f as int]@));
        let n = table[f].len();
        for i in 0..n
            invariant
                row@.len() == i,
                f < summs@.len(),
                n == table@[f as int]@.len(),
                tv == table_view(table@),
                table_wf(summs@),
                table_ok(summs@, tv),
                tv[f as int] == assigns_view(table@[f as int]@),
                forall|k: int|
                    0 <= k < i ==> sel_spec(
                        #[trigger] row@[k],
                        summs@[f as int].insts@,
                        tv[f as int][k],
                        tv,
                    ),
        {
            proof {
                assert forall|j: int| 0 <= j < summs@[f as int].insts@.len() implies #[trigger] summs@[f as int].insts@[j].callee
                    < table@.len() by {}
            }
            let o = find_instantiations(&summs[f], &table[f][i], table);
            row.push(o);
        }
        r.push(row);
    }
    r
}

/// Flags the monomorphizations that cannot be used.  A monomorphization is removed when one of
/// its instantiations has no compatible callee monomorphization, or when it selects a removed
/// one; the removal is repeated until nothing changes.
pub fn filter_suspicious_monos(
    summs: &Vec<FnSummary>,
    table: &Vec<Vec<Vec<ConcretePerm>>>,
    sels: &Vec<Vec<Option<Vec<usize>>>>,
) -> (removed: Vec<Vec<bool>>)
    requires
        table_wf(summs@),
        table_ok(summs@, table_view(table@)),
        sels_ok(summs@, table_view(table@), sels@),
    ensures
        removed_shape(table_view(table@), removed@),
        removal_closed(summs@, sels@, removed@),
        forall|f: int, i: int|
            0 <= f < removed@.len() && 0 <= i < removed@[f]@.len() && #[trigger] removed@[f]@[i]
                ==> some_selection_fails(summs@, table_view(table@)),
        forall|s: Set<(int, int)>|
            #[trigger] selection_consistent(summs@, sels@, table_view(table@), s) ==> forall|f: int, i: int|
                0 <= f < removed@.len() && 0 <= i < removed@[f]@.len() && #[trigger] s.contains((f, i)) ==> !removed@[f]@[i],
{
    let ghost tv = table_view(table@);
    let mut removed: Vec<Vec<bool>> = Vec::new();
    for f in 0..sels.len()
        invariant
            removed@.len() == f,
            tv == table_view(table@),
            sels_ok(summs@, tv, sels@),
            forall|g: int| 0 <= g < f ==> (#[trigger] removed@[g])@.len() == tv[g].len(),
            forall|g: int, i: int|
                0 <= g < f && 0 <= i < tv[g].len() ==> (#[trigger] removed@[g]@[i] <==> sels@[g]@[i] is None),
    {
        let mut row: Vec<bool> = Vec::new();
        let n = sels[f].len();
        for i in 0..n
            invariant
                row@.len() == i,
                f < sels@.len(),
                n == sels@[f as int]@.len(),
                forall|k: int| 0 <= k < i ==> (#[trigger] row@[k] <==> sels@[f as int]@[k] is None),
        {
            row.push(sels[f][i].is_none());
        }
        removed.push(row);
    }
    proof {
        assert forall|f: int, i: int|
            0 <= f < removed@.len() && 0 <= i < removed@[f]@.len() && #[trigger] removed@[f]@[i]
                implies some_selection_fails(summs@, tv) by {
            assert(sel_spec(sels@[f]@[i], summs@[f].insts@, tv[f][i], tv));
            assert(selection_fails(summs@[f].insts@, tv[f][i], tv));
        }
    }
    proof {
        assert forall|s: Set<(int, int)>|
            #[trigger] selection_consistent(summs@, sels@, tv, s) implies forall|f: int, i: int|
                0 <= f < tv.len() && 0 <= i < tv[f].len() && removed@[f]@[i] ==> !#[trigger] s.contains((f, i)) by {
            assert forall|f: int, i: int|
                0 <= f < tv.len() && 0 <= i < tv[f].len() && removed@[f]@[i] implies !#[trigger] s.contains((f, i)) by {
                if s.contains((f, i)) {
                    assert(sels@[f]@[i] is Some);
                }
            }
        }
    }
    let mut changed = true;
    while changed
        invariant
            tv == table_view(table@),
            table_wf(summs@),
            table_ok(summs@, tv),
            sels_ok(summs@, tv, sels@),
            removed_shape(tv, removed@),
            forall|f: int, i: int|
                0 <= f < tv.len() && 0 <= i < tv[f].len() && sels@[f]@[i] is None ==> #[trigger] removed@[f]@[i],
            forall|f: int, i: int|
                0 <= f < removed@.len() && 0 <= i < removed@[f]@.len() && #[trigger] removed@[f]@[i]
                    ==> some_selection_fails(summs@, tv),
            !changed ==> removal_closed(summs@, sels@, removed@),
            forall|s: Set<(int, int)>|
                #[trigger] selection_consistent(summs@, sels@, tv, s) ==> forall|f: int, i: int|
                    0 <= f < tv.len() && 0 <= i < tv[f].len() && removed@[f]@[i] ==> !#[trigger] s.contains((f, i)),
        decreases total_kept(removed@), if changed { 1int } else { 0int },
    {
        let ghost start = removed@;
        changed = false;
        for f in 0..sels.len()
            invariant
                tv == table_view(table@),
                table_wf(summs@),
                table_ok(summs@, tv),
                sels_ok(summs@, tv, sels@),
                removed_shape(tv, removed@),
                forall|g: int, i: int|
                    0 <= g < tv.len() && 0 <= i < tv[g].len() && sels@[g]@[i] is None ==> #[trigger] removed@[g]@[i],
                forall|g: int, i: int|
                    0 <= g < removed@.len() && 0 <= i < removed@[g]@.len() && #[trigger] removed@[g]@[i]
                        ==> some_selection_fails(summs@, tv),
                changed ==> total_kept(removed@) < total_kept(start),
                !changed ==> removed@ == start,
                forall|s: Set<(int, int)>|
                    #[trigger] selection_consistent(summs@, sels@, tv, s) ==> forall|f: int, i: int|
                        0 <= f < tv.len() && 0 <= i < tv[f].len() && removed@[f]@[i] ==> !#[trigger] s.contains((f, i)),
                !changed ==> forall|g: int, i: int|
                    0 <= g < f && 0 <= i < removed@[g]@.len() && !(#[trigger] removed@[g]@[i]) ==> forall|j: int|
                        0 <= j < summs@[g].insts@.len() ==> !removed@[summs@[g].insts@[j].callee as int]@[(
                        #[trigger] sels@[g]@[i]->Some_0@[j]) as int],
        {
            let n = sels[f].len();
        for i in 0..n
                invariant
                    f < sels@.len(),
                    n == sels@[f as int]@.len(),
                    tv == table_view(table@),
                    table_wf(summs@),
                    table_ok(summs@, tv),
                    sels_ok(summs@, tv, sels@),
                    removed_shape(tv, removed@),
                    forall|g: int, k: int|
                        0 <= g < tv.len() && 0 <= k < tv[g].len() && sels@[g]@[k] is None ==> #[trigger] removed@[g]@[k],
                    forall|g: int, k: int|
                        0 <= g < removed@.len() && 0 <= k < removed@[g]@.len() && #[trigger] removed@[g]@[k]
                            ==> some_selection_fails(summs@, tv),
                    changed ==> total_kept(removed@) < total_kept(start),
                    !changed ==> removed@ == start,
                    forall|s: Set<(int, int)>|
                        #[trigger] selection_consistent(summs@, sels@, tv, s) ==> forall|f: int, i: int|
                            0 <= f < tv.len() && 0 <= i < tv[f].len() && removed@[f]@[i] ==> !#[trigger] s.contains((f, i)),
                    !changed ==> forall|g: int, k: int|
                        ((0 <= g < f && 0 <= k < removed@[g]@.len()) || (g == f && 0 <= k < i))
                            && !(#[trigger] removed@[g]@[k]) ==> forall|j: int|
                            0 <= j < summs@[g].insts@.len() ==> !removed@[summs@[g].insts@[j].callee as int]@[(
                            #[trigger] sels@[g]@[k]->Some_0@[j]) as int],
            {
                if !removed[f][i] {
                    if let Some(sel) = &sels[f][i] {
                        let insts = &summs[f].insts;
                        let ghost sig = tv[f as int][i as int];
                        assert(sel_spec(sels@[f as int]@[i as int], summs@[f as int].insts@, sig, tv));
                        let mut hit = false;
                        let mut j: usize = 0;
                        while j < insts.len() && !hit
                            invariant
                                j <= insts@.len(),
                                insts@ == summs@[f as int].insts@,
                                sels@[f as int]@[i as int] == Some(*sel),
                                selection_ok(insts@, sig, tv, sel@),
                                table_wf(summs@),
                                table_ok(summs@, tv),
                                f < summs@.len(),
                                removed_shape(tv, removed@),
                                forall|s: Set<(int, int)>|
                                    #[trigger] selection_consistent(summs@, sels@, tv, s) ==> forall|f: int, i: int|
                                        0 <= f < tv.len() && 0 <= i < tv[f].len() && removed@[f]@[i] ==> !#[trigger] s.contains((f, i)),
                                !hit ==> forall|q: int|
                                    0 <= q < j ==> !removed@[insts@[q].callee as int]@[(#[trigger] sel@[q]) as int],
                                hit ==> j < insts@.len() && removed@[insts@[j as int].callee as int]@[sel@[j as int] as int],
                            decreases insts@.len() - j + if hit { 0int } else { 1int },
                        {
                            let g = insts[j].callee;
                            proof {
                                assert(0 <= j < insts@.len());
                                assert(crate::inst::is_first_compatible(insts@[j as int].cset@, sig, tv[g as int], sel@[j as int] as int));
                            }
                            if removed[g][sel[j]] {
                                hit = true;
                            } else {
                                j = j + 1;
                            }
                        }
                        proof {
                            if !hit {
                                assert forall|q: int| 0 <= q < summs@[f as int].insts@.len() implies !removed@[summs@[f as int].insts@[q].callee as int]@[(
                                    #[trigger] sels@[f as int]@[i as int]->Some_0@[q]) as int] by {
                                    assert(sel@[q] == sels@[f as int]@[i as int]->Some_0@[q]);
                                    assert(!removed@[insts@[q].callee as int]@[sel@[q] as int]);
                                }
                            }
                        }
                        if hit {
                            let ghost before = removed@;
                            proof {
                                let g0 = insts@[j as int].callee as int;
                                let k0 = sel@[j as int] as int;
                                assert(crate::inst::is_first_compatible(insts@[j as int].cset@, sig, tv[g0], k0));
                                assert forall|s: Set<(int, int)>|
                                    #[trigger] selection_consistent(summs@, sels@, tv, s) implies !s.contains((f as int, i as int)) by {
                                    if s.contains((f as int, i as int)) {
                                        assert(sels@[f as int]@[i as int]->Some_0@[j as int] == sel@[j as int]);
                                        assert(s.contains((g0, k0)));
                                        assert(!s.contains((g0, k0)));
                                    }
                                }
                            }
                            proof {
                                lemma_row_kept_remove(removed@[f as int]@, i as int);
                            }
                            removed[f][i] = true;
                            proof {
                                assert(removed@[f as int]@ == before[f as int]@.update(i as int, true));
                                lemma_total_kept_remove(before, f as int, removed@[f as int]);
                                assert(removed@ =~= before.update(f as int, removed@[f as int]));
                                assert forall|s: Set<(int, int)>|
                                    #[trigger] selection_consistent(summs@, sels@, tv, s) implies forall|f2: int, i2: int|
                                        0 <= f2 < tv.len() && 0 <= i2 < tv[f2].len() && removed@[f2]@[i2] ==> !#[trigger] s.contains((f2, i2)) by {
                                    assert forall|f2: int, i2: int|
                                        0 <= f2 < tv.len() && 0 <= i2 < tv[f2].len() && removed@[f2]@[i2] implies !#[trigger] s.contains((f2, i2)) by {
                                        if f2 != f as int || i2 != i as int {
                                            assert(before[f2]@[i2]);
                                        }
                                    }
                                }
                            }
                            changed = true;
                        }
                    }
                }
            }
        }
    }
    removed
}

/// `s` holds the kept monomorphizations of the root functions, and whatever a kept member of `s`
/// selects.
pub open spec fn selection_closed(
    summs: Seq<FnSummary>,
    sels: Seq<Vec<Option<Vec<usize>>>>,
    removed: Seq<Vec<bool>>,
    roots: Seq<bool>,
    s: Set<(int, int)>,
) -> bool {
    &&& forall|f: int, i: int|
        0 <= f < summs.len() && 0 <= i < removed[f]@.len() && roots[f] && !removed[f]@[i] ==> #[trigger] s.contains(
            (f, i),
        )
    &&& forall|f: int, i: int, j: int|
        #![trigger s.contains((f, i)), sels[f]@[i]->Some_0@[j]]
        0 <= f < summs.len() && 0 <= i < removed[f]@.len() && !removed[f]@[i] && s.contains((f, i)) && 0 <= j
            < summs[f].insts@.len() ==> s.contains(
            (summs[f].insts@[j].callee as int, sels[f]@[i]->Some_0@[j] as int),
        )
}

/// Flags, besides the removed monomorphizations, those that no kept monomorphization of a root
/// function reaches through the selections of kept monomorphizations.  What stays is the least
/// set that holds the roots' kept monomorphizations and is closed under selection.
pub fn filter_unreachable(
    summs: &Vec<FnSummary>,
    table: &Vec<Vec<Vec<ConcretePerm>>>,
    sels: &Vec<Vec<Option<Vec<usize>>>>,
    removed: &Vec<Vec<bool>>,
    roots: &Vec<bool>,
) -> (dead: Vec<Vec<bool>>)
    requires
        table_wf(summs@),
        table_ok(summs@, table_view(table@)),
        sels_ok(summs@, table_view(table@), sels@),
        removed_shape(table_view(table@), removed@),
        removal_closed(summs@, sels@, removed@),
        roots@.len() == summs@.len(),
    ensures
        removed_shape(table_view(table@), dead@),
        removal_closed(summs@, sels@, dead@),
        forall|f: int, i: int|
            0 <= f < dead@.len() && 0 <= i < dead@[f]@.len() && removed@[f]@[i] ==> #[trigger] dead@[f]@[i],
        forall|f: int, i: int|
            0 <= f < dead@.len() && 0 <= i < dead@[f]@.len() && roots@[f] && !removed@[f]@[i] ==> !#[trigger] dead@[f]@[i],
        forall|s: Set<(int, int)>|
            #[trigger] selection_closed(summs@, sels@, removed@, roots@, s) ==> forall|f: int, i: int|
                0 <= f < dead@.len() && 0 <= i < dead@[f]@.len() && !dead@[f]@[i] ==> #[trigger] s.contains((f, i)),
{
    let ghost tv = table_view(table@);
    let n = summs.len();
    let mut reached: Vec<Vec<bool>> = Vec::new();
    for f in 0..n
        invariant
            n == summs@.len(),
            reached@.len() == f,
            tv == table_view(table@),
            removed_shape(tv, removed@),
            table_ok(summs@, tv),
            roots@.len() == n,
            forall|g: int| 0 <= g < f ==> (#[trigger] reached@[g])@.len() == tv[g].len(),
            forall|g: int, i: int|
                0 <= g < f && 0 <= i < tv[g].len() ==> (#[trigger] reached@[g]@[i] <==> (roots@[g] && !removed@[g]@[i])),
    {
        let mut row: Vec<bool> = Vec::new();
        let m = removed[f].len();
        for i in 0..m
            invariant
                row@.len() == i,
                f < n,
                n == summs@.len(),
                roots@.len() == n,
                table_ok(summs@, tv),
                removed_shape(tv, removed@),
                m == removed@[f as int]@.len(),
                forall|k: int| 0 <= k < i ==> (#[trigger] row@[k] <==> (roots@[f as int] && !removed@[f as int]@[k])),
        {
            row.push(roots[f] && !removed[f][i]);
        }
        reached.push(row);
    }
    let mut changed = true;
    while changed
        invariant
            n == summs@.len(),
            tv == table_view(table@),
            table_wf(summs@),
            table_ok(summs@, tv),
            sels_ok(summs@, tv, sels@),
            removed_shape(tv, removed@),
            removal_closed(summs@, sels@, removed@),
            roots@.len() == n,
            removed_shape(tv, reached@),
            forall|f: int, i: int|
                0 <= f < n && 0 <= i < tv[f].len() && #[trigger] reached@[f]@[i] ==> !removed@[f]@[i],
            forall|f: int, i: int|
                0 <= f < n && 0 <= i < tv[f].len() && roots@[f] && !removed@[f]@[i] ==> #[trigger] reached@[f]@[i],
            forall|s: Set<(int, int)>|
                #[trigger] selection_closed(summs@, sels@, removed@, roots@, s) ==> forall|f: int, i: int|
                    0 <= f < n && 0 <= i < tv[f].len() && reached@[f]@[i] ==> #[trigger] s.contains((f, i)),
            !changed ==> forall|f: int, i: int|
                0 <= f < n && 0 <= i < tv[f].len() && #[trigger] reached@[f]@[i] ==> forall|j: int|
                    0 <= j < summs@[f].insts@.len() ==> reached@[summs@[f].insts@[j].callee as int]@[(
                    #[trigger] sels@[f]@[i]->Some_0@[j]) as int],
        decreases total_kept(reached@), if changed { 1int } else { 0int },
    {
        let ghost start = reached@;
        changed = false;
        for f in 0..n
            invariant
                n == summs@.len(),
                tv == table_view(table@),
                table_wf(summs@),
                table_ok(summs@, tv),
                sels_ok(summs@, tv, sels@),
                removed_shape(tv, removed@),
                removal_closed(summs@, sels@, removed@),
                roots@.len() == n,
                removed_shape(tv, reached@),
                forall|g: int, i: int|
                    0 <= g < n && 0 <= i < tv[g].len() && #[trigger] reached@[g]@[i] ==> !removed@[g]@[i],
                forall|g: int, i: int|
                    0 <= g < n && 0 <= i < tv[g].len() && roots@[g] && !removed@[g]@[i] ==> #[trigger] reached@[g]@[i],
                forall|s: Set<(int, int)>|
                    #[trigger] selection_closed(summs@, sels@, removed@, roots@, s) ==> forall|g: int, i: int|
                        0 <= g < n && 0 <= i < tv[g].len() && reached@[g]@[i] ==> #[trigger] s.contains((g, i)),
                changed ==> total_kept(reached@) < total_kept(start),
                !changed ==> reached@ == start,
                !changed ==> forall|g: int, i: int|
                    0 <= g < f && 0 <= i < tv[g].len() && #[trigger] reached@[g]@[i] ==> forall|j: int|
                        0 <= j < summs@[g].insts@.len() ==> reached@[summs@[g].insts@[j].callee as int]@[(
                        #[trigger] sels@[g]@[i]->Some_0@[j]) as int],
        {
            let m = sels[f].len();
            for i in 0..m
                invariant
                    f < n,
                    n == summs@.len(),
                    m == sels@[f as int]@.len(),
                    tv == table_view(table@),
                    table_wf(summs@),
                    table_ok(summs@, tv),
                    sels_ok(summs@, tv, sels@),
                    removed_shape(tv, removed@),
                    removal_closed(summs@, sels@, removed@),
                    roots@.len() == n,
                    removed_shape(tv, reached@),
                    forall|g: int, k: int|
                        0 <= g < n && 0 <= k < tv[g].len() && #[trigger] reached@[g]@[k] ==> !removed@[g]@[k],
                    forall|g: int, k: int|
                        0 <= g < n && 0 <= k < tv[g].len() && roots@[g] && !removed@[g]@[k] ==> #[trigger] reached@[g]@[k],
                    forall|s: Set<(int, int)>|
                        #[trigger] selection_closed(summs@, sels@, removed@, roots@, s) ==> forall|g: int, k: int|
                            0 <= g < n && 0 <= k < tv[g].len() && reached@[g]@[k] ==> #[trigger] s.contains((g, k)),
                    changed ==> total_kept(reached@) < total_kept(start),
                    !changed ==> reached@ == start,
                    !changed ==> forall|g: int, k: int|
                        ((0 <= g < f && 0 <= k < tv[g].len()) || (g == f && 0 <= k < i)) && #[trigger] reached@[g]@[k]
                            ==> forall|j: int|
                            0 <= j < summs@[g].insts@.len() ==> reached@[summs@[g].insts@[j].callee as int]@[(
                            #[trigger] sels@[g]@[k]->Some_0@[j]) as int],
            {
                if reached[f][i] {
                    let ghost fi = f as int;
                    let ghost ii = i as int;
                    assert(!removed@[fi]@[ii]);
                    assert(sels@[fi]@[ii] is Some);
                    let sel = match &sels[f][i] {
                        Some(s) => s,
                        None => {
                            proof {
                                assert(false);
                            }
                            return Vec::new();
                        },
                    };
                    assert(sels@[fi]@[ii] == Some(*sel));
                    assert(sel_spec(sels@[fi]@[ii], summs@[fi].insts@, tv[fi][ii], tv));
                    let insts = &summs[f].insts;
                    let mut j: usize = 0;
                    while j < insts.len()
                        invariant
                            j <= insts@.len(),
                            insts@ == summs@[fi].insts@,
                            fi == f,
                            ii == i,
                            f < n,
                            n == summs@.len(),
                            0 <= ii < tv[fi].len(),
                            sels@[fi]@[ii] == Some(*sel),
                            selection_ok(insts@, tv[fi][ii], tv, sel@),
                            tv == table_view(table@),
                            table_wf(summs@),
                            table_ok(summs@, tv),
                            sels_ok(summs@, tv, sels@),
                            removed_shape(tv, removed@),
                            removal_closed(summs@, sels@, removed@),
                            roots@.len() == n,
                            removed_shape(tv, reached@),
                            reached@[fi]@[ii],
                            forall|g: int, k: int|
                                0 <= g < n && 0 <= k < tv[g].len() && #[trigger] reached@[g]@[k] ==> !removed@[g]@[k],
                            forall|g: int, k: int|
                                0 <= g < n && 0 <= k < tv[g].len() && roots@[g] && !removed@[g]@[k]
                                    ==> #[trigger] reached@[g]@[k],
                            forall|s: Set<(int, int)>|
                                #[trigger] selection_closed(summs@, sels@, removed@, roots@, s) ==> forall|g: int, k: int|
                                    0 <= g < n && 0 <= k < tv[g].len() && reached@[g]@[k] ==> #[trigger] s.contains((g, k)),
                            changed ==> total_kept(reached@) < total_kept(start),
                            !changed ==> reached@ == start,
                            !changed ==> forall|g: int, k: int|
                                ((0 <= g < f && 0 <= k < tv[g].len()) || (g == f && 0 <= k < i)) && #[trigger] reached@[g]@[k]
                                    ==> forall|q: int|
                                    0 <= q < summs@[g].insts@.len() ==> reached@[summs@[g].insts@[q].callee as int]@[(
                                    #[trigger] sels@[g]@[k]->Some_0@[q]) as int],
                            !changed ==> forall|q: int|
                                0 <= q < j ==> reached@[insts@[q].callee as int]@[(#[trigger] sel@[q]) as int],
                        decreases insts@.len() - j,
                    {
                        let g = insts[j].callee;
                        let k = sel[j];
                        proof {
                            assert(crate::inst::is_first_compatible(insts@[j as int].cset@, tv[fi][ii], tv[g as int], k as int));
                            assert(!removed@[g as int]@[k as int]);
                        }
                        if !reached[g][k] {
                            let ghost before = reached@;
                            proof {
                                lemma_row_kept_remove(reached@[g as int]@, k as int);
                            }
                            reached[g][k] = true;
                            proof {
                                assert(reached@[g as int]@ == before[g as int]@.update(k as int, true));
                                lemma_total_kept_remove(before, g as int, reached@[g as int]);
                                assert(reached@ =~= before.update(g as int, reached@[g as int]));
                                assert forall|s: Set<(int, int)>|
                                    #[trigger] selection_closed(summs@, sels@, removed@, roots@, s) implies forall|g2: int, k2: int|
                                        0 <= g2 < n && 0 <= k2 < tv[g2].len() && reached@[g2]@[k2] ==> #[trigger] s.contains((g2, k2)) by {
                                    assert(s.contains((fi, ii)));
                                    assert(sel@[j as int] == sels@[fi]@[ii]->Some_0@[j as int]);
                                    assert(s.contains((g as int, k as int)));
                                    assert forall|g2: int, k2: int|
                                        0 <= g2 < n && 0 <= k2 < tv[g2].len() && reached@[g2]@[k2] implies #[trigger] s.contains((g2, k2)) by {
                                        if g2 != g as int || k2 != k as int {
                                            assert(before[g2]@[k2]);
                                        }
                                    }
                                }
                            }
                            changed = true;
                        }
                        j = j + 1;
                    }
                    proof {
                        if !changed {
                            assert forall|q: int| 0 <= q < summs@[fi].insts@.len() implies reached@[summs@[fi].insts@[q].callee as int]@[(
                                #[trigger] sels@[fi]@[ii]->Some_0@[q]) as int] by {
                                assert(sel@[q] == sels@[fi]@[ii]->Some_0@[q]);
                                assert(reached@[insts@[q].callee as int]@[sel@[q] as int]);
                            }
                        }
                    }
                }
            }
        }
    }
    let mut dead: Vec<Vec<bool>> = Vec::new();
    for f in 0..n
        invariant
            n == summs@.len(),
            dead@.len() == f,
            removed_shape(tv, reached@),
            tv.len() == n,
            forall|g: int| 0 <= g < f ==> (#[trigger] dead@[g])@.len() == reached@[g]@.len(),
            forall|g: int, i: int| 0 <= g < f && 0 <= i < reached@[g]@.len() ==> (#[trigger] dead@[g]@[i] <==> !reached@[g]@[i]),
    {
        let mut row: Vec<bool> = Vec::new();
        let m = reached[f].len();
        for i in 0..m
            invariant
                f < n,
                tv.len() == n,
                removed_shape(tv, reached@),
                m == reached@[f as int]@.len(),
                row@.len() == i,
                forall|k: int| 0 <= k < i ==> (#[trigger] row@[k] <==> !reached@[f as int]@[k]),
        {
            row.push(!reached[f][i]);
        }
        dead.push(row);
    }
    proof {
        assert forall|f: int, i: int|
            0 <= f < summs@.len() && 0 <= i < dead@[f]@.len() && !(#[trigger] dead@[f]@[i]) implies {
                &&& sels@[f]@[i] is Some
                &&& forall|j: int|
                    0 <= j < summs@[f].insts@.len() ==> !dead@[summs@[f].insts@[j].callee as int]@[(
                    #[trigger] sels@[f]@[i]->Some_0@[j]) as int]
            } by {
            assert(reached@[f]@[i]);
            assert forall|j: int| 0 <= j < summs@[f].insts@.len() implies !dead@[summs@[f].insts@[j].callee as int]@[(
                #[trigger] sels@[f]@[i]->Some_0@[j]) as int] by {
                let g = summs@[f].insts@[j].callee as int;
                let k = sels@[f]@[i]->Some_0@[j] as int;
                assert(sel_spec(sels@[f]@[i], summs@[f].insts@, tv[f][i], tv));
                assert(crate::inst::is_first_compatible(summs@[f].insts@[j].cset@, tv[f][i], tv[g], k));
                assert(reached@[g]@[k]);
            }
        }
    }
    dead
}

} // verus!
