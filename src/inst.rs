//! The choice, at each instantiation of a caller monomorphization, of a callee monomorphization.
use vstd::prelude::*;
use crate::constraint::{Constraint, ConcretePerm, satisfied_by, satisfies};
use crate::summary::{FnSummary, Instantiation, assigns_view};

verus! {

/// The monomorphizations of every function of a table, as sequences.
pub open spec fn table_view(t: Seq<Vec<Vec<ConcretePerm>>>) -> Seq<Seq<Seq<ConcretePerm>>> {
    t.map_values(|v: Vec<Vec<ConcretePerm>>| assigns_view(v@))
}

/// `m` indexes the first of `monos` that, with the caller's `sig`, satisfies `cs`.
pub open spec fn is_first_compatible(
    cs: Seq<Constraint>,
    sig: Seq<ConcretePerm>,
    monos: Seq<Seq<ConcretePerm>>,
    m: int,
) -> bool {
    &&& 0 <= m < monos.len()
    &&& satisfied_by(cs, sig, monos[m])
    &&& forall|k: int| 0 <= k < m ==> !satisfied_by(cs, sig, #[trigger] monos[k])
}

/// None of `monos` satisfies `cs` with the caller's `sig`.
pub open spec fn none_compatible(cs: Seq<Constraint>, sig: Seq<ConcretePerm>, monos: Seq<Seq<ConcretePerm>>) -> bool {
    forall|k: int| 0 <= k < monos.len() ==> !satisfied_by(cs, sig, #[trigger] monos[k])
}

/// `sel` picks, for every instantiation in order, the first compatible callee monomorphization.
pub open spec fn selection_ok(
    insts: Seq<Instantiation>,
    sig: Seq<ConcretePerm>,
    table: Seq<Seq<Seq<ConcretePerm>>>,
    sel: Seq<usize>,
) -> bool {
    &&& sel.len() == insts.len()
    &&& forall|j: int|
        0 <= j < insts.len() ==> is_first_compatible(
            insts[j].cset@,
            sig,
            table[insts[j].callee as int],
            #[trigger] sel[j] as int,
        )
}

/// Some instantiation has no compatible callee monomorphization.
pub open spec fn selection_fails(insts: Seq<Instantiation>, sig: Seq<ConcretePerm>, table: Seq<Seq<Seq<ConcretePerm>>>) -> bool {
    exists|j: int|
        0 <= j < insts.len() && none_compatible(#[trigger] insts[j].cset@, sig, table[insts[j].callee as int])
}

/// Finds the first callee monomorphization compatible with one instantiation.
pub fn select_callee_mono(
    cs: &Vec<Constraint>,
    sig: &Vec<ConcretePerm>,
    callee_monos: &Vec<Vec<ConcretePerm>>,
) -> (r: Option<usize>)
    ensures
        match r {
            Some(m) => is_first_compatible(cs@, sig@, assigns_view(callee_monos@), m as int),
            None => none_compatible(cs@, sig@, assigns_view(callee_monos@)),
        },
{
    let ghost monos = assigns_view(callee_monos@);
    let mut k: usize = 0;
    while k < callee_monos.len()
        invariant
            k <= callee_monos.len(),
            monos == assigns_view(callee_monos@),
            forall|i: int| 0 <= i < k ==> !satisfied_by(cs@, sig@, #[trigger] monos[i]),
        decreases callee_monos.len() - k,
    {
        if satisfies(cs, sig, &callee_monos[k]) {
            return Some(k);
        }
        k = k + 1;
    }
    None
}

/// Selects a callee monomorphization for every instantiation of a caller monomorphization with
/// assignment `sig`; `None` when some instantiation has no compatible one.
pub fn find_instantiations(
    summ: &FnSummary,
    sig: &Vec<ConcretePerm>,
    table: &Vec<Vec<Vec<ConcretePerm>>>,
) -> (r: Option<Vec<usize>>)
    requires
        forall|j: int| 0 <= j < summ.insts@.len() ==> #[trigger] summ.insts@[j].callee < table@.len(),
    ensures
        match r {
            Some(sel) => selection_ok(summ.insts@, sig@, table_view(table@), sel@),
            None => selection_fails(summ.insts@, sig@, table_view(table@)),
        },
{
    let ghost tv = table_view(table@);
    let mut sel: Vec<usize> = Vec::new();
    let mut j: usize = 0;
    while j < summ.insts.len()
        invariant
            j <= summ.insts@.len(),
            sel@.len() == j,
            tv == table_view(table@),
            forall|i: int| 0 <= i < summ.insts@.len() ==> #[trigger] summ.insts@[i].callee < table@.len(),
            forall|i: int|
                0 <= i < j ==> is_first_compatible(
                    summ.insts@[i].cset@,
                    sig@,
                    tv[summ.insts@[i].callee as int],
                    #[trigger] sel@[i] as int,
                ),
        decreases summ.insts@.len() - j,
    {
        let inst = &summ.insts[j];
        match select_callee_mono(&inst.cset, sig, &table[inst.callee]) {
            Some(m) => {
                sel.push(m);
            },
            None => {
                assert(none_compatible(summ.insts@[j as int].cset@, sig@, tv[summ.insts@[j as int].callee as int]));
                return None;
            },
        }
        j = j + 1;
    }
    Some(sel)
}

} // verus!
