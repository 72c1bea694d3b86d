//! Function summaries: what the intraprocedural phase finds and the interprocedural phase completes.
use vstd::prelude::*;
use crate::constraint::{Constraint, ConcretePerm, Perm};
use crate::labeled_ty::{LabeledTy, LFnSig, TyKind};

verus! {

/// One use of another function, by a call or by taking its address.  It owns a private copy of
/// the callee's signature variables (`Perm::InstVar(k)` stands for the callee's `k`-th) and the
/// constraints that tie them to the caller's signature variables.
pub struct Instantiation {
    pub callee: usize,
    pub cset: Vec<Constraint>,
}

/// The summary of one function: its labeled signature, the number of its signature variables,
/// its constraint set over them (`Perm::SigVar`), and its instantiations in order of occurrence.
pub struct FnSummary {
    pub sig: LFnSig,
    pub num_sig_vars: u32,
    pub cset: Vec<Constraint>,
    pub insts: Vec<Instantiation>,
}

/// Every instantiation names a function of the table.
pub open spec fn table_wf(summs: Seq<FnSummary>) -> bool {
    forall|f: int, j: int|
        0 <= f < summs.len() && 0 <= j < summs[f].insts@.len() ==> #[trigger] summs[f].insts@[j].callee
            < summs.len()
}

/// The assignment lists viewed as sequences.
pub open spec fn assigns_view(v: Seq<Vec<ConcretePerm>>) -> Seq<Seq<ConcretePerm>> {
    v.map_values(|a: Vec<ConcretePerm>| a@)
}

/// A labeled type as sequences.
pub open spec fn lty_view(t: LabeledTy) -> (Seq<TyKind>, Seq<Option<Perm>>) {
    (t.kinds@, t.labels@)
}

/// A labeled signature as sequences.
pub open spec fn lsig_view(s: LFnSig) -> (Seq<(Seq<TyKind>, Seq<Option<Perm>>)>, (Seq<TyKind>, Seq<Option<Perm>>)) {
    (s.inputs@.map_values(|t: LabeledTy| lty_view(t)), lty_view(s.output))
}

fn copy_lty(t: &LabeledTy) -> (r: LabeledTy)
    ensures
        lty_view(r) == lty_view(*t),
{
    let mut kinds: Vec<TyKind> = Vec::new();
    for i in 0..t.kinds.len()
        invariant
            kinds@ == t.kinds@.take(i as int),
    {
        kinds.push(t.kinds[i]);
        assert(kinds@ =~= t.kinds@.take(i as int + 1));
    }
    let mut labels: Vec<Option<Perm>> = Vec::new();
    for i in 0..t.labels.len()
        invariant
            labels@ == t.labels@.take(i as int),
    {
        labels.push(t.labels[i]);
        assert(labels@ =~= t.labels@.take(i as int + 1));
    }
    assert(kinds@ =~= t.kinds@);
    assert(labels@ =~= t.labels@);
    LabeledTy { kinds, labels }
}

/// A copy of a labeled signature.
pub fn copy_sig(s: &LFnSig) -> (r: LFnSig)
    ensures
        lsig_view(r) == lsig_view(*s),
{
    let mut inputs: Vec<LabeledTy> = Vec::new();
    for i in 0..s.inputs.len()
        invariant
            inputs@.len() == i,
            i <= s.inputs@.len(),
            forall|q: int| 0 <= q < i ==> lty_view(#[trigger] inputs@[q]) == lty_view(s.inputs@[q]),
    {
        inputs.push(copy_lty(&s.inputs[i]));
    }
    let output = copy_lty(&s.output);
    let r = LFnSig { inputs, output };
    assert(r.inputs@.map_values(|t: LabeledTy| lty_view(t)) =~= s.inputs@.map_values(|t: LabeledTy| lty_view(t)));
    r
}

/// A copy of an assignment.
pub fn copy_assign(a: &Vec<ConcretePerm>) -> (r: Vec<ConcretePerm>)
    ensures
        r@ == a@,
{
    let mut r: Vec<ConcretePerm> = Vec::new();
    let mut i: usize = 0;
    while i < a.len()
        invariant
            i <= a.len(),
            r@ == a@.subrange(0, i as int),
        decreases a.len() - i,
    {
        r.push(a[i]);
        i = i + 1;
    }
    assert(r@ =~= a@);
    r
}

} // verus!
