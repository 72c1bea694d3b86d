//! Types with a permission attached to every pointer.  A type is held as its nodes in
//! depth-first, outside-in order; two types have the same skeleton when their node kinds agree.
use vstd::prelude::*;
use crate::constraint::{ConcretePerm, Constraint, Perm, Var};

verus! {

/// The kind of one node of a type.
#[derive(Clone, Copy, PartialEq, Eq, Structural, Debug)]
pub enum TyKind {
    Prim,
    Ptr,
    Tuple(u32),
    Adt(u32, u32),
}

/// A type skeleton with one label per node; only pointer nodes carry a permission.
pub struct LabeledTy {
    pub kinds: Vec<TyKind>,
    pub labels: Vec<Option<Perm>>,
}

/// A function signature with labeled argument and return types.
pub struct LFnSig {
    pub inputs: Vec<LabeledTy>,
    pub output: LabeledTy,
}

/// The number of pointer nodes among `kinds`.
pub open spec fn count_ptrs(kinds: Seq<TyKind>) -> nat
    decreases kinds.len(),
{
    if kinds.len() == 0 {
        0
    } else {
        count_ptrs(kinds.drop_last()) + if kinds.last() == TyKind::Ptr { 1nat } else { 0nat }
    }
}

pub proof fn lemma_count_ptrs_step(kinds: Seq<TyKind>, i: int)
    requires
        0 <= i < kinds.len(),
    ensures
        count_ptrs(kinds.take(i + 1)) == count_ptrs(kinds.take(i)) + if kinds[i] == TyKind::Ptr {
            1nat
        } else {
            0nat
        },
{
    assert(kinds.take(i + 1).drop_last() =~= kinds.take(i));
}

/// The label that fresh labeling gives node `i`, with the variables numbered from `first`.
pub open spec fn fresh_label(kinds: Seq<TyKind>, first: nat, i: int) -> Option<Perm> {
    if kinds[i] == TyKind::Ptr {
        Some(Perm::SigVar(Var((first + count_ptrs(kinds.take(i))) as u32)))
    } else {
        None
    }
}

/// Labels every pointer node of `kinds`, in order, with a new signature variable numbered from
/// `*next`, and advances `*next` past them.
pub fn label_fresh(kinds: &Vec<TyKind>, next: &mut u32) -> (r: LabeledTy)
    requires
        *old(next) + count_ptrs(kinds@) <= u32::MAX,
    ensures
        r.kinds@ == kinds@,
        r.labels@.len() == kinds@.len(),
        forall|i: int| 0 <= i < kinds@.len() ==> #[trigger] r.labels@[i] == fresh_label(kinds@, *old(next) as nat, i),
        *final(next) == *old(next) + count_ptrs(kinds@),
{
    let ghost first = *next as nat;
    let mut ks: Vec<TyKind> = Vec::new();
    let mut labels: Vec<Option<Perm>> = Vec::new();
    let n = kinds.len();
    for i in 0..n
        invariant
            n == kinds@.len(),
            first + count_ptrs(kinds@) <= u32::MAX,
            ks@ == kinds@.take(i as int),
            labels@.len() == i,
            *next == first + count_ptrs(kinds@.take(i as int)),
            forall|q: int| 0 <= q < i ==> #[trigger] labels@[q] == fresh_label(kinds@, first, q),
    {
        proof {
            lemma_count_ptrs_step(kinds@, i as int);
            lemma_count_ptrs_prefix(kinds@, i as int + 1);
        }
        let k = kinds[i];
        ks.push(k);
        if k == TyKind::Ptr {
            labels.push(Some(Perm::SigVar(Var(*next))));
            *next = *next + 1;
        } else {
            labels.push(None);
        }
        assert(ks@ =~= kinds@.take(i as int + 1));
    }
    assert(kinds@.take(n as int) =~= kinds@);
    LabeledTy { kinds: ks, labels }
}

proof fn lemma_count_ptrs_prefix(kinds: Seq<TyKind>, i: int)
    requires
        0 <= i <= kinds.len(),
    ensures
        count_ptrs(kinds.take(i)) <= count_ptrs(kinds),
    decreases kinds.len(),
{
    if i < kinds.len() {
        assert(kinds.drop_last().take(i) =~= kinds.take(i));
        lemma_count_ptrs_prefix(kinds.drop_last(), i);
    } else {
        assert(kinds.take(i) =~= kinds);
    }
}

/// A label with signature variables replaced by their value under `assign`; every other label
/// becomes `None`.
pub open spec fn relabeled(label: Option<Perm>, assign: Seq<ConcretePerm>) -> Option<ConcretePerm> {
    match label {
        Some(Perm::SigVar(v)) => if v.0 < assign.len() {
            Some(assign[v.0 as int])
        } else {
            None
        },
        _ => None,
    }
}

/// The concrete permission of every node of `ty` under a monomorphization's assignment.
pub fn relabel(ty: &LabeledTy, assign: &Vec<ConcretePerm>) -> (r: Vec<Option<ConcretePerm>>)
    ensures
        r@.len() == ty.labels@.len(),
        forall|i: int| 0 <= i < r@.len() ==> #[trigger] r@[i] == relabeled(ty.labels@[i], assign@),
{
    let mut r: Vec<Option<ConcretePerm>> = Vec::new();
    for i in 0..ty.labels.len()
        invariant
            r@.len() == i,
            forall|q: int| 0 <= q < i ==> #[trigger] r@[q] == relabeled(ty.labels@[q], assign@),
    {
        let p = match ty.labels[i] {
            Some(Perm::SigVar(v)) => if v.index() < assign.len() {
                Some(assign[v.index()])
            } else {
                None
            },
            _ => None,
        };
        r.push(p);
    }
    r
}

/// The constraints `a ≤ b` between the labels of two types, node by node, where both carry one.
pub open spec fn zipped(la: Seq<Option<Perm>>, lb: Seq<Option<Perm>>) -> Seq<Constraint>
    decreases la.len(),
{
    if la.len() == 0 || lb.len() < la.len() {
        Seq::empty()
    } else {
        let n = la.len() - 1;
        zipped(la.drop_last(), lb.take(n)) + match (la[n], lb[n]) {
            (Some(a), Some(b)) => seq![Constraint { lo: a, hi: b }],
            _ => Seq::empty(),
        }
    }
}

/// Relates the value of type `a` to a place of type `b`: `Some` of a constraint `x ≤ y` for
/// each pair of labels at the same node, or `None` when the skeletons differ.
pub fn zip_constraints(a: &LabeledTy, b: &LabeledTy) -> (r: Option<Vec<Constraint>>)
    requires
        a.labels@.len() == a.kinds@.len(),
        b.labels@.len() == b.kinds@.len(),
    ensures
        r is Some <==> a.kinds@ == b.kinds@,
        r matches Some(cs) ==> cs@ == zipped(a.labels@, b.labels@),
{
    if a.kinds.len() != b.kinds.len() {
        return None;
    }
    let n = a.kinds.len();
    let mut i: usize = 0;
    while i < n
        invariant
            n == a.kinds@.len(),
            n == b.kinds@.len(),
            i <= n,
            forall|q: int| 0 <= q < i ==> a.kinds@[q] == b.kinds@[q],
        decreases n - i,
    {
        if a.kinds[i] != b.kinds[i] {
            return None;
        }
        i = i + 1;
    }
    assert(a.kinds@ =~= b.kinds@);
    let mut cs: Vec<Constraint> = Vec::new();
    for k in 0..n
        invariant
            n == a.labels@.len(),
            n == b.labels@.len(),
            cs@ == zipped(a.labels@.take(k as int), b.labels@.take(k as int)),
    {
        let ghost la = a.labels@.take(k as int + 1);
        let ghost lb = b.labels@.take(k as int + 1);
        assert(la.drop_last() =~= a.labels@.take(k as int));
        assert(lb.take(k as int) =~= b.labels@.take(k as int));
        match (a.labels[k], b.labels[k]) {
            (Some(x), Some(y)) => {
                cs.push(Constraint { lo: x, hi: y });
                assert(cs@ =~= zipped(la, lb));
            },
            _ => {
                assert(cs@ =~= zipped(la, lb));
            },
        }
    }
    assert(a.labels@.take(n as int) =~= a.labels@);
    assert(b.labels@.take(n as int) =~= b.labels@);
    Some(cs)
}

/// The number of pointers in the first `i` argument types.
pub open spec fn ptrs_before(inputs: Seq<Vec<TyKind>>, i: int) -> nat
    decreases i,
{
    if i <= 0 {
        0
    } else {
        ptrs_before(inputs, i - 1) + count_ptrs(inputs[i - 1]@)
    }
}

proof fn lemma_ptrs_before_mono(inputs: Seq<Vec<TyKind>>, i: int, j: int)
    requires
        0 <= i <= j,
    ensures
        ptrs_before(inputs, i) <= ptrs_before(inputs, j),
    decreases j - i,
{
    if i < j {
        lemma_ptrs_before_mono(inputs, i, j - 1);
    }
}

/// Labels a signature: every pointer of the argument types, then of the return type, gets a new
/// signature variable, numbered from zero.  Returns the signature and the number of variables.
pub fn label_sig(inputs: &Vec<Vec<TyKind>>, output: &Vec<TyKind>) -> (r: (LFnSig, u32))
    requires
        ptrs_before(inputs@, inputs@.len() as int) + count_ptrs(output@) <= u32::MAX,
    ensures
        r.0.inputs@.len() == inputs@.len(),
        forall|i: int| 0 <= i < inputs@.len() ==> (#[trigger] r.0.inputs@[i]).kinds@ == inputs@[i]@,
        forall|i: int, k: int|
            0 <= i < inputs@.len() && 0 <= k < inputs@[i]@.len() ==> #[trigger] r.0.inputs@[i].labels@[k]
                == fresh_label(inputs@[i]@, ptrs_before(inputs@, i), k),
        forall|i: int| 0 <= i < inputs@.len() ==> (#[trigger] r.0.inputs@[i]).labels@.len() == inputs@[i]@.len(),
        r.0.output.kinds@ == output@,
        r.0.output.labels@.len() == output@.len(),
        forall|k: int|
            0 <= k < output@.len() ==> #[trigger] r.0.output.labels@[k] == fresh_label(
                output@,
                ptrs_before(inputs@, inputs@.len() as int),
                k,
            ),
        r.1 == ptrs_before(inputs@, inputs@.len() as int) + count_ptrs(output@),
{
    let mut next: u32 = 0;
    let mut tys: Vec<LabeledTy> = Vec::new();
    let n = inputs.len();
    for i in 0..n
        invariant
            n == inputs@.len(),
            ptrs_before(inputs@, n as int) + count_ptrs(output@) <= u32::MAX,
            next == ptrs_before(inputs@, i as int),
            tys@.len() == i,
            forall|q: int| 0 <= q < i ==> (#[trigger] tys@[q]).kinds@ == inputs@[q]@,
            forall|q: int| 0 <= q < i ==> (#[trigger] tys@[q]).labels@.len() == inputs@[q]@.len(),
            forall|q: int, k: int|
                0 <= q < i && 0 <= k < inputs@[q]@.len() ==> #[trigger] tys@[q].labels@[k] == fresh_label(
                    inputs@[q]@,
                    ptrs_before(inputs@, q),
                    k,
                ),
    {
        proof {
            lemma_ptrs_before_mono(inputs@, i as int + 1, n as int);
        }
        let t = label_fresh(&inputs[i], &mut next);
        tys.push(t);
    }
    let out = label_fresh(output, &mut next);
    (LFnSig { inputs: tys, output: out }, next)
}

} // verus!
