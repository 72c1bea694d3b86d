//! Permissions, permission variables and constraints between them.
use vstd::prelude::*;

verus! {

/// A concrete permission.  `Read < Write < Move`: a stronger capability subsumes the weaker ones.
#[derive(Clone, Copy, PartialEq, Eq, Structural, PartialOrd, Ord, Debug, Hash)]
pub enum ConcretePerm {
    Read,
    Write,
    Move,
}

/// Position of a permission in the order `Read < Write < Move`.
pub open spec fn rank(p: ConcretePerm) -> nat {
    match p {
        ConcretePerm::Read => 0,
        ConcretePerm::Write => 1,
        ConcretePerm::Move => 2,
    }
}

/// `a` is no stronger than `b`.
pub open spec fn perm_le(a: ConcretePerm, b: ConcretePerm) -> bool {
    rank(a) <= rank(b)
}

impl ConcretePerm {
    /// Whether `self` is no stronger than `other`.
    pub fn le(self, other: ConcretePerm) -> (r: bool)
        ensures
            r == perm_le(self, other),
    {
        let a: u8 = match self {
            ConcretePerm::Read => 0,
            ConcretePerm::Write => 1,
            ConcretePerm::Move => 2,
        };
        let b: u8 = match other {
            ConcretePerm::Read => 0,
            ConcretePerm::Write => 1,
            ConcretePerm::Move => 2,
        };
        a <= b
    }
}

/// A permission variable, identified by its index.
#[derive(Clone, Copy, PartialEq, Eq, Structural, PartialOrd, Ord, Debug, Hash)]
pub struct Var(pub u32);

impl Var {
    pub fn new(idx: usize) -> (v: Var)
        requires
            idx <= u32::MAX,
        ensures
            v.0 == idx,
    {
        Var(idx as u32)
    }

    pub fn index(self) -> (r: usize)
        ensures
            r == self.0,
    {
        self.0 as usize
    }
}

/// A permission that may not be known yet.
///
/// `SigVar(k)` is the `k`-th signature variable of the function that owns the constraint.
/// `InstVar(k)` is, inside the constraints of one instantiation, the private copy of the
/// callee's `k`-th signature variable.
#[derive(Clone, Copy, PartialEq, Eq, Structural, Debug, Hash)]
pub enum Perm {
    Concrete(ConcretePerm),
    SigVar(Var),
    InstVar(Var),
}

/// `lo <= hi`: the capability asked for at `lo` is guaranteed by `hi`.
#[derive(Clone, Copy, PartialEq, Eq, Structural, Debug, Hash)]
pub struct Constraint {
    pub lo: Perm,
    pub hi: Perm,
}

/// The value of `p` when the signature variables take `sig` and the instantiation variables
/// take `inst`; `None` for a variable outside the assignment.
pub open spec fn perm_value(p: Perm, sig: Seq<ConcretePerm>, inst: Seq<ConcretePerm>) -> Option<
    ConcretePerm,
> {
    match p {
        Perm::Concrete(c) => Some(c),
        Perm::SigVar(v) => if v.0 < sig.len() {
            Some(sig[v.0 as int])
        } else {
            None
        },
        Perm::InstVar(v) => if v.0 < inst.len() {
            Some(inst[v.0 as int])
        } else {
            None
        },
    }
}

/// One constraint holds under an assignment: both sides have a value and are ordered.
pub open spec fn constraint_holds(c: Constraint, sig: Seq<ConcretePerm>, inst: Seq<ConcretePerm>) -> bool {
    match (perm_value(c.lo, sig, inst), perm_value(c.hi, sig, inst)) {
        (Some(a), Some(b)) => perm_le(a, b),
        _ => false,
    }
}

/// Every constraint of `cs` holds under the assignment.
pub open spec fn satisfied_by(cs: Seq<Constraint>, sig: Seq<ConcretePerm>, inst: Seq<ConcretePerm>) -> bool {
    forall|i: int| 0 <= i < cs.len() ==> #[trigger] constraint_holds(cs[i], sig, inst)
}

/// Every constraint of `cs` bounds a variable from below by a concrete permission.
pub open spec fn lower_bounds_only(cs: Seq<Constraint>) -> bool {
    forall|i: int| 0 <= i < cs.len() ==> (#[trigger] cs[i]).lo is Concrete
}

/// `b` gives every variable a permission at least as strong as `a` does.
pub open spec fn pointwise_le(a: Seq<ConcretePerm>, b: Seq<ConcretePerm>) -> bool {
    &&& a.len() == b.len()
    &&& forall|i: int| 0 <= i < a.len() ==> perm_le(#[trigger] a[i], b[i])
}

fn perm_eval(p: Perm, sig: &Vec<ConcretePerm>, inst: &Vec<ConcretePerm>) -> (r: Option<ConcretePerm>)
    ensures
        r == perm_value(p, sig@, inst@),
{
    match p {
        Perm::Concrete(c) => Some(c),
        Perm::SigVar(v) => if v.index() < sig.len() {
            Some(sig[v.index()])
        } else {
            None
        },
        Perm::InstVar(v) => if v.index() < inst.len() {
            Some(inst[v.index()])
        } else {
            None
        },
    }
}

/// Decides whether the assignment satisfies every constraint of `cs`.
pub fn satisfies(cs: &Vec<Constraint>, sig: &Vec<ConcretePerm>, inst: &Vec<ConcretePerm>) -> (r: bool)
    ensures
        r == satisfied_by(cs@, sig@, inst@),
{
    let mut i: usize = 0;
    while i < cs.len()
        invariant
            i <= cs.len(),
            forall|j: int| 0 <= j < i ==> #[trigger] constraint_holds(cs@[j], sig@, inst@),
        decreases cs.len() - i,
    {
        let c = cs[i];
        let ok = match (perm_eval(c.lo, sig, inst), perm_eval(c.hi, sig, inst)) {
            (Some(a), Some(b)) => a.le(b),
            _ => false,
        };
        if !ok {
            assert(!constraint_holds(cs@[i as int], sig@, inst@));
            return false;
        }
        i = i + 1;
    }
    true
}

/// Satisfaction is monotone for constraint sets that only bound variables from below: raising
/// any variable keeps every constraint satisfied.
pub proof fn lemma_satisfied_monotone(
    cs: Seq<Constraint>,
    sig: Seq<ConcretePerm>,
    inst: Seq<ConcretePerm>,
    sig2: Seq<ConcretePerm>,
    inst2: Seq<ConcretePerm>,
)
    requires
        lower_bounds_only(cs),
        satisfied_by(cs, sig, inst),
        pointwise_le(sig, sig2),
        pointwise_le(inst, inst2),
    ensures
        satisfied_by(cs, sig2, inst2),
{
    assert forall|i: int| 0 <= i < cs.len() implies #[trigger] constraint_holds(cs[i], sig2, inst2) by {
        assert(constraint_holds(cs[i], sig, inst));
        assert(cs[i].lo is Concrete);
        match cs[i].hi {
            Perm::SigVar(v) => {
                assert(perm_le(sig[v.0 as int], sig2[v.0 as int]));
            },
            Perm::InstVar(v) => {
                assert(perm_le(inst[v.0 as int], inst2[v.0 as int]));
            },
            _ => {},
        }
    }
}

} // verus!
