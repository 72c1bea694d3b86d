//! The interprocedural phase: each function's constraint set is completed with what its callees'
//! constraint sets imply through its instantiations, pass after pass, until nothing changes.
use vstd::prelude::*;
use crate::constraint::{ConcretePerm, Constraint, Perm, Var};
use crate::summary::{FnSummary, Instantiation, table_wf};

verus! {

/// `x` then `y` meet at a variable (an instantiation variable when `mid_inst`, else a signature
/// variable) and give `c`.  Through an instantiation variable the first end is never one, and
/// the last end is one exactly when `hi_inst`.
pub open spec fn joins(x: Constraint, y: Constraint, c: Constraint, mid_inst: bool, hi_inst: bool) -> bool {
    &&& x.hi == y.lo
    &&& if mid_inst { x.hi is InstVar } else { x.hi is SigVar }
    &&& mid_inst ==> !(x.lo is InstVar) && (y.hi is InstVar) == hi_inst
    &&& c == (Constraint { lo: x.lo, hi: y.hi })
}

/// `c` joins some constraint of `a` with some constraint of `b`.
pub open spec fn in_join(a: Seq<Constraint>, b: Seq<Constraint>, c: Constraint, mid_inst: bool, hi_inst: bool) -> bool {
    exists|i: int, j: int|
        0 <= i < a.len() && 0 <= j < b.len() && #[trigger] joins(a[i], b[j], c, mid_inst, hi_inst)
}

fn is_inst_var(p: Perm) -> (r: bool)
    ensures
        r == p is InstVar,
{
    matches!(p, Perm::InstVar(_))
}

/// Appends `c` unless it is already there.
pub fn push_unique(v: &mut Vec<Constraint>, c: Constraint)
    ensures
        final(v)@ == if old(v)@.contains(c) { old(v)@ } else { old(v)@.push(c) },
{
    let mut k: usize = 0;
    while k < v.len()
        invariant
            k <= v@.len(),
            forall|q: int| 0 <= q < k ==> v@[q] != c,
        decreases v@.len() - k,
    {
        if v[k] == c {
            assert(v@.contains(c));
            return;
        }
        k = k + 1;
    }
    assert(!v@.contains(c));
    v.push(c);
}

/// `new` extends `old` by constraints that satisfy `p`, and holds every such constraint.
pub open spec fn extends_with(old: Seq<Constraint>, new: Seq<Constraint>, p: spec_fn(Constraint) -> bool) -> bool {
    &&& old.len() <= new.len()
    &&& new.subrange(0, old.len() as int) == old
    &&& forall|c: Constraint| new.contains(c) <==> (old.contains(c) || p(c))
    &&& (forall|c: Constraint| p(c) ==> old.contains(c)) ==> new == old
}

/// `c` joins `x` with some constraint of `b`.
pub open spec fn joins_any(x: Constraint, b: Seq<Constraint>, c: Constraint, mid_inst: bool, hi_inst: bool) -> bool {
    exists|j: int| 0 <= j < b.len() && #[trigger] joins(x, b[j], c, mid_inst, hi_inst)
}

fn join_one(x: Constraint, b: &Vec<Constraint>, mid_inst: bool, hi_inst: bool, out: &mut Vec<Constraint>)
    ensures
        extends_with(old(out)@, final(out)@, |c: Constraint| joins_any(x, b@, c, mid_inst, hi_inst)),
{
    let ghost o = out@;
    let mid_ok = if mid_inst {
        is_inst_var(x.hi)
    } else {
        matches!(x.hi, Perm::SigVar(_))
    };
    let mut j: usize = 0;
    while j < b.len()
        invariant
            j <= b@.len(),
            mid_ok == if mid_inst { x.hi is InstVar } else { x.hi is SigVar },
            o.len() <= out@.len(),
            out@.subrange(0, o.len() as int) == o,
            forall|c: Constraint|
                #[trigger] out@.contains(c) <==> (o.contains(c) || exists|q: int|
                    0 <= q < j && #[trigger] joins(x, b@[q], c, mid_inst, hi_inst)),
            (forall|c: Constraint| joins_any(x, b@, c, mid_inst, hi_inst) ==> o.contains(c)) ==> out@ == o,
        decreases b@.len() - j,
    {
        let y = b[j];
        let end_ok = !mid_inst || (!is_inst_var(x.lo) && is_inst_var(y.hi) == hi_inst);
        let ghost before = out@;
        let ok = x.hi == y.lo && mid_ok && end_ok;
        if ok {
            push_unique(out, Constraint { lo: x.lo, hi: y.hi });
        }
        proof {
            if ok && (forall|c: Constraint| joins_any(x, b@, c, mid_inst, hi_inst) ==> o.contains(c)) {
                let c = Constraint { lo: x.lo, hi: y.hi };
                assert(joins(x, b@[j as int], c, mid_inst, hi_inst));
                assert(o.contains(c));
                let w = choose|w: int| 0 <= w < o.len() && o[w] == c;
                assert(before[w] == c);
            }
            assert(out@.subrange(0, o.len() as int) =~= before.subrange(0, o.len() as int));
            assert forall|c: Constraint|
                #[trigger] out@.contains(c) <==> (o.contains(c) || exists|q: int|
                    0 <= q < j + 1 && #[trigger] joins(x, b@[q], c, mid_inst, hi_inst)) by {
                let jc = joins(x, b@[j as int], c, mid_inst, hi_inst);
                assert(jc <==> (ok && c == Constraint { lo: x.lo, hi: y.hi }));
                if before.contains(c) {
                    let w = choose|w: int| 0 <= w < before.len() && before[w] == c;
                    assert(out@[w] == c);
                }
                if jc && !before.contains(c) {
                    assert(out@[before.len() as int] == c);
                }
                if out@.contains(c) && !before.contains(c) {
                    assert(jc);
                }
                if exists|q: int| 0 <= q < j + 1 && #[trigger] joins(x, b@[q], c, mid_inst, hi_inst) {
                    let q = choose|q: int| 0 <= q < j + 1 && #[trigger] joins(x, b@[q], c, mid_inst, hi_inst);
                    if q < j {
                        assert(exists|q: int| 0 <= q < j && #[trigger] joins(x, b@[q], c, mid_inst, hi_inst));
                    }
                }
                if exists|q: int| 0 <= q < j && #[trigger] joins(x, b@[q], c, mid_inst, hi_inst) {
                    let q = choose|q: int| 0 <= q < j && #[trigger] joins(x, b@[q], c, mid_inst, hi_inst);
                    assert(0 <= q < j + 1 && joins(x, b@[q], c, mid_inst, hi_inst));
                }
                if jc {
                    assert(0 <= j < j + 1 && joins(x, b@[j as int], c, mid_inst, hi_inst));
                }
            }
        }
        j = j + 1;
    }
}

/// Appends to `out` every join of a constraint of `a` with one of `b` that is not there yet.
pub fn join_into(a: &Vec<Constraint>, b: &Vec<Constraint>, mid_inst: bool, hi_inst: bool, out: &mut Vec<Constraint>)
    ensures
        extends_with(old(out)@, final(out)@, |c: Constraint| in_join(a@, b@, c, mid_inst, hi_inst)),
{
    let ghost o = out@;
    let mut i: usize = 0;
    while i < a.len()
        invariant
            i <= a@.len(),
            o.len() <= out@.len(),
            out@.subrange(0, o.len() as int) == o,
            forall|c: Constraint|
                #[trigger] out@.contains(c) <==> (o.contains(c) || exists|p: int|
                    0 <= p < i && #[trigger] joins_any(a@[p], b@, c, mid_inst, hi_inst)),
            (forall|c: Constraint| in_join(a@, b@, c, mid_inst, hi_inst) ==> o.contains(c)) ==> out@ == o,
        decreases a@.len() - i,
    {
        let ghost before = out@;
        proof {
            if forall|c: Constraint| in_join(a@, b@, c, mid_inst, hi_inst) ==> o.contains(c) {
                assert forall|c: Constraint| joins_any(a@[i as int], b@, c, mid_inst, hi_inst) implies before.contains(c) by {
                    let q = choose|q: int| 0 <= q < b@.len() && #[trigger] joins(a@[i as int], b@[q], c, mid_inst, hi_inst);
                    assert(joins(a@[i as int], b@[q], c, mid_inst, hi_inst));
                    assert(o.contains(c));
                    let w = choose|w: int| 0 <= w < o.len() && o[w] == c;
                    assert(before[w] == c);
                }
            }
        }
        join_one(a[i], b, mid_inst, hi_inst, out);
        proof {
            assert(out@.subrange(0, o.len() as int) =~= before.subrange(0, o.len() as int));
            assert forall|c: Constraint|
                #[trigger] out@.contains(c) <==> (o.contains(c) || exists|p: int|
                    0 <= p < i + 1 && #[trigger] joins_any(a@[p], b@, c, mid_inst, hi_inst)) by {
                assert(out@.contains(c) <==> (before.contains(c) || joins_any(a@[i as int], b@, c, mid_inst, hi_inst)));
                if exists|p: int| 0 <= p < i + 1 && #[trigger] joins_any(a@[p], b@, c, mid_inst, hi_inst) {
                    let p = choose|p: int| 0 <= p < i + 1 && #[trigger] joins_any(a@[p], b@, c, mid_inst, hi_inst);
                    if p < i {
                        assert(exists|p: int| 0 <= p < i && #[trigger] joins_any(a@[p], b@, c, mid_inst, hi_inst));
                    }
                }
                if exists|p: int| 0 <= p < i && #[trigger] joins_any(a@[p], b@, c, mid_inst, hi_inst) {
                    let p = choose|p: int| 0 <= p < i && #[trigger] joins_any(a@[p], b@, c, mid_inst, hi_inst);
                    assert(0 <= p < i + 1 && joins_any(a@[p], b@, c, mid_inst, hi_inst));
                }
                if joins_any(a@[i as int], b@, c, mid_inst, hi_inst) {
                    assert(0 <= i < i + 1 && joins_any(a@[i as int], b@, c, mid_inst, hi_inst));
                }
            }
        }
        i = i + 1;
    }
    proof {
        assert forall|c: Constraint|
            #[trigger] out@.contains(c) <==> (o.contains(c) || in_join(a@, b@, c, mid_inst, hi_inst)) by {
            if in_join(a@, b@, c, mid_inst, hi_inst) {
                let (p, q) = choose|p: int, q: int|
                    0 <= p < a@.len() && 0 <= q < b@.len() && #[trigger] joins(a@[p], b@[q], c, mid_inst, hi_inst);
                assert(joins_any(a@[p], b@, c, mid_inst, hi_inst));
            }
            if exists|p: int| 0 <= p < a@.len() && #[trigger] joins_any(a@[p], b@, c, mid_inst, hi_inst) {
                let p = choose|p: int| 0 <= p < a@.len() && #[trigger] joins_any(a@[p], b@, c, mid_inst, hi_inst);
                let q = choose|q: int| 0 <= q < b@.len() && #[trigger] joins(a@[p], b@[q], c, mid_inst, hi_inst);
                assert(joins(a@[p], b@[q], c, mid_inst, hi_inst));
            }
        }
    }
}

/// A callee's signature variable seen from a caller: its private copy at the instantiation.
pub open spec fn renamed(p: Perm) -> Perm {
    match p {
        Perm::SigVar(v) => Perm::InstVar(v),
        _ => p,
    }
}

pub open spec fn renamed_constraint(c: Constraint) -> Constraint {
    Constraint { lo: renamed(c.lo), hi: renamed(c.hi) }
}

/// The constraints at an instantiation: its own, and the callee's over the private copy.
pub open spec fn inst_edges(inst_cs: Seq<Constraint>, callee_cs: Seq<Constraint>) -> Seq<Constraint> {
    inst_cs + callee_cs.map_values(|c: Constraint| renamed_constraint(c))
}

/// `c`, between caller permissions, follows from `e` through one or two instantiation variables.
pub open spec fn through_inst(e: Seq<Constraint>, c: Constraint) -> bool {
    ||| in_join(e, e, c, true, false)
    ||| exists|m: Constraint| #[trigger] in_join(e, e, m, true, true) && joins_any(m, e, c, true, false)
}

/// The constraint sets of a table of summaries.
pub open spec fn csets_of(summs: Seq<FnSummary>) -> Seq<Seq<Constraint>> {
    summs.map_values(|s: FnSummary| s.cset@)
}

/// The constraint sets of a table, as vectors.
pub open spec fn csets_view(v: Seq<Vec<Constraint>>) -> Seq<Seq<Constraint>> {
    v.map_values(|c: Vec<Constraint>| c@)
}

/// `c` follows, in one step, for function `f` from the current constraint sets `cs`: by
/// transitivity through one of its signature variables, or from a callee through an
/// instantiation.
pub open spec fn derived(summs: Seq<FnSummary>, cs: Seq<Seq<Constraint>>, f: int, c: Constraint) -> bool {
    ||| in_join(cs[f], cs[f], c, false, false)
    ||| exists|i: int|
        0 <= i < summs[f].insts@.len() && #[trigger] through_inst(
            inst_edges(summs[f].insts@[i].cset@, cs[summs[f].insts@[i].callee as int]),
            c,
        )
}

/// No function's constraint set gains anything from another pass.
pub open spec fn is_complete(summs: Seq<FnSummary>) -> bool {
    forall|f: int, c: Constraint|
        0 <= f < summs.len() && #[trigger] derived(summs, csets_of(summs), f, c) ==> summs[f].cset@.contains(c)
}

fn copy_cset(v: &Vec<Constraint>) -> (r: Vec<Constraint>)
    ensures
        r@ == v@,
{
    let mut r: Vec<Constraint> = Vec::new();
    for i in 0..v.len()
        invariant
            r@ == v@.subrange(0, i as int),
    {
        r.push(v[i]);
        assert(r@ =~= v@.subrange(0, i as int + 1));
    }
    assert(r@ =~= v@);
    r
}

fn edges_of(inst_cs: &Vec<Constraint>, callee_cs: &Vec<Constraint>) -> (r: Vec<Constraint>)
    ensures
        r@ == inst_edges(inst_cs@, callee_cs@),
{
    let mut r = copy_cset(inst_cs);
    for i in 0..callee_cs.len()
        invariant
            r@ == inst_edges(inst_cs@, callee_cs@.subrange(0, i as int)),
    {
        let c = callee_cs[i];
        let lo = match c.lo {
            Perm::SigVar(v) => Perm::InstVar(v),
            p => p,
        };
        let hi = match c.hi {
            Perm::SigVar(v) => Perm::InstVar(v),
            p => p,
        };
        r.push(Constraint { lo, hi });
        assert(callee_cs@.subrange(0, i as int + 1) =~= callee_cs@.subrange(0, i as int).push(c));
        assert(r@ =~= inst_edges(inst_cs@, callee_cs@.subrange(0, i as int + 1)));
    }
    assert(callee_cs@.subrange(0, callee_cs@.len() as int) =~= callee_cs@);
    r
}

proof fn lemma_mid_join(e: Seq<Constraint>, mid: Seq<Constraint>, c: Constraint)
    requires
        forall|m: Constraint| mid.contains(m) <==> in_join(e, e, m, true, true),
    ensures
        in_join(mid, e, c, true, false) <==> exists|m: Constraint|
            #[trigger] in_join(e, e, m, true, true) && joins_any(m, e, c, true, false),
{
    if in_join(mid, e, c, true, false) {
        let (p, q) = choose|p: int, q: int|
            0 <= p < mid.len() && 0 <= q < e.len() && #[trigger] joins(mid[p], e[q], c, true, false);
        let m = mid[p];
        assert(mid.contains(m));
        assert(joins(m, e[q], c, true, false));
        assert(in_join(e, e, m, true, true) && joins_any(m, e, c, true, false));
    }
    if exists|m: Constraint| #[trigger] in_join(e, e, m, true, true) && joins_any(m, e, c, true, false) {
        let m = choose|m: Constraint| #[trigger] in_join(e, e, m, true, true) && joins_any(m, e, c, true, false);
        assert(mid.contains(m));
        let p = choose|p: int| 0 <= p < mid.len() && mid[p] == m;
        let q = choose|q: int| 0 <= q < e.len() && #[trigger] joins(m, e[q], c, true, false);
        assert(joins(mid[p], e[q], c, true, false));
    }
}

/// Function `f`'s constraint set with what follows from the current sets `cs` in one step.
fn complete_step(summs: &Vec<FnSummary>, cs: &Vec<Vec<Constraint>>, f: usize) -> (out: Vec<Constraint>)
    requires
        f < summs@.len(),
        cs@.len() == summs@.len(),
        table_wf(summs@),
    ensures
        extends_with(cs@[f as int]@, out@, |c: Constraint| derived(summs@, csets_view(cs@), f as int, c)),
{
    let ghost cv = csets_view(cs@);
    let ghost fi = f as int;
    let ghost o = cs@[fi]@;
    assert(cv[fi] == o);
    let mut out = copy_cset(&cs[f]);
    join_into(&cs[f], &cs[f], false, false, &mut out);
    let insts = &summs[f].insts;
    let n = insts.len();
    for i in 0..n
        invariant
            n == insts@.len(),
            insts@ == summs@[fi].insts@,
            fi == f,
            f < summs@.len(),
            cs@.len() == summs@.len(),
            table_wf(summs@),
            cv == csets_view(cs@),
            o == cs@[fi]@,
            o.len() <= out@.len(),
            out@.subrange(0, o.len() as int) == o,
            forall|c: Constraint|
                #[trigger] out@.contains(c) <==> (o.contains(c) || in_join(o, o, c, false, false) || exists|p: int|
                    0 <= p < i && #[trigger] through_inst(
                        inst_edges(insts@[p].cset@, cv[insts@[p].callee as int]),
                        c,
                    )),
            (forall|c: Constraint| derived(summs@, cv, fi, c) ==> o.contains(c)) ==> out@ == o,
    {
        let inst = &insts[i];
        proof {
            assert(0 <= i < summs@[fi].insts@.len());
            assert(summs@[fi].insts@[i as int].callee < summs@.len());
        }
        let ghost g = inst.callee as int;
        assert(cv[g] == cs@[g]@);
        let e = edges_of(&inst.cset, &cs[inst.callee]);
        let ghost before = out@;
        let mut mid: Vec<Constraint> = Vec::new();
        join_into(&e, &e, true, true, &mut mid);
        proof {
            assert forall|m: Constraint| mid@.contains(m) <==> in_join(e@, e@, m, true, true) by {}
            if forall|c: Constraint| #[trigger] derived(summs@, cv, fi, c) ==> o.contains(c) {
                assert forall|c: Constraint| in_join(e@, e@, c, true, false) implies before.contains(c) by {
                    assert(through_inst(e@, c));
                    assert(derived(summs@, cv, fi, c));
                    assert(o.contains(c));
                    let w = choose|w: int| 0 <= w < o.len() && o[w] == c;
                    assert(before.subrange(0, o.len() as int)[w] == c);
                    assert(before[w] == c);
                }
            }
        }
        join_into(&e, &e, true, false, &mut out);
        let ghost middle = out@;
        proof {
            if forall|c: Constraint| #[trigger] derived(summs@, cv, fi, c) ==> o.contains(c) {
                assert forall|c: Constraint| in_join(mid@, e@, c, true, false) implies middle.contains(c) by {
                    lemma_mid_join(e@, mid@, c);
                    assert(through_inst(e@, c));
                    assert(derived(summs@, cv, fi, c));
                    assert(o.contains(c));
                    let w = choose|w: int| 0 <= w < o.len() && o[w] == c;
                    assert(middle.subrange(0, o.len() as int)[w] == c);
                    assert(middle[w] == c);
                }
            }
        }
        join_into(&mid, &e, true, false, &mut out);
        proof {
            assert(out@.subrange(0, o.len() as int) =~= before.subrange(0, o.len() as int));
            assert forall|c: Constraint|
                #[trigger] out@.contains(c) <==> (o.contains(c) || in_join(o, o, c, false, false) || exists|p: int|
                    0 <= p < i + 1 && #[trigger] through_inst(
                        inst_edges(insts@[p].cset@, cv[insts@[p].callee as int]),
                        c,
                    )) by {
                lemma_mid_join(e@, mid@, c);
                assert(out@.contains(c) <==> (before.contains(c) || through_inst(e@, c)));
                assert(e@ == inst_edges(insts@[i as int].cset@, cv[insts@[i as int].callee as int]));
                if exists|p: int|
                    0 <= p < i + 1 && #[trigger] through_inst(inst_edges(insts@[p].cset@, cv[insts@[p].callee as int]), c) {
                    let p = choose|p: int|
                        0 <= p < i + 1 && #[trigger] through_inst(inst_edges(insts@[p].cset@, cv[insts@[p].callee as int]), c);
                    if p < i {
                        assert(exists|p: int|
                            0 <= p < i && #[trigger] through_inst(inst_edges(insts@[p].cset@, cv[insts@[p].callee as int]), c));
                    }
                }
                if exists|p: int|
                    0 <= p < i && #[trigger] through_inst(inst_edges(insts@[p].cset@, cv[insts@[p].callee as int]), c) {
                    let p = choose|p: int|
                        0 <= p < i && #[trigger] through_inst(inst_edges(insts@[p].cset@, cv[insts@[p].callee as int]), c);
                    assert(0 <= p < i + 1);
                }
                if through_inst(e@, c) {
                    assert(0 <= i < i + 1);
                }
            }
        }
    }
    proof {
        assert forall|c: Constraint|
            #[trigger] out@.contains(c) <==> (o.contains(c) || derived(summs@, cv, fi, c)) by {
            if exists|p: int|
                0 <= p < n && #[trigger] through_inst(inst_edges(insts@[p].cset@, cv[insts@[p].callee as int]), c) {
                let p = choose|p: int|
                    0 <= p < n && #[trigger] through_inst(inst_edges(insts@[p].cset@, cv[insts@[p].callee as int]), c);
                assert(through_inst(inst_edges(summs@[fi].insts@[p].cset@, cv[summs@[fi].insts@[p].callee as int]), c));
            }
            if derived(summs@, cv, fi, c) && !in_join(cv[fi], cv[fi], c, false, false) {
                let p = choose|p: int|
                    0 <= p < summs@[fi].insts@.len() && #[trigger] through_inst(
                        inst_edges(summs@[fi].insts@[p].cset@, cv[summs@[fi].insts@[p].callee as int]),
                        c,
                    );
                assert(through_inst(inst_edges(insts@[p].cset@, cv[insts@[p].callee as int]), c));
            }
        }
    }
    out
}

/// The fixed-point loop reached its bound on passes without converging.
#[derive(Clone, Copy, PartialEq, Eq, Structural, Debug)]
pub enum SolveError {
    DidNotConverge,
}

/// `new` is `old` with only the constraint sets grown, each keeping its old constraints first.
pub open spec fn grows_csets(old: Seq<FnSummary>, new: Seq<FnSummary>) -> bool {
    &&& new.len() == old.len()
    &&& forall|f: int|
        0 <= f < old.len() ==> {
            &&& (#[trigger] new[f]).num_sig_vars == old[f].num_sig_vars
            &&& new[f].sig == old[f].sig
            &&& new[f].insts == old[f].insts
            &&& old[f].cset@.len() <= new[f].cset@.len()
            &&& new[f].cset@.subrange(0, old[f].cset@.len() as int) == old[f].cset@
        }
}

proof fn lemma_grows_refl(s: Seq<FnSummary>)
    ensures
        grows_csets(s, s),
{
    assert forall|f: int| 0 <= f < s.len() implies #[trigger] s[f].cset@.subrange(0, s[f].cset@.len() as int)
        == s[f].cset@ by {
        assert(s[f].cset@.subrange(0, s[f].cset@.len() as int) =~= s[f].cset@);
    }
}

/// A number for each permission: the three concrete ones first, then the variables.
pub open spec fn code(p: Perm) -> nat {
    match p {
        Perm::Concrete(c) => crate::constraint::rank(c),
        Perm::SigVar(v) => 3 + 2 * (v.0 as nat),
        Perm::InstVar(v) => 4 + 2 * (v.0 as nat),
    }
}

/// The permission numbered `n` by `code`.
pub open spec fn decode(n: nat) -> Perm {
    if n == 0 {
        Perm::Concrete(ConcretePerm::Read)
    } else if n == 1 {
        Perm::Concrete(ConcretePerm::Write)
    } else if n == 2 {
        Perm::Concrete(ConcretePerm::Move)
    } else if (n - 3) % 2 == 0 {
        Perm::SigVar(Var(((n - 3) / 2) as u32))
    } else {
        Perm::InstVar(Var(((n - 4) / 2) as u32))
    }
}

proof fn lemma_decode_code(p: Perm)
    ensures
        decode(code(p)) == p,
{
    match p {
        Perm::Concrete(c) => {},
        Perm::SigVar(v) => {
            assert((3 + 2 * (v.0 as nat) - 3) % 2 == 0);
            assert((3 + 2 * (v.0 as nat) - 3) / 2 == v.0 as nat);
        },
        Perm::InstVar(v) => {
            assert((4 + 2 * (v.0 as nat) - 3) % 2 == 1);
            assert((4 + 2 * (v.0 as nat) - 4) / 2 == v.0 as nat);
        },
    }
}

/// The largest number of an endpoint of `cs`.
pub open spec fn max_code(cs: Seq<Constraint>) -> nat
    decreases cs.len(),
{
    if cs.len() == 0 {
        0
    } else {
        let m = max_code(cs.drop_last());
        let a = code(cs.last().lo);
        let b = code(cs.last().hi);
        if m >= a && m >= b {
            m
        } else if a >= b {
            a
        } else {
            b
        }
    }
}

proof fn lemma_max_code(cs: Seq<Constraint>, i: int)
    requires
        0 <= i < cs.len(),
    ensures
        code(cs[i].lo) <= max_code(cs),
        code(cs[i].hi) <= max_code(cs),
    decreases cs.len(),
{
    if i < cs.len() - 1 {
        lemma_max_code(cs.drop_last(), i);
    }
}

/// A bound on the endpoint numbers of the constraints of all instantiations.
pub open spec fn insts_code(insts: Seq<Instantiation>) -> nat
    decreases insts.len(),
{
    if insts.len() == 0 {
        0
    } else {
        insts_code(insts.drop_last()) + max_code(insts.last().cset@)
    }
}

proof fn lemma_insts_code(insts: Seq<Instantiation>, i: int, k: int)
    requires
        0 <= i < insts.len(),
        0 <= k < insts[i].cset@.len(),
    ensures
        code(insts[i].cset@[k].lo) <= insts_code(insts),
        code(insts[i].cset@[k].hi) <= insts_code(insts),
    decreases insts.len(),
{
    if i < insts.len() - 1 {
        lemma_insts_code(insts.drop_last(), i, k);
    } else {
        lemma_max_code(insts[i].cset@, k);
    }
}

/// Every constraint that the solver can give a function has both endpoint numbers below this
/// bound: they come from its own constraints, its instantiations' constraints, or are concrete.
pub open spec fn universe_bound(s: FnSummary) -> nat {
    4 + max_code(s.cset@) + insts_code(s.insts@)
}

pub open spec fn in_universe(b: nat, c: Constraint) -> bool {
    code(c.lo) < b && code(c.hi) < b
}

/// Every constraint of every set lies in its function's universe.
pub open spec fn within_universe(s0: Seq<FnSummary>, cs: Seq<Seq<Constraint>>) -> bool {
    &&& cs.len() == s0.len()
    &&& forall|g: int, k: int|
        0 <= g < s0.len() && 0 <= k < cs[g].len() ==> in_universe(universe_bound(s0[g]), #[trigger] cs[g][k])
}

proof fn lemma_initial_within(s0: Seq<FnSummary>)
    ensures
        within_universe(s0, csets_of(s0)),
{
    assert forall|g: int, k: int|
        0 <= g < s0.len() && 0 <= k < csets_of(s0)[g].len() implies in_universe(universe_bound(s0[g]), #[trigger] csets_of(s0)[g][k]) by {
        lemma_max_code(s0[g].cset@, k);
    }
}

proof fn lemma_edge_end(s0: Seq<FnSummary>, cs: Seq<Seq<Constraint>>, f: int, i: int, x: Constraint, lo: bool)
    requires
        table_wf(s0),
        within_universe(s0, cs),
        0 <= f < s0.len(),
        0 <= i < s0[f].insts@.len(),
        inst_edges(s0[f].insts@[i].cset@, cs[s0[f].insts@[i].callee as int]).contains(x),
        !((if lo { x.lo } else { x.hi }) is InstVar),
    ensures
        code(if lo { x.lo } else { x.hi }) < universe_bound(s0[f]),
{
    let inst = s0[f].insts@[i];
    let e = inst_edges(inst.cset@, cs[inst.callee as int]);
    let q = choose|q: int| 0 <= q < e.len() && e[q] == x;
    if q < inst.cset@.len() {
        assert(x == inst.cset@[q]);
        lemma_insts_code(s0[f].insts@, i, q);
    } else {
        let y = cs[inst.callee as int][q - inst.cset@.len()];
        assert(x == renamed_constraint(y));
        let p = if lo { y.lo } else { y.hi };
        match p {
            Perm::Concrete(c) => {},
            _ => {},
        }
    }
}

proof fn lemma_derived_within(s0: Seq<FnSummary>, cs: Seq<Seq<Constraint>>, f: int, c: Constraint)
    requires
        table_wf(s0),
        within_universe(s0, cs),
        0 <= f < s0.len(),
        derived(s0, cs, f, c),
    ensures
        in_universe(universe_bound(s0[f]), c),
{
    if in_join(cs[f], cs[f], c, false, false) {
        let (i, j) = choose|i: int, j: int|
            0 <= i < cs[f].len() && 0 <= j < cs[f].len() && #[trigger] joins(cs[f][i], cs[f][j], c, false, false);
        assert(in_universe(universe_bound(s0[f]), cs[f][i]));
        assert(in_universe(universe_bound(s0[f]), cs[f][j]));
    } else {
        let i = choose|i: int|
            0 <= i < s0[f].insts@.len() && #[trigger] through_inst(
                inst_edges(s0[f].insts@[i].cset@, cs[s0[f].insts@[i].callee as int]),
                c,
            );
        assert(s0[f].insts@[i].callee < s0.len());
        let e = inst_edges(s0[f].insts@[i].cset@, cs[s0[f].insts@[i].callee as int]);
        if in_join(e, e, c, true, false) {
            let (p, q) = choose|p: int, q: int| 0 <= p < e.len() && 0 <= q < e.len() && #[trigger] joins(e[p], e[q], c, true, false);
            assert(e.contains(e[p]));
            assert(e.contains(e[q]));
            lemma_edge_end(s0, cs, f, i, e[p], true);
            lemma_edge_end(s0, cs, f, i, e[q], false);
        } else {
            let m = choose|m: Constraint| #[trigger] in_join(e, e, m, true, true) && joins_any(m, e, c, true, false);
            let (p, q) = choose|p: int, q: int| 0 <= p < e.len() && 0 <= q < e.len() && #[trigger] joins(e[p], e[q], m, true, true);
            let r = choose|r: int| 0 <= r < e.len() && #[trigger] joins(m, e[r], c, true, false);
            assert(e.contains(e[p]));
            assert(e.contains(e[r]));
            lemma_edge_end(s0, cs, f, i, e[p], true);
            lemma_edge_end(s0, cs, f, i, e[r], false);
        }
    }
}

/// Whether `cs` lacks the constraint between the permissions numbered `a` and `b`.
pub open spec fn missing_one(cs: Seq<Constraint>, a: nat, b: nat) -> nat {
    if cs.contains(Constraint { lo: decode(a), hi: decode(b) }) { 0 } else { 1 }
}

pub open spec fn missing_row(cs: Seq<Constraint>, a: nat, nb: nat) -> nat
    decreases nb,
{
    if nb == 0 { 0 } else { missing_row(cs, a, (nb - 1) as nat) + missing_one(cs, a, (nb - 1) as nat) }
}

/// How many constraints with both endpoint numbers below `bound` are not in `cs` (counting the
/// first `na` lower endpoints).
pub open spec fn missing(cs: Seq<Constraint>, na: nat, bound: nat) -> nat
    decreases na,
{
    if na == 0 { 0 } else { missing(cs, (na - 1) as nat, bound) + missing_row(cs, (na - 1) as nat, bound) }
}

/// The constraints still missing over all functions.
pub open spec fn total_missing(s0: Seq<FnSummary>, cs: Seq<Seq<Constraint>>, n: int) -> nat
    decreases n,
{
    if n <= 0 {
        0
    } else {
        total_missing(s0, cs, n - 1) + missing(cs[n - 1], universe_bound(s0[n - 1]), universe_bound(s0[n - 1]))
    }
}

/// A bound on the passes that the solver needs: one more than the constraints that may still be
/// added when it starts.
pub open spec fn pass_bound(s0: Seq<FnSummary>) -> nat {
    1 + total_missing(s0, csets_of(s0), s0.len() as int)
}

pub open spec fn grows(old: Seq<Constraint>, new: Seq<Constraint>) -> bool {
    forall|c: Constraint| old.contains(c) ==> new.contains(c)
}

proof fn lemma_missing_row(old: Seq<Constraint>, new: Seq<Constraint>, a: nat, nb: nat, b0: nat)
    requires
        grows(old, new),
    ensures
        missing_row(new, a, nb) <= missing_row(old, a, nb),
        b0 < nb && missing_one(new, a, b0) < missing_one(old, a, b0) ==> missing_row(new, a, nb) < missing_row(old, a, nb),
    decreases nb,
{
    if nb > 0 {
        lemma_missing_row(old, new, a, (nb - 1) as nat, b0);
    }
}

proof fn lemma_missing(old: Seq<Constraint>, new: Seq<Constraint>, na: nat, bound: nat, a0: nat, b0: nat)
    requires
        grows(old, new),
    ensures
        missing(new, na, bound) <= missing(old, na, bound),
        a0 < na && b0 < bound && missing_one(new, a0, b0) < missing_one(old, a0, b0) ==> missing(new, na, bound) < missing(old, na, bound),
    decreases na,
{
    if na > 0 {
        lemma_missing(old, new, (na - 1) as nat, bound, a0, b0);
        lemma_missing_row(old, new, (na - 1) as nat, bound, b0);
    }
}

proof fn lemma_fresh_shrinks(old: Seq<Constraint>, new: Seq<Constraint>, bound: nat, c: Constraint)
    requires
        grows(old, new),
        new.contains(c),
        !old.contains(c),
        in_universe(bound, c),
    ensures
        missing(new, bound, bound) < missing(old, bound, bound),
{
    lemma_decode_code(c.lo);
    lemma_decode_code(c.hi);
    assert(Constraint { lo: decode(code(c.lo)), hi: decode(code(c.hi)) } == c);
    lemma_missing(old, new, bound, bound, code(c.lo), code(c.hi));
}

proof fn lemma_total_missing(s0: Seq<FnSummary>, old: Seq<Seq<Constraint>>, new: Seq<Seq<Constraint>>, n: int, f0: int)
    requires
        0 <= n <= s0.len(),
        old.len() == s0.len(),
        new.len() == s0.len(),
        forall|g: int| 0 <= g < n ==> #[trigger] missing(new[g], universe_bound(s0[g]), universe_bound(s0[g])) <= missing(old[g], universe_bound(s0[g]), universe_bound(s0[g])),
    ensures
        total_missing(s0, new, n) <= total_missing(s0, old, n),
        0 <= f0 < n && missing(new[f0], universe_bound(s0[f0]), universe_bound(s0[f0])) < missing(old[f0], universe_bound(s0[f0]), universe_bound(s0[f0]))
            ==> total_missing(s0, new, n) < total_missing(s0, old, n),
    decreases n,
{
    if n > 0 {
        lemma_total_missing(s0, old, new, n - 1, f0);
    }
}

fn contains_constraint(v: &Vec<Constraint>, c: Constraint) -> (r: bool)
    ensures
        r == v@.contains(c),
{
    for k in 0..v.len()
        invariant
            forall|q: int| 0 <= q < k ==> v@[q] != c,
    {
        if v[k] == c {
            assert(v@[k as int] == c);
            return true;
        }
    }
    false
}

/// Finds a constraint of `new` that `old` lacks.
fn find_fresh(old: &Vec<Constraint>, new: &Vec<Constraint>) -> (r: Option<usize>)
    ensures
        r matches Some(k) ==> k < new@.len() && !old@.contains(new@[k as int]),
        r is None ==> forall|c: Constraint| new@.contains(c) ==> old@.contains(c),
{
    for k in 0..new.len()
        invariant
            forall|q: int| 0 <= q < k ==> old@.contains(#[trigger] new@[q]),
    {
        if !contains_constraint(old, new[k]) {
            return Some(k);
        }
    }
    None
}

/// Completes every summary: runs passes over all functions, each adding to every constraint set
/// what follows from the sets left by the previous pass, until a pass adds nothing.  Gives up,
/// leaving the summaries as they were, after `max_passes` passes that each added something;
/// that never happens with `max_passes >= pass_bound(..)`, since every pass but the last adds a
/// constraint between endpoints already known, and those are finitely many.
///
/// On success every constraint set has grown and is complete.  A table that is complete already
/// comes back unchanged after one pass.
pub fn analyze_inter(summs: &mut Vec<FnSummary>, max_passes: usize) -> (r: Result<(), SolveError>)
    requires
        table_wf(old(summs)@),
    ensures
        grows_csets(old(summs)@, final(summs)@),
        r is Ok ==> is_complete(final(summs)@),
        r is Err ==> final(summs)@ == old(summs)@,
        max_passes >= pass_bound(old(summs)@) ==> r is Ok,
        is_complete(old(summs)@) && max_passes > 0 ==> r is Ok && final(summs)@ == old(summs)@,
{
    let n = summs.len();
    let ghost s0 = summs@;
    let mut cs: Vec<Vec<Constraint>> = Vec::new();
    for f in 0..n
        invariant
            n == summs@.len(),
            cs@.len() == f,
            forall|g: int| 0 <= g < f ==> (#[trigger] cs@[g])@ == summs@[g].cset@,
    {
        cs.push(copy_cset(&summs[f].cset));
    }
    assert(csets_view(cs@) =~= csets_of(summs@));
    proof {
        lemma_initial_within(s0);
    }
    let mut pass: usize = 0;
    let mut done = false;
    while !done && pass < max_passes
        invariant
            n == summs@.len(),
            summs@ == s0,
            table_wf(s0),
            cs@.len() == n,
            pass == 0 ==> csets_view(cs@) == csets_of(s0),
            is_complete(s0) ==> pass == 0,
            is_complete(s0) && max_passes > 0 ==> (done || pass < max_passes),
            done ==> forall|f: int, c: Constraint|
                0 <= f < n && #[trigger] derived(s0, csets_view(cs@), f, c) ==> cs@[f]@.contains(c),
            within_universe(s0, csets_view(cs@)),
            pass + total_missing(s0, csets_view(cs@), n as int) < pass_bound(s0),
            forall|g: int|
                0 <= g < n ==> s0[g].cset@.len() <= (#[trigger] cs@[g])@.len() && cs@[g]@.subrange(
                    0,
                    s0[g].cset@.len() as int,
                ) == s0[g].cset@,
        decreases max_passes - pass, if done { 0int } else { 1int },
    {
        let mut next: Vec<Vec<Constraint>> = Vec::new();
        let mut changed = false;
        let ghost mut fg: int = 0;
        let ghost mut fc: Constraint = Constraint { lo: Perm::Concrete(ConcretePerm::Read), hi: Perm::Concrete(ConcretePerm::Read) };
        for f in 0..n
            invariant
                n == summs@.len(),
                summs@ == s0,
                table_wf(s0),
                cs@.len() == n,
                next@.len() == f,
                forall|g: int|
                    0 <= g < f ==> extends_with(
                        cs@[g]@,
                        (#[trigger] next@[g])@,
                        |c: Constraint| derived(s0, csets_view(cs@), g, c),
                    ),
                !changed ==> forall|g: int, c: Constraint| 0 <= g < f && #[trigger] next@[g]@.contains(c) ==> cs@[g]@.contains(c),
                changed ==> 0 <= fg < f && next@[fg]@.contains(fc) && !cs@[fg]@.contains(fc),
                within_universe(s0, csets_view(cs@)),
                forall|g: int, k: int|
                    0 <= g < f && 0 <= k < next@[g]@.len() ==> in_universe(universe_bound(s0[g]), #[trigger] next@[g]@[k]),
                pass == 0 ==> csets_view(cs@) == csets_of(s0),
                is_complete(s0) ==> pass == 0,
                is_complete(s0) ==> !changed,
                forall|g: int|
                    0 <= g < n ==> s0[g].cset@.len() <= (#[trigger] cs@[g])@.len() && cs@[g]@.subrange(
                        0,
                        s0[g].cset@.len() as int,
                    ) == s0[g].cset@,
        {
            let o = complete_step(summs, &cs, f);
            proof {
                if is_complete(s0) {
                    assert forall|c: Constraint| #[trigger] derived(s0, csets_view(cs@), f as int, c) implies cs@[f as int]@.contains(c) by {
                        assert(csets_view(cs@)[f as int] == cs@[f as int]@);
                        assert(derived(s0, csets_of(s0), f as int, c));
                        assert(s0[f as int].cset@.contains(c));
                        assert(csets_of(s0)[f as int] == s0[f as int].cset@);
                    }
                    assert(o@ == cs@[f as int]@);
                }
            }
            proof {
                assert forall|k: int| 0 <= k < o@.len() implies in_universe(universe_bound(s0[f as int]), #[trigger] o@[k]) by {
                    assert(o@.contains(o@[k]));
                    if !cs@[f as int]@.contains(o@[k]) {
                        lemma_derived_within(s0, csets_view(cs@), f as int, o@[k]);
                    } else {
                        let q = choose|q: int| 0 <= q < cs@[f as int]@.len() && cs@[f as int]@[q] == o@[k];
                        assert(csets_view(cs@)[f as int] == cs@[f as int]@);
                        assert(in_universe(universe_bound(s0[f as int]), csets_view(cs@)[f as int][q]));
                    }
                }
            }
            match find_fresh(&cs[f], &o) {
                Some(k) => {
                    proof {
                        if !changed {
                            fg = f as int;
                            fc = o@[k as int];
                            assert(o@.contains(fc));
                        }
                    }
                    changed = true;
                },
                None => {},
            }
            let ghost before = next@;
            next.push(o);
            proof {
                if changed {
                    assert(next@[fg] == before[fg] || fg == f);
                }
            }
        }
        if !changed {
            proof {
                assert forall|f: int, c: Constraint|
                    0 <= f < n && #[trigger] derived(s0, csets_view(cs@), f, c) implies cs@[f]@.contains(c) by {
                    assert(extends_with(cs@[f]@, next@[f]@, |c: Constraint| derived(s0, csets_view(cs@), f, c)));
                    assert(next@[f]@.contains(c));
                }
            }
            done = true;
        } else {
            proof {
                assert forall|g: int|
                    0 <= g < n implies s0[g].cset@.len() <= (#[trigger] next@[g])@.len() && next@[g]@.subrange(
                        0,
                        s0[g].cset@.len() as int,
                    ) == s0[g].cset@ by {
                    assert(extends_with(cs@[g]@, next@[g]@, |c: Constraint| derived(s0, csets_view(cs@), g, c)));
                    assert(next@[g]@.subrange(0, s0[g].cset@.len() as int) =~= next@[g]@.subrange(
                        0,
                        cs@[g]@.len() as int,
                    ).subrange(0, s0[g].cset@.len() as int));
                }
            }
            proof {
                let ov = csets_view(cs@);
                let nv = csets_view(next@);
                assert forall|g: int| 0 <= g < n implies #[trigger] missing(nv[g], universe_bound(s0[g]), universe_bound(s0[g]))
                    <= missing(ov[g], universe_bound(s0[g]), universe_bound(s0[g])) by {
                    assert(extends_with(cs@[g]@, next@[g]@, |c: Constraint| derived(s0, csets_view(cs@), g, c)));
                    assert(grows(ov[g], nv[g]));
                    lemma_missing(ov[g], nv[g], universe_bound(s0[g]), universe_bound(s0[g]), 0, 0);
                }
                assert(extends_with(cs@[fg]@, next@[fg]@, |c: Constraint| derived(s0, csets_view(cs@), fg, c)));
                let kk = choose|kk: int| 0 <= kk < next@[fg]@.len() && next@[fg]@[kk] == fc;
                assert(in_universe(universe_bound(s0[fg]), next@[fg]@[kk]));
                lemma_fresh_shrinks(ov[fg], nv[fg], universe_bound(s0[fg]), fc);
                lemma_total_missing(s0, ov, nv, n as int, fg);
                assert forall|g: int, k: int|
                    0 <= g < s0.len() && 0 <= k < nv[g].len() implies in_universe(universe_bound(s0[g]), #[trigger] nv[g][k]) by {
                    assert(nv[g][k] == next@[g]@[k]);
                }
            }
            cs = next;
            pass = pass + 1;
        }
    }
    if !done {
        proof {
            lemma_grows_refl(s0);
        }
        return Err(SolveError::DidNotConverge);
    }
    if pass == 0 {
        proof {
            lemma_grows_refl(s0);
            assert forall|f: int, c: Constraint|
                0 <= f < n && #[trigger] derived(s0, csets_of(s0), f, c) implies s0[f].cset@.contains(c) by {
                assert(cs@[f]@ == csets_view(cs@)[f]);
                assert(cs@[f]@ == s0[f].cset@);
            }
        }
        return Ok(());
    }
    let mut f: usize = 0;
    while f < n
        invariant
            f <= n,
            n == summs@.len(),
            cs@.len() == n,
            s0.len() == n,
            forall|g: int|
                0 <= g < n ==> {
                    &&& (#[trigger] summs@[g]).num_sig_vars == s0[g].num_sig_vars
                    &&& summs@[g].sig == s0[g].sig
                    &&& summs@[g].insts == s0[g].insts
                },
            forall|g: int| 0 <= g < f ==> (#[trigger] summs@[g]).cset@ == cs@[g]@,
            forall|g: int| f <= g < n ==> (#[trigger] summs@[g]).cset@ == s0[g].cset@,
        decreases n - f,
    {
        let c = copy_cset(&cs[f]);
        summs[f].cset = c;
        f = f + 1;
    }
    proof {
        assert(csets_of(summs@) =~= csets_view(cs@));
        assert forall|g: int| 0 <= g < n implies #[trigger] summs@[g].cset@.subrange(0, s0[g].cset@.len() as int) == s0[g].cset@ by {
            assert(summs@[g].cset@ == cs@[g]@);
        }
        assert forall|f: int, c: Constraint|
            0 <= f < n && #[trigger] derived(summs@, csets_of(summs@), f, c) implies summs@[f].cset@.contains(c) by {
            assert(derived(s0, csets_view(cs@), f, c));
        }
    }
    Ok(())
}

} // verus!
