//! The intraprocedural phase on a function body given as the effects of its statements on the
//! pointers of its signature.
use vstd::prelude::*;
use crate::constraint::{ConcretePerm, Constraint, Perm, Var};
use crate::labeled_ty::{LFnSig, LabeledTy, count_ptrs};
use crate::constraint::satisfied_by;
use crate::mono::{mono_sigs_of, lemma_mono_sigs_members, all_sat_assigns, is_minimal};
use crate::summary::{FnSummary, Instantiation};

verus! {

/// One statement's effect on the signature's pointers, each named by its signature variable.
pub enum Stmt {
    /// Reads through the pointer.
    Read(u32),
    /// Writes through the pointer.
    Write(u32),
    /// Consumes the pointer by value.
    Move(u32),
    /// Stores the second pointer into the first: what the first is used for, the second must allow.
    Assign(u32, u32),
    /// Calls (or takes the address of) a function, passing `args[k]` as its `k`-th pointer.
    Call(usize, Vec<u32>),
}

/// A function body in block order.
pub struct Body {
    pub sig: LFnSig,
    pub num_sig_vars: u32,
    pub stmts: Vec<Stmt>,
}

pub open spec fn sv(p: u32) -> Perm {
    Perm::SigVar(Var(p))
}

pub open spec fn at_least(c: ConcretePerm, p: u32) -> Constraint {
    Constraint { lo: Perm::Concrete(c), hi: sv(p) }
}

/// Some statement before `i` consumes pointer `p`.
pub open spec fn moved_before(stmts: Seq<Stmt>, i: int, p: u32) -> bool {
    exists|k: int| 0 <= k < i && #[trigger] stmts[k] == Stmt::Move(p)
}

/// A use of `p` at statement `i`: still valid afterwards if it was consumed before, so at most
/// WRITE.
pub open spec fn use_of(stmts: Seq<Stmt>, i: int, p: u32) -> Seq<Constraint> {
    if moved_before(stmts, i, p) {
        seq![Constraint { lo: sv(p), hi: Perm::Concrete(ConcretePerm::Write) }]
    } else {
        Seq::empty()
    }
}

/// The constraints that statement `i` adds to the function's own set.
pub open spec fn stmt_constraints(stmts: Seq<Stmt>, i: int) -> Seq<Constraint> {
    match stmts[i] {
        Stmt::Read(p) => seq![at_least(ConcretePerm::Read, p)] + use_of(stmts, i, p),
        Stmt::Write(p) => seq![at_least(ConcretePerm::Write, p)] + use_of(stmts, i, p),
        Stmt::Move(p) => seq![at_least(ConcretePerm::Move, p)] + use_of(stmts, i, p),
        Stmt::Assign(d, s) => seq![Constraint { lo: sv(d), hi: sv(s) }] + use_of(stmts, i, s),
        Stmt::Call(_, _) => Seq::empty(),
    }
}

/// The constraints of the first `n` statements, in order.
pub open spec fn body_constraints(stmts: Seq<Stmt>, n: int) -> Seq<Constraint>
    decreases n,
{
    if n <= 0 {
        Seq::empty()
    } else {
        body_constraints(stmts, n - 1) + stmt_constraints(stmts, n - 1)
    }
}

/// The constraints of one call: the callee's `k`-th pointer asks no more than the caller's
/// argument allows.
pub open spec fn call_constraints(args: Seq<u32>) -> Seq<Constraint> {
    Seq::new(args.len(), |k: int| Constraint { lo: Perm::InstVar(Var(k as u32)), hi: sv(args[k]) })
}

/// An instantiation as plain values.
pub open spec fn inst_view(i: Instantiation) -> (usize, Seq<Constraint>) {
    (i.callee, i.cset@)
}

/// The instantiations of the first `n` statements, one per call, in order.
pub open spec fn body_insts(stmts: Seq<Stmt>, n: int) -> Seq<(usize, Seq<Constraint>)>
    decreases n,
{
    if n <= 0 {
        Seq::empty()
    } else {
        body_insts(stmts, n - 1) + match stmts[n - 1] {
            Stmt::Call(callee, args) => seq![(callee, call_constraints(args@))],
            _ => Seq::empty(),
        }
    }
}

/// The number of pointers in a labeled signature.
pub open spec fn sig_ptrs(sig: LFnSig) -> nat {
    sig.inputs@.fold_left(0nat, |acc: nat, t: LabeledTy| acc + count_ptrs(t.kinds@)) + count_ptrs(sig.output.kinds@)
}

/// The body has one signature variable per pointer of its signature, every pointer that a
/// statement names is one of them, and every call passes no more arguments than variable indices
/// allow.
pub open spec fn body_wf(b: Body) -> bool {
    &&& b.num_sig_vars == sig_ptrs(b.sig)
    &&& forall|i: int|
        0 <= i < b.stmts@.len() ==> match #[trigger] b.stmts@[i] {
            Stmt::Read(p) => p < b.num_sig_vars,
            Stmt::Write(p) => p < b.num_sig_vars,
            Stmt::Move(p) => p < b.num_sig_vars,
            Stmt::Assign(d, s) => d < b.num_sig_vars && s < b.num_sig_vars,
            Stmt::Call(_, args) => args@.len() <= u32::MAX,
        }
}

fn use_constraint(moved: &Vec<bool>, p: u32, out: &mut Vec<Constraint>)
    requires
        p < moved@.len(),
    ensures
        final(out)@ == old(out)@ + if moved@[p as int] {
            seq![Constraint { lo: sv(p), hi: Perm::Concrete(ConcretePerm::Write) }]
        } else {
            Seq::<Constraint>::empty()
        },
{
    if moved[p as usize] {
        out.push(Constraint { lo: Perm::SigVar(Var(p)), hi: Perm::Concrete(ConcretePerm::Write) });
        assert(final(out)@ =~= old(out)@ + seq![Constraint { lo: sv(p), hi: Perm::Concrete(ConcretePerm::Write) }]);
    } else {
        assert(out@ =~= old(out)@ + Seq::<Constraint>::empty());
    }
}

fn call_inst(callee: usize, args: &Vec<u32>) -> (r: Instantiation)
    requires
        args@.len() <= u32::MAX,
    ensures
        inst_view(r) == (callee, call_constraints(args@)),
{
    let mut cs: Vec<Constraint> = Vec::new();
    let n = args.len();
    for k in 0..n
        invariant
            n == args@.len(),
            n <= u32::MAX,
            cs@ == call_constraints(args@).take(k as int),
    {
        cs.push(Constraint { lo: Perm::InstVar(Var(k as u32)), hi: Perm::SigVar(Var(args[k])) });
        assert(cs@ =~= call_constraints(args@).take(k as int + 1));
    }
    assert(cs@ =~= call_constraints(args@));
    Instantiation { callee, cset: cs }
}

/// Builds a function's summary from its body: the constraints of every statement, in order, and
/// one instantiation per call, in order.
pub fn summarize_body(body: Body) -> (r: FnSummary)
    requires
        body_wf(body),
    ensures
        r.sig == body.sig,
        r.num_sig_vars == body.num_sig_vars,
        r.cset@ == body_constraints(body.stmts@, body.stmts@.len() as int),
        r.insts@.map_values(|i: Instantiation| inst_view(i)) == body_insts(body.stmts@, body.stmts@.len() as int),
{
    let ghost stmts = body.stmts@;
    let mut moved: Vec<bool> = Vec::new();
    for p in 0..body.num_sig_vars
        invariant
            moved@.len() == p,
            forall|q: int| 0 <= q < p ==> !#[trigger] moved@[q],
    {
        moved.push(false);
    }
    let mut cset: Vec<Constraint> = Vec::new();
    let mut insts: Vec<Instantiation> = Vec::new();
    let n = body.stmts.len();
    for i in 0..n
        invariant
            n == stmts.len(),
            stmts == body.stmts@,
            body_wf(body),
            moved@.len() == body.num_sig_vars,
            forall|q: int| 0 <= q < moved@.len() ==> (#[trigger] moved@[q] <==> moved_before(stmts, i as int, q as u32)),
            cset@ == body_constraints(stmts, i as int),
            insts@.map_values(|t: Instantiation| inst_view(t)) == body_insts(stmts, i as int),
    {
        let ghost ii = i as int;
        let ghost old_cset = cset@;
        let ghost old_insts = insts@;
        assert(body_wf(body) ==> match stmts[ii] {
            Stmt::Read(p) => p < body.num_sig_vars,
            Stmt::Write(p) => p < body.num_sig_vars,
            Stmt::Move(p) => p < body.num_sig_vars,
            Stmt::Assign(d, s) => d < body.num_sig_vars && s < body.num_sig_vars,
            Stmt::Call(_, args) => args@.len() <= u32::MAX,
        });
        let mut moved_now: Option<u32> = None;
        match &body.stmts[i] {
            Stmt::Read(p) => {
                cset.push(Constraint { lo: Perm::Concrete(ConcretePerm::Read), hi: Perm::SigVar(Var(*p)) });
                use_constraint(&moved, *p, &mut cset);
            },
            Stmt::Write(p) => {
                cset.push(Constraint { lo: Perm::Concrete(ConcretePerm::Write), hi: Perm::SigVar(Var(*p)) });
                use_constraint(&moved, *p, &mut cset);
            },
            Stmt::Move(p) => {
                cset.push(Constraint { lo: Perm::Concrete(ConcretePerm::Move), hi: Perm::SigVar(Var(*p)) });
                use_constraint(&moved, *p, &mut cset);
                moved_now = Some(*p);
            },
            Stmt::Assign(d, s) => {
                cset.push(Constraint { lo: Perm::SigVar(Var(*d)), hi: Perm::SigVar(Var(*s)) });
                use_constraint(&moved, *s, &mut cset);
            },
            Stmt::Call(callee, args) => {
                insts.push(call_inst(*callee, args));
            },
        }
        proof {
            assert(body_constraints(stmts, ii + 1) == old_cset + stmt_constraints(stmts, ii));
            assert(cset@ =~= old_cset + stmt_constraints(stmts, ii));
            assert(insts@.map_values(|t: Instantiation| inst_view(t)) =~= old_insts.map_values(|t: Instantiation| inst_view(t))
                + match stmts[ii] {
                Stmt::Call(callee, args) => seq![(callee, call_constraints(args@))],
                _ => Seq::empty(),
            });
        }
        if let Some(p) = moved_now {
            moved.set(p as usize, true);
        }
        proof {
            assert forall|q: int| 0 <= q < moved@.len() implies (#[trigger] moved@[q] <==> moved_before(stmts, ii + 1, q as u32)) by {
                if moved_before(stmts, ii, q as u32) {
                    let k = choose|k: int| 0 <= k < ii && #[trigger] stmts[k] == Stmt::Move(q as u32);
                    assert(0 <= k < ii + 1 && stmts[k] == Stmt::Move(q as u32));
                }
                if moved_before(stmts, ii + 1, q as u32) && !moved_before(stmts, ii, q as u32) {
                    let k = choose|k: int| 0 <= k < ii + 1 && #[trigger] stmts[k] == Stmt::Move(q as u32);
                    assert(k == ii);
                }
                if stmts[ii] == Stmt::Move(q as u32) {
                    assert(0 <= ii < ii + 1 && stmts[ii] == Stmt::Move(q as u32));
                }
            }
        }
    }
    FnSummary { sig: body.sig, num_sig_vars: body.num_sig_vars, cset, insts }
}

/// Summarizes every body, in order: the result's `f`-th summary is that of the `f`-th body.
pub fn analyze_intra(bodies: Vec<Body>) -> (r: Vec<FnSummary>)
    requires
        forall|f: int| 0 <= f < bodies@.len() ==> body_wf(#[trigger] bodies@[f]),
    ensures
        r@.len() == bodies@.len(),
        forall|f: int|
            0 <= f < r@.len() ==> {
                &&& (#[trigger] r@[f]).sig == bodies@[f].sig
                &&& r@[f].num_sig_vars == bodies@[f].num_sig_vars
                &&& r@[f].cset@ == body_constraints(bodies@[f].stmts@, bodies@[f].stmts@.len() as int)
                &&& r@[f].insts@.map_values(|i: Instantiation| inst_view(i)) == body_insts(
                    bodies@[f].stmts@,
                    bodies@[f].stmts@.len() as int,
                )
            },
{
    let ghost all = bodies@;
    let mut rest = bodies;
    let mut r: Vec<FnSummary> = Vec::new();
    while rest.len() > 0
        invariant
            r@.len() + rest@.len() == all.len(),
            rest@ == all.subrange(r@.len() as int, all.len() as int),
            forall|f: int| 0 <= f < all.len() ==> body_wf(#[trigger] all[f]),
            forall|f: int|
                0 <= f < r@.len() ==> {
                    &&& (#[trigger] r@[f]).sig == all[f].sig
                    &&& r@[f].num_sig_vars == all[f].num_sig_vars
                    &&& r@[f].cset@ == body_constraints(all[f].stmts@, all[f].stmts@.len() as int)
                    &&& r@[f].insts@.map_values(|i: Instantiation| inst_view(i)) == body_insts(
                        all[f].stmts@,
                        all[f].stmts@.len() as int,
                    )
                },
        decreases rest@.len(),
    {
        let ghost k = r@.len() as int;
        let b = rest.remove(0);
        assert(b == all[k]);
        assert(rest@ =~= all.subrange(k + 1, all.len() as int));
        let s = summarize_body(b);
        r.push(s);
    }
    r
}

/// The constraints of a function whose body is not known: every pointer at most READ.
pub open spec fn opaque_constraints(n: nat) -> Seq<Constraint> {
    Seq::new(n, |k: int| Constraint { lo: sv(k as u32), hi: Perm::Concrete(ConcretePerm::Read) })
}

/// The summary of a function whose body is not known (a foreign function, an unresolved
/// target): no instantiation, and every pointer of its signature at most READ.
pub fn opaque_summary(sig: LFnSig, num_sig_vars: u32) -> (r: FnSummary)
    ensures
        r.sig == sig,
        r.num_sig_vars == num_sig_vars,
        r.cset@ == opaque_constraints(num_sig_vars as nat),
        r.insts@.len() == 0,
{
    let mut cset: Vec<Constraint> = Vec::new();
    for k in 0..num_sig_vars
        invariant
            cset@ == opaque_constraints(num_sig_vars as nat).take(k as int),
    {
        cset.push(Constraint { lo: Perm::SigVar(Var(k)), hi: Perm::Concrete(ConcretePerm::Read) });
        assert(cset@ =~= opaque_constraints(num_sig_vars as nat).take(k as int + 1));
    }
    assert(cset@ =~= opaque_constraints(num_sig_vars as nat));
    FnSummary { sig, num_sig_vars, cset, insts: Vec::new() }
}

/// A function whose body is not known has one monomorphization: READ everywhere.
pub proof fn lemma_opaque_monos(n: nat, a: Seq<ConcretePerm>)
    requires
        n <= u32::MAX,
    ensures
        mono_sigs_of(n, opaque_constraints(n)).contains(a) <==> a == Seq::new(n, |k: int| ConcretePerm::Read),
{
    let cs = opaque_constraints(n);
    let reads = Seq::new(n, |k: int| ConcretePerm::Read);
    lemma_mono_sigs_members(n, cs, a);
    assert(is_minimal(all_sat_assigns(n, cs), reads));
    if a.len() == n && satisfied_by(cs, a, Seq::empty()) {
        assert forall|k: int| 0 <= k < n implies a[k] == reads[k] by {
            assert(crate::constraint::constraint_holds(cs[k], a, Seq::empty()));
            assert(cs[k].lo == sv(k as u32));
            assert((k as u32) as int == k);
            assert(crate::constraint::perm_le(a[k], ConcretePerm::Read));
        }
        assert(a =~= reads);
    }
    if a == reads {
        assert forall|k: int| 0 <= k < cs.len() implies #[trigger] crate::constraint::constraint_holds(cs[k], a, Seq::empty()) by {
            assert(a[k] == ConcretePerm::Read);
        }
    }
}

} // verus!
