use ownership::constraint::{ConcretePerm, Constraint, Perm, Var};
use ownership::intra::{analyze_intra, opaque_summary, summarize_body, Body, Stmt};
use ownership::labeled_ty::{label_sig, TyKind};
use ownership::result::{analyze, analyze_complete};

use ConcretePerm::{Move, Read, Write};

fn body(num_ptrs: u32, stmts: Vec<Stmt>) -> Body {
    let (sig, n) = label_sig(&vec![vec![TyKind::Ptr]; num_ptrs as usize], &vec![TyKind::Prim]);
    assert_eq!(n, num_ptrs);
    Body { sig, num_sig_vars: n, stmts }
}

fn at_least(c: ConcretePerm, k: u32) -> Constraint {
    Constraint { lo: Perm::Concrete(c), hi: Perm::SigVar(Var(k)) }
}

fn assigns(bodies: Vec<Body>) -> Vec<Vec<Vec<ConcretePerm>>> {
    let n = bodies.len();
    let mut summs = analyze_intra(bodies);
    let results = analyze(&mut summs, &vec![true; n], 16).unwrap();
    results.iter().map(|r| r.monos.iter().map(|m| m.assign.clone()).collect()).collect()
}

#[test]
fn statement_constraints_in_order() {
    let s = summarize_body(body(2, vec![Stmt::Read(0), Stmt::Assign(0, 1), Stmt::Write(1)]));
    assert_eq!(
        s.cset,
        vec![
            at_least(Read, 0),
            Constraint { lo: Perm::SigVar(Var(0)), hi: Perm::SigVar(Var(1)) },
            at_least(Write, 1),
        ]
    );
    assert!(s.insts.is_empty());
    assert_eq!(s.num_sig_vars, 2);
}

#[test]
fn call_becomes_instantiation() {
    let s = summarize_body(body(2, vec![Stmt::Call(3, vec![1, 0])]));
    assert!(s.cset.is_empty());
    assert_eq!(s.insts.len(), 1);
    assert_eq!(s.insts[0].callee, 3);
    assert_eq!(
        s.insts[0].cset,
        vec![
            Constraint { lo: Perm::InstVar(Var(0)), hi: Perm::SigVar(Var(1)) },
            Constraint { lo: Perm::InstVar(Var(1)), hi: Perm::SigVar(Var(0)) },
        ]
    );
}

#[test]
fn use_after_move_is_bounded() {
    let s = summarize_body(body(1, vec![Stmt::Move(0), Stmt::Read(0)]));
    assert_eq!(
        s.cset,
        vec![
            at_least(Move, 0),
            at_least(Read, 0),
            Constraint { lo: Perm::SigVar(Var(0)), hi: Perm::Concrete(Write) },
        ]
    );
}

#[test]
fn consumed_then_used_parameter_has_no_mono() {
    let a = assigns(vec![body(1, vec![Stmt::Move(0), Stmt::Read(0)])]);
    assert_eq!(a.len(), 1);
    assert!(a[0].is_empty());
}

#[test]
fn read_only_parameter_keeps_every_variant() {
    let a = assigns(vec![body(1, vec![Stmt::Read(0)])]);
    assert_eq!(a[0], vec![vec![Read], vec![Write]]);
}

#[test]
fn write_reaches_caller_through_call() {
    let callee = body(1, vec![Stmt::Write(0)]);
    let caller = body(1, vec![Stmt::Read(0), Stmt::Call(0, vec![0])]);
    let a = assigns(vec![callee, caller]);
    assert_eq!(a[0], vec![vec![Write]]);
    assert_eq!(a[1], vec![vec![Write]]);
}

#[test]
fn bodies_keep_their_order() {
    let summs = analyze_intra(vec![body(0, vec![]), body(2, vec![Stmt::Move(1)])]);
    assert_eq!(summs.len(), 2);
    assert_eq!(summs[0].num_sig_vars, 0);
    assert_eq!(summs[1].cset, vec![at_least(Move, 1)]);
}

#[test]
fn unknown_callee_is_read_only() {
    let (sig, n) = label_sig(&vec![vec![TyKind::Ptr], vec![TyKind::Ptr]], &vec![TyKind::Prim]);
    let opaque = opaque_summary(sig, n);
    assert!(opaque.insts.is_empty());
    assert_eq!(opaque.cset.len(), 2);
    let caller = summarize_body(body(1, vec![Stmt::Call(0, vec![0, 0])]));
    let table = vec![opaque, caller];
    let results = analyze_complete(&table, &vec![true, true]);
    assert_eq!(results[0].monos.len(), 1);
    assert_eq!(results[0].monos[0].assign, vec![Read, Read]);
    assert_eq!(results[1].monos.len(), 2);
    assert!(results[1].monos.iter().all(|m| m.callee_mono_idxs == vec![0]));
}
