use ownership::constraint::{ConcretePerm, Constraint, Perm, Var};
use ownership::inter::{analyze_inter, SolveError};
use ownership::labeled_ty::{label_sig, LFnSig, TyKind};
use ownership::result::{analyze_complete, FunctionResult};
use ownership::summary::{FnSummary, Instantiation};

use ConcretePerm::{Move, Read, Write};

fn sig(k: usize) -> Perm {
    Perm::SigVar(Var::new(k))
}

fn ivar(k: usize) -> Perm {
    Perm::InstVar(Var::new(k))
}

fn c(p: ConcretePerm) -> Perm {
    Perm::Concrete(p)
}

fn le(lo: Perm, hi: Perm) -> Constraint {
    Constraint { lo, hi }
}

/// Analyzes a table in which every function is a root.
fn every_root(table: &Vec<FnSummary>) -> Vec<FunctionResult> {
    analyze_complete(table, &vec![true; table.len()])
}

/// A signature with `n` pointer arguments and no pointer in the result.
fn ptr_sig(n: usize) -> LFnSig {
    label_sig(&vec![vec![TyKind::Ptr]; n], &vec![TyKind::Prim]).0
}

/// `f(p)` only reads `p` and passes it to `g`; `g(q)` writes `q` and passes it to `f`.
fn mutual_recursion() -> Vec<FnSummary> {
    let f = FnSummary {
        sig: ptr_sig(1),
        num_sig_vars: 1,
        cset: vec![le(c(Read), sig(0))],
        insts: vec![Instantiation { callee: 1, cset: vec![le(ivar(0), sig(0))] }],
    };
    let g = FnSummary {
        sig: ptr_sig(1),
        num_sig_vars: 1,
        cset: vec![le(c(Write), sig(0))],
        insts: vec![Instantiation { callee: 0, cset: vec![le(ivar(0), sig(0))] }],
    };
    vec![f, g]
}

fn csets(summs: &[FnSummary]) -> Vec<Vec<Constraint>> {
    summs.iter().map(|s| s.cset.clone()).collect()
}

#[test]
fn mutual_recursion_converges() {
    let mut summs = mutual_recursion();
    assert_eq!(analyze_inter(&mut summs, 4), Ok(()));
    // the write in `g` reaches `f` through the call
    assert!(summs[0].cset.contains(&le(c(Write), sig(0))));
    assert_eq!(summs[0].cset[0], le(c(Read), sig(0)));
    assert!(summs[1].cset.contains(&le(c(Write), sig(0))));
    assert!(summs[1].cset.contains(&le(c(Read), sig(0))));
    let results = every_root(&summs);
    let f_assigns: Vec<Vec<ConcretePerm>> = results[0].monos.iter().map(|m| m.assign.clone()).collect();
    assert_eq!(f_assigns, vec![vec![Write]]);
    let g_assigns: Vec<Vec<ConcretePerm>> = results[1].monos.iter().map(|m| m.assign.clone()).collect();
    assert_eq!(g_assigns, vec![vec![Write]]);
}

#[test]
fn rerunning_on_complete_summaries_changes_nothing() {
    let mut summs = mutual_recursion();
    assert_eq!(analyze_inter(&mut summs, 4), Ok(()));
    let first = csets(&summs);
    assert_eq!(analyze_inter(&mut summs, 1), Ok(()));
    assert_eq!(csets(&summs), first);
}

#[test]
fn pass_bound_reached() {
    let mut summs = mutual_recursion();
    let before = csets(&summs);
    assert_eq!(analyze_inter(&mut summs, 1), Err(SolveError::DidNotConverge));
    assert_eq!(csets(&summs), before);
}

#[test]
fn transitivity_through_signature_variable() {
    let mut summs = vec![FnSummary {
        sig: ptr_sig(2),
        num_sig_vars: 2,
        cset: vec![le(sig(0), sig(1)), le(sig(1), c(Write))],
        insts: vec![],
    }];
    assert_eq!(analyze_inter(&mut summs, 3), Ok(()));
    assert_eq!(
        summs[0].cset,
        vec![le(sig(0), sig(1)), le(sig(1), c(Write)), le(sig(0), c(Write))]
    );
}

#[test]
fn callee_bound_through_two_instantiation_variables() {
    // callee: its first variable is at most its second, which is at most READ
    let callee = FnSummary {
        sig: ptr_sig(2),
        num_sig_vars: 2,
        cset: vec![le(sig(0), sig(1)), le(sig(1), c(Read)), le(sig(0), c(Read))],
        insts: vec![],
    };
    // caller passes its own variable as the callee's first, which must guarantee it
    let caller = FnSummary {
        sig: ptr_sig(1),
        num_sig_vars: 1,
        cset: vec![],
        insts: vec![Instantiation { callee: 0, cset: vec![le(sig(0), ivar(0))] }],
    };
    let mut summs = vec![callee, caller];
    assert_eq!(analyze_inter(&mut summs, 3), Ok(()));
    assert!(summs[1].cset.contains(&le(sig(0), c(Read))));
    let results = every_root(&summs);
    assert_eq!(results[1].monos.len(), 1);
    assert_eq!(results[1].monos[0].assign, vec![Read]);
}

#[test]
fn consuming_callee_makes_borrowing_caller_unsatisfiable() {
    // callee consumes its argument
    let callee = FnSummary { sig: ptr_sig(1), num_sig_vars: 1, cset: vec![le(c(Move), sig(0))], insts: vec![] };
    // caller passes its parameter on and uses it afterwards: at most WRITE
    let caller = FnSummary {
        sig: ptr_sig(1),
        num_sig_vars: 1,
        cset: vec![le(sig(0), c(Write))],
        insts: vec![Instantiation { callee: 0, cset: vec![le(ivar(0), sig(0))] }],
    };
    let mut summs = vec![callee, caller];
    assert_eq!(analyze_inter(&mut summs, 4), Ok(()));
    assert!(summs[1].cset.contains(&le(c(Move), sig(0))));
    let results = every_root(&summs);
    assert_eq!(results.len(), 2);
    assert_eq!(results[1].monos.len(), 0);
}

#[test]
fn whole_analysis_of_mutual_recursion() {
    let mut summs = mutual_recursion();
    let results = ownership::result::analyze(&mut summs, &vec![true; 2], 8).unwrap();
    assert_eq!(results.len(), 2);
    for r in &results {
        let assigns: Vec<Vec<ConcretePerm>> = r.monos.iter().map(|m| m.assign.clone()).collect();
        assert_eq!(assigns, vec![vec![Write]]);
        assert_eq!(r.inst_callees.len(), 1);
    }
    assert_eq!(results[0].monos[0].callee_mono_idxs, vec![0]);
    assert_eq!(results[1].monos[0].callee_mono_idxs, vec![0]);
}

#[test]
fn whole_analysis_keeps_unsatisfiable_entry() {
    let callee = FnSummary { sig: ptr_sig(1), num_sig_vars: 1, cset: vec![le(c(Move), sig(0))], insts: vec![] };
    let caller = FnSummary {
        sig: ptr_sig(1),
        num_sig_vars: 1,
        cset: vec![le(sig(0), c(Write))],
        insts: vec![Instantiation { callee: 0, cset: vec![le(ivar(0), sig(0))] }],
    };
    let mut summs = vec![callee, caller];
    let results = ownership::result::analyze(&mut summs, &vec![true; 2], 8).unwrap();
    assert_eq!(results.len(), 2);
    assert_eq!(results[0].monos.len(), 1);
    assert_eq!(results[1].monos.len(), 0);
}

#[test]
fn whole_analysis_reports_no_convergence() {
    let mut summs = mutual_recursion();
    let before = csets(&summs);
    assert!(matches!(ownership::result::analyze(&mut summs, &vec![true; 2], 1), Err(SolveError::DidNotConverge)));
    assert_eq!(csets(&summs), before);
}
