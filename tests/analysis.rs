use ownership::constraint::{satisfies, ConcretePerm, Constraint, Perm, Var};
use ownership::labeled_ty::{label_sig, relabel, zip_constraints, LabeledTy, TyKind};
use ownership::node::{is_fn, AssocItemKind, DefNode, ForeignItemKind, ItemKind};
use ownership::mono::get_mono_sigs;
use ownership::result::{analyze_complete, FunctionResult};
use ownership::summary::{FnSummary, Instantiation};

use ConcretePerm::{Move, Read, Write};

fn sig(k: usize) -> Perm {
    Perm::SigVar(Var::new(k))
}

fn ivar(k: usize) -> Perm {
    Perm::InstVar(Var::new(k))
}

fn c(p: ConcretePerm) -> Perm {
    Perm::Concrete(p)
}

fn le(lo: Perm, hi: Perm) -> Constraint {
    Constraint { lo, hi }
}

/// Analyzes a table in which every function is a root.
fn every_root(table: &Vec<FnSummary>) -> Vec<FunctionResult> {
    analyze_complete(table, &vec![true; table.len()])
}

fn summary(num_sig_vars: u32, cset: Vec<Constraint>, insts: Vec<Instantiation>) -> FnSummary {
    let sig = label_sig(&vec![vec![TyKind::Ptr]; num_sig_vars as usize], &vec![TyKind::Prim]).0;
    FnSummary { sig, num_sig_vars, cset, insts }
}

#[test]
fn var_index_round_trip() {
    assert_eq!(Var::new(7).index(), 7);
    assert_eq!(Var::new(0).0, 0);
}

#[test]
fn concrete_order() {
    assert!(Read.le(Write));
    assert!(Write.le(Move));
    assert!(Read.le(Move));
    assert!(Write.le(Write));
    assert!(!Move.le(Write));
    assert!(!Write.le(Read));
}

#[test]
fn satisfaction_is_decided() {
    let cs = vec![le(c(Write), sig(0)), le(sig(0), sig(1))];
    assert!(satisfies(&cs, &vec![Write, Move], &vec![]));
    assert!(!satisfies(&cs, &vec![Read, Move], &vec![]));
    assert!(!satisfies(&cs, &vec![Move, Write], &vec![]));
    // a variable outside the assignment is never satisfied
    assert!(!satisfies(&cs, &vec![Write], &vec![]));
    let inst_cs = vec![le(sig(0), ivar(0))];
    assert!(satisfies(&inst_cs, &vec![Write], &vec![Move]));
    assert!(!satisfies(&inst_cs, &vec![Write], &vec![Read]));
}

#[test]
fn raising_lower_bounded_assignment_keeps_satisfaction() {
    let cs = vec![le(c(Write), sig(0)), le(c(Read), sig(1))];
    let low = vec![Write, Read];
    assert!(satisfies(&cs, &low, &vec![]));
    for a in [Write, Move] {
        for b in [Read, Write, Move] {
            assert!(satisfies(&cs, &vec![a, b], &vec![]));
        }
    }
}

#[test]
fn upper_bound_breaks_monotonicity() {
    let cs = vec![le(sig(0), c(Read))];
    assert!(satisfies(&cs, &vec![Read], &vec![]));
    assert!(!satisfies(&cs, &vec![Write], &vec![]));
}

#[test]
fn unconstrained_parameter_is_not_consumed() {
    let s = summary(1, vec![], vec![]);
    let monos = get_mono_sigs(&s);
    assert_eq!(monos, vec![vec![Read], vec![Write]]);
}

#[test]
fn read_or_write_parameter_splits() {
    // used read-only on one path, written on the other: at most WRITE
    let s = summary(1, vec![le(sig(0), c(Write))], vec![]);
    let monos = get_mono_sigs(&s);
    assert!(monos.len() >= 2);
    assert_eq!(monos, vec![vec![Read], vec![Write]]);
}

#[test]
fn forced_write_parameter_has_one_mono() {
    let s = summary(1, vec![le(c(Write), sig(0)), le(sig(0), c(Write))], vec![]);
    let monos = get_mono_sigs(&s);
    assert_eq!(monos, vec![vec![Write]]);
}

#[test]
fn written_parameter_has_one_mono() {
    // written on every path: at least WRITE, nothing more
    let s = summary(1, vec![le(c(Write), sig(0))], vec![]);
    assert_eq!(get_mono_sigs(&s), vec![vec![Write]]);
}

#[test]
fn consumed_parameter_keeps_move() {
    let s = summary(2, vec![le(c(Move), sig(0))], vec![]);
    assert_eq!(get_mono_sigs(&s), vec![vec![Move, Read], vec![Move, Write]]);
}

#[test]
fn two_variables_in_lexicographic_order() {
    let s = summary(2, vec![le(sig(0), sig(1)), le(sig(1), c(Write))], vec![]);
    let monos = get_mono_sigs(&s);
    assert_eq!(monos, vec![vec![Read, Read], vec![Read, Write], vec![Write, Write]]);
}

#[test]
fn consumed_and_reused_parameter_is_unsatisfiable() {
    // consumed: at least MOVE; still used afterwards: at most WRITE
    let s = summary(1, vec![le(c(Move), sig(0)), le(sig(0), c(Write))], vec![]);
    let results = every_root(&vec![s]);
    assert_eq!(results.len(), 1);
    assert_eq!(results[0].monos.len(), 0);
    assert_eq!(results[0].num_sig_vars, 1);
}

#[test]
fn monos_satisfy_their_constraints() {
    let cs = vec![le(c(Write), sig(0)), le(sig(0), sig(1))];
    let results = every_root(&vec![summary(2, cs.clone(), vec![])]);
    assert_eq!(results[0].monos.len(), 1);
    assert_eq!(results[0].monos[0].assign, vec![Write, Write]);
    for m in &results[0].monos {
        assert!(satisfies(&cs, &m.assign, &vec![]));
        assert!(m.callee_mono_idxs.is_empty());
    }
}

/// Function 0 (`k`): one variable, at most WRITE.
/// Function 1 (`g`): calls `k`, needs `k`'s variable at least WRITE and at most its own.
/// Function 2 (`h`): calls `g` with `g`'s variable at least WRITE.
/// Function 3 (`f`): calls `k` needing MOVE, which `k` never allows.
fn call_table() -> Vec<FnSummary> {
    let k = summary(1, vec![le(sig(0), c(Write))], vec![]);
    let g = summary(
        1,
        vec![],
        vec![Instantiation { callee: 0, cset: vec![le(c(Write), ivar(0)), le(ivar(0), sig(0))] }],
    );
    let h = summary(0, vec![], vec![Instantiation { callee: 1, cset: vec![le(c(Write), ivar(0))] }]);
    let f = summary(1, vec![], vec![Instantiation { callee: 0, cset: vec![le(c(Move), ivar(0))] }]);
    vec![k, g, h, f]
}

#[test]
fn filter_reindexes_call_sites() {
    let results = every_root(&call_table());
    assert_eq!(results.len(), 4);
    // k: READ and WRITE
    let k_assigns: Vec<Vec<ConcretePerm>> = results[0].monos.iter().map(|m| m.assign.clone()).collect();
    assert_eq!(k_assigns, vec![vec![Read], vec![Write]]);
    // g: READ is removed (no k mono fits), WRITE stays, using k's WRITE mono
    let g_assigns: Vec<Vec<ConcretePerm>> = results[1].monos.iter().map(|m| m.assign.clone()).collect();
    assert_eq!(g_assigns, vec![vec![Write]]);
    assert_eq!(results[1].monos[0].callee_mono_idxs, vec![1]);
    // h selects g's WRITE mono: index 1 before filtering, 0 after
    assert_eq!(results[2].monos.len(), 1);
    assert_eq!(results[2].monos[0].callee_mono_idxs, vec![0]);
    assert_eq!(results[2].inst_callees, vec![1]);
    assert_eq!(results[2].callee_ids, vec![1]);
    // f never finds a k mono: no monomorphization, but an entry
    assert_eq!(results[3].monos.len(), 0);
}

#[test]
fn surviving_call_sites_point_into_filtered_lists() {
    let table = call_table();
    let results = every_root(&table);
    for (f, fr) in results.iter().enumerate() {
        for m in &fr.monos {
            assert_eq!(m.callee_mono_idxs.len(), table[f].insts.len());
            for (j, &idx) in m.callee_mono_idxs.iter().enumerate() {
                let inst = &table[f].insts[j];
                let callee = &results[inst.callee];
                assert!(idx < callee.monos.len());
                assert!(satisfies(&inst.cset, &m.assign, &callee.monos[idx].assign));
            }
        }
    }
}

#[test]
fn removal_spreads_to_callers() {
    // 0 is unsatisfiable; 1 calls it; 2 calls 1
    let u = summary(1, vec![le(c(Move), sig(0)), le(sig(0), c(Read))], vec![]);
    let a = summary(0, vec![], vec![Instantiation { callee: 0, cset: vec![] }]);
    let b = summary(0, vec![], vec![Instantiation { callee: 1, cset: vec![] }]);
    let results = every_root(&vec![u, a, b]);
    assert_eq!(results.len(), 3);
    assert!(results.iter().all(|r| r.monos.is_empty()));
}

#[test]
fn callee_ids_are_distinct() {
    let k = summary(0, vec![], vec![]);
    let caller = summary(
        0,
        vec![],
        vec![
            Instantiation { callee: 0, cset: vec![] },
            Instantiation { callee: 0, cset: vec![] },
        ],
    );
    let results = every_root(&vec![k, caller]);
    assert_eq!(results[1].inst_callees, vec![0, 0]);
    assert_eq!(results[1].callee_ids, vec![0]);
    assert_eq!(results[1].monos.len(), 1);
    assert_eq!(results[1].monos[0].callee_mono_idxs, vec![0, 0]);
}

#[test]
fn signature_labels_pointers_in_order() {
    // (*const *mut T, u8) -> *mut T
    let inputs = vec![vec![TyKind::Ptr, TyKind::Ptr, TyKind::Prim], vec![TyKind::Prim]];
    let output = vec![TyKind::Ptr, TyKind::Prim];
    let (sig, n) = label_sig(&inputs, &output);
    assert_eq!(n, 3);
    assert_eq!(sig.inputs[0].labels, vec![Some(sig_var(0)), Some(sig_var(1)), None]);
    assert_eq!(sig.inputs[1].labels, vec![None]);
    assert_eq!(sig.output.labels, vec![Some(sig_var(2)), None]);
    assert_eq!(sig.output.kinds, output);
}

fn sig_var(k: usize) -> Perm {
    Perm::SigVar(Var::new(k))
}

#[test]
fn relabel_substitutes_assignment() {
    let (sig, _) = label_sig(&vec![vec![TyKind::Ptr, TyKind::Ptr, TyKind::Prim]], &vec![TyKind::Prim]);
    let r = relabel(&sig.inputs[0], &vec![Move, Read]);
    assert_eq!(r, vec![Some(Move), Some(Read), None]);
    let fixed = LabeledTy { kinds: vec![TyKind::Ptr], labels: vec![Some(c(Write))] };
    assert_eq!(relabel(&fixed, &vec![Move]), vec![None]);
}

#[test]
fn zip_relates_matching_skeletons() {
    let a = LabeledTy { kinds: vec![TyKind::Ptr, TyKind::Prim], labels: vec![Some(sig_var(0)), None] };
    let b = LabeledTy { kinds: vec![TyKind::Ptr, TyKind::Prim], labels: vec![Some(c(Write)), None] };
    assert_eq!(zip_constraints(&a, &b), Some(vec![le(sig_var(0), c(Write))]));
    let other = LabeledTy { kinds: vec![TyKind::Prim, TyKind::Prim], labels: vec![None, None] };
    assert_eq!(zip_constraints(&a, &other), None);
}

#[test]
fn result_carries_signature() {
    let results = every_root(&vec![summary(2, vec![], vec![])]);
    assert_eq!(results[0].sig.inputs.len(), 2);
    assert_eq!(results[0].sig.inputs[1].labels, vec![Some(sig_var(1))]);
    assert_eq!(results[0].monos.len(), 4);
}

#[test]
fn only_functions_are_analyzed() {
    assert!(is_fn(Some(DefNode::Item(ItemKind::Fn))));
    assert!(is_fn(Some(DefNode::ForeignItem(ForeignItemKind::Fn))));
    assert!(is_fn(Some(DefNode::TraitItem(AssocItemKind::Method))));
    assert!(is_fn(Some(DefNode::ImplItem(AssocItemKind::Method))));
    assert!(!is_fn(Some(DefNode::Item(ItemKind::Static))));
    assert!(!is_fn(Some(DefNode::ForeignItem(ForeignItemKind::Static))));
    assert!(!is_fn(Some(DefNode::ImplItem(AssocItemKind::Const))));
    assert!(!is_fn(Some(DefNode::Other)));
    assert!(!is_fn(None));
}

fn caller_of_writer() -> Vec<FnSummary> {
    // 0: no constraint on its pointer; 1: calls 0 needing WRITE
    let k = summary(1, vec![], vec![]);
    let main = summary(0, vec![], vec![Instantiation { callee: 0, cset: vec![le(c(Write), ivar(0))] }]);
    vec![k, main]
}

#[test]
fn unreachable_monos_are_dropped() {
    let table = caller_of_writer();
    let results = analyze_complete(&table, &vec![false, true]);
    let k_assigns: Vec<Vec<ConcretePerm>> = results[0].monos.iter().map(|m| m.assign.clone()).collect();
    assert_eq!(k_assigns, vec![vec![Write]]);
    assert_eq!(results[1].monos.len(), 1);
    assert_eq!(results[1].monos[0].callee_mono_idxs, vec![0]);
}

#[test]
fn root_keeps_every_usable_mono() {
    let table = caller_of_writer();
    let results = analyze_complete(&table, &vec![true, true]);
    assert_eq!(results[0].monos.len(), 2);
    assert_eq!(results[1].monos[0].callee_mono_idxs, vec![1]);
}

#[test]
fn no_root_keeps_nothing() {
    let table = caller_of_writer();
    let results = analyze_complete(&table, &vec![false, false]);
    assert_eq!(results.len(), 2);
    assert!(results.iter().all(|r| r.monos.is_empty()));
}
