//! Monomorphizations: the assignments of concrete permissions to a function's signature
//! variables that satisfy its constraint set.
use vstd::prelude::*;
use crate::constraint::{Constraint, ConcretePerm, satisfied_by, satisfies};
use crate::summary::{FnSummary, assigns_view, copy_assign};

verus! {

/// The satisfying completions of `p` to length `n`, in lexicographic order (`Read < Write <
/// Move`, the first variable most significant).
pub open spec fn sat_completions(p: Seq<ConcretePerm>, n: nat, cs: Seq<Constraint>) -> Seq<
    Seq<ConcretePerm>,
>
    decreases n - p.len(),
{
    if p.len() >= n {
        if satisfied_by(cs, p, Seq::empty()) {
            seq![p]
        } else {
            Seq::empty()
        }
    } else {
        sat_completions(p.push(ConcretePerm::Read), n, cs) + sat_completions(
            p.push(ConcretePerm::Write),
            n,
            cs,
        ) + sat_completions(p.push(ConcretePerm::Move), n, cs)
    }
}

/// Every assignment to `n` signature variables that satisfies `cs`, in lexicographic order.
pub open spec fn all_sat_assigns(n: nat, cs: Seq<Constraint>) -> Seq<Seq<ConcretePerm>> {
    sat_completions(Seq::empty(), n, cs)
}

proof fn lemma_sat_completions_members(p: Seq<ConcretePerm>, n: nat, cs: Seq<Constraint>, a: Seq<ConcretePerm>)
    requires
        p.len() <= n,
    ensures
        sat_completions(p, n, cs).contains(a) <==> (a.len() == n && a.subrange(0, p.len() as int)
            == p && satisfied_by(cs, a, Seq::empty())),
    decreases n - p.len(),
{
    if p.len() >= n {
        let s = sat_completions(p, n, cs);
        if satisfied_by(cs, p, Seq::empty()) {
            assert(s == seq![p]);
            assert(s[0] == p);
        } else {
            assert(s.len() == 0);
        }
        if a.len() == n && a.subrange(0, p.len() as int) == p {
            assert(a =~= p);
        }
        if s.contains(a) {
            assert(a == s[0]);
            assert(a.subrange(0, p.len() as int) =~= p);
        }
    } else {
        let pr = p.push(ConcretePerm::Read);
        let pw = p.push(ConcretePerm::Write);
        let pm = p.push(ConcretePerm::Move);
        lemma_sat_completions_members(pr, n, cs, a);
        lemma_sat_completions_members(pw, n, cs, a);
        lemma_sat_completions_members(pm, n, cs, a);
        let sr = sat_completions(pr, n, cs);
        let sw = sat_completions(pw, n, cs);
        let sm = sat_completions(pm, n, cs);
        assert(sat_completions(p, n, cs) == sr + sw + sm);
        if sat_completions(p, n, cs).contains(a) {
            let k = choose|k: int| 0 <= k < (sr + sw + sm).len() && (sr + sw + sm)[k] == a;
            if k < sr.len() {
                assert(sr.contains(a));
            } else if k < sr.len() + sw.len() {
                assert(sw[k - sr.len()] == a);
                assert(sw.contains(a));
            } else {
                assert(sm[k - sr.len() - sw.len()] == a);
                assert(sm.contains(a));
            }
            let q = a.subrange(0, p.len() as int + 1);
            assert(a.subrange(0, p.len() as int) =~= q.subrange(0, p.len() as int));
            assert(pr.subrange(0, p.len() as int) =~= p);
            assert(pw.subrange(0, p.len() as int) =~= p);
            assert(pm.subrange(0, p.len() as int) =~= p);
        }
        if a.len() == n && a.subrange(0, p.len() as int) == p && satisfied_by(cs, a, Seq::empty()) {
            let q = a.subrange(0, p.len() as int + 1);
            let c = a[p.len() as int];
            assert(q =~= p.push(c));
            if c == ConcretePerm::Read {
                assert(sr.contains(a));
                let k = choose|k: int| 0 <= k < sr.len() && sr[k] == a;
                assert((sr + sw + sm)[k] == a);
            } else if c == ConcretePerm::Write {
                assert(sw.contains(a));
                let k = choose|k: int| 0 <= k < sw.len() && sw[k] == a;
                assert((sr + sw + sm)[sr.len() + k] == a);
            } else {
                assert(sm.contains(a));
                let k = choose|k: int| 0 <= k < sm.len() && sm[k] == a;
                assert((sr + sw + sm)[sr.len() + sw.len() + k] == a);
            }
        }
    }
}

proof fn lemma_sat_completions_distinct(p: Seq<ConcretePerm>, n: nat, cs: Seq<Constraint>)
    requires
        p.len() <= n,
    ensures
        sat_completions(p, n, cs).no_duplicates(),
    decreases n - p.len(),
{
    if p.len() < n {
        let pr = p.push(ConcretePerm::Read);
        let pw = p.push(ConcretePerm::Write);
        let pm = p.push(ConcretePerm::Move);
        lemma_sat_completions_distinct(pr, n, cs);
        lemma_sat_completions_distinct(pw, n, cs);
        lemma_sat_completions_distinct(pm, n, cs);
        let sr = sat_completions(pr, n, cs);
        let sw = sat_completions(pw, n, cs);
        let sm = sat_completions(pm, n, cs);
        let all = sr + sw + sm;
        let i0 = p.len() as int;
        assert forall|x: Seq<ConcretePerm>| sr.contains(x) ==> x.len() > i0 && x[i0] == ConcretePerm::Read by {
            lemma_sat_completions_members(pr, n, cs, x);
            if sr.contains(x) { assert(x.subrange(0, i0 + 1)[i0] == x[i0]); }
        }
        assert forall|x: Seq<ConcretePerm>| sw.contains(x) ==> x.len() > i0 && x[i0] == ConcretePerm::Write by {
            lemma_sat_completions_members(pw, n, cs, x);
            if sw.contains(x) { assert(x.subrange(0, i0 + 1)[i0] == x[i0]); }
        }
        assert forall|x: Seq<ConcretePerm>| sm.contains(x) ==> x.len() > i0 && x[i0] == ConcretePerm::Move by {
            lemma_sat_completions_members(pm, n, cs, x);
            if sm.contains(x) { assert(x.subrange(0, i0 + 1)[i0] == x[i0]); }
        }
        assert forall|i: int, j: int| 0 <= i < all.len() && 0 <= j < all.len() && i != j implies all[i] != all[j] by {
            let a = sr.len() as int;
            let b = a + sw.len();
            if i < a { assert(sr.contains(all[i])); } else if i < b { assert(sw.contains(sw[i - a])); assert(all[i] == sw[i - a]); } else { assert(sm.contains(sm[i - b])); assert(all[i] == sm[i - b]); }
            if j < a { assert(sr.contains(all[j])); } else if j < b { assert(sw.contains(sw[j - a])); assert(all[j] == sw[j - a]); } else { assert(sm.contains(sm[j - b])); assert(all[j] == sm[j - b]); }
            if i < a && j < a { assert(all[i] == sr[i] && all[j] == sr[j]); }
            if a <= i < b && a <= j < b { assert(sw[i - a] != sw[j - a]); }
            if b <= i && b <= j { assert(sm[i - b] != sm[j - b]); }
        }
        assert(sat_completions(p, n, cs) == all);
    }
}

/// The satisfying assignments are listed once each.
proof fn lemma_all_sat_distinct(n: nat, cs: Seq<Constraint>)
    ensures
        all_sat_assigns(n, cs).no_duplicates(),
{
    lemma_sat_completions_distinct(Seq::empty(), n, cs);
}

/// The satisfying assignments are exactly the assignments of length `n` that satisfy `cs`.
pub proof fn lemma_all_sat_members(n: nat, cs: Seq<Constraint>, a: Seq<ConcretePerm>)
    ensures
        all_sat_assigns(n, cs).contains(a) <==> (a.len() == n && satisfied_by(cs, a, Seq::empty())),
{
    lemma_sat_completions_members(Seq::empty(), n, cs, a);
    if a.len() == n {
        assert(a.subrange(0, 0) =~= Seq::<ConcretePerm>::empty());
    }
}

fn extend_monos(
    p: &mut Vec<ConcretePerm>,
    n: usize,
    cs: &Vec<Constraint>,
    out: &mut Vec<Vec<ConcretePerm>>,
)
    requires
        old(p)@.len() <= n,
    ensures
        final(p)@ == old(p)@,
        assigns_view(final(out)@) == assigns_view(old(out)@) + sat_completions(old(p)@, n as nat, cs@),
    decreases n - old(p)@.len(),
{
    let ghost p0 = p@;
    let ghost out0 = assigns_view(out@);
    if p.len() >= n {
        let empty: Vec<ConcretePerm> = Vec::new();
        if satisfies(cs, p, &empty) {
            assert(empty@ =~= Seq::<ConcretePerm>::empty());
            let c = copy_assign(p);
            out.push(c);
            assert(assigns_view(out@) =~= out0 + seq![p0]);
        } else {
            assert(empty@ =~= Seq::<ConcretePerm>::empty());
            assert(assigns_view(out@) =~= out0 + Seq::empty());
        }
    } else {
        let ghost sr = sat_completions(p0.push(ConcretePerm::Read), n as nat, cs@);
        let ghost sw = sat_completions(p0.push(ConcretePerm::Write), n as nat, cs@);
        let ghost sm = sat_completions(p0.push(ConcretePerm::Move), n as nat, cs@);
        p.push(ConcretePerm::Read);
        extend_monos(p, n, cs, out);
        p.pop();
        assert(p@ =~= p0);
        let ghost out1 = assigns_view(out@);
        assert(out1 == out0 + sr);
        p.push(ConcretePerm::Write);
        extend_monos(p, n, cs, out);
        p.pop();
        assert(p@ =~= p0);
        let ghost out2 = assigns_view(out@);
        assert(out2 == out1 + sw);
        p.push(ConcretePerm::Move);
        extend_monos(p, n, cs, out);
        p.pop();
        assert(p@ =~= p0);
        assert(assigns_view(out@) == out2 + sm);
        assert(sat_completions(p0, n as nat, cs@) == sr + sw + sm);
        assert(assigns_view(out@) =~= out0 + (sr + sw + sm));
    }
}

fn all_sat_assigns_exec(summ: &FnSummary) -> (r: Vec<Vec<ConcretePerm>>)
    ensures
        assigns_view(r@) == all_sat_assigns(summ.num_sig_vars as nat, summ.cset@),
{
    let mut p: Vec<ConcretePerm> = Vec::new();
    let mut out: Vec<Vec<ConcretePerm>> = Vec::new();
    assert(assigns_view(out@) =~= Seq::empty());
    extend_monos(&mut p, summ.num_sig_vars as usize, &summ.cset, &mut out);
    assert(p@ =~= Seq::<ConcretePerm>::empty());
    assert(assigns_view(out@) =~= all_sat_assigns(summ.num_sig_vars as nat, summ.cset@));
    out
}

/// Every satisfying assignment gives variable `k` MOVE.
pub open spec fn move_forced(all: Seq<Seq<ConcretePerm>>, k: int) -> bool {
    forall|j: int| 0 <= j < all.len() ==> (#[trigger] all[j])[k] == ConcretePerm::Move
}

/// `a` consumes a pointer only where every satisfying assignment must.
pub open spec fn is_minimal(all: Seq<Seq<ConcretePerm>>, a: Seq<ConcretePerm>) -> bool {
    forall|k: int| 0 <= k < a.len() && a[k] == ConcretePerm::Move ==> #[trigger] move_forced(all, k)
}

/// The minimal ones among the first `i` of `all`, in order.
pub open spec fn keep_minimal(all: Seq<Seq<ConcretePerm>>, i: int) -> Seq<Seq<ConcretePerm>>
    decreases i,
{
    if i <= 0 {
        Seq::empty()
    } else {
        keep_minimal(all, i - 1) + if is_minimal(all, all[i - 1]) { seq![all[i - 1]] } else { Seq::empty() }
    }
}

/// The monomorphizations of a function with `n` signature variables and constraint set `cs`:
/// the satisfying assignments, in lexicographic order, that give a pointer MOVE only where every
/// satisfying assignment does.
pub open spec fn mono_sigs_of(n: nat, cs: Seq<Constraint>) -> Seq<Seq<ConcretePerm>> {
    keep_minimal(all_sat_assigns(n, cs), all_sat_assigns(n, cs).len() as int)
}

proof fn lemma_keep_minimal(all: Seq<Seq<ConcretePerm>>, i: int, x: Seq<ConcretePerm>)
    requires
        0 <= i <= all.len(),
    ensures
        keep_minimal(all, i).contains(x) <==> (all.take(i).contains(x) && is_minimal(all, x)),
        all.no_duplicates() ==> keep_minimal(all, i).no_duplicates(),
    decreases i,
{
    if i > 0 {
        lemma_keep_minimal(all, i - 1, x);
        lemma_keep_minimal(all, i - 1, all[i - 1]);
        let prev = keep_minimal(all, i - 1);
        let t0 = all.take(i - 1);
        let t1 = all.take(i);
        assert(t1 =~= t0.push(all[i - 1]));
        if t1.contains(x) && !t0.contains(x) {
            let w = choose|w: int| 0 <= w < t1.len() && t1[w] == x;
            if w < i - 1 { assert(t0[w] == x); }
        }
        if t0.contains(x) {
            let w = choose|w: int| 0 <= w < t0.len() && t0[w] == x;
            assert(t1[w] == x);
        }
        if x == all[i - 1] {
            assert(t1[i - 1] == x);
        }
        if is_minimal(all, all[i - 1]) {
            let cur = prev + seq![all[i - 1]];
            assert(cur[prev.len() as int] == all[i - 1]);
            if prev.contains(x) {
                let w = choose|w: int| 0 <= w < prev.len() && prev[w] == x;
                assert(cur[w] == x);
            }
            if cur.contains(x) && !prev.contains(x) {
                let w = choose|w: int| 0 <= w < cur.len() && cur[w] == x;
                if w < prev.len() { assert(prev[w] == x); }
            }
            if all.no_duplicates() {
                assert(!t0.contains(all[i - 1])) by {
                    if t0.contains(all[i - 1]) {
                        let w = choose|w: int| 0 <= w < t0.len() && t0[w] == all[i - 1];
                        assert(all[w] == all[i - 1]);
                    }
                }
                assert forall|p: int, q: int| 0 <= p < cur.len() && 0 <= q < cur.len() && p != q implies cur[p] != cur[q] by {
                    if p == prev.len() && q < prev.len() { assert(prev.contains(cur[q])); }
                    if q == prev.len() && p < prev.len() { assert(prev.contains(cur[p])); }
                    if p < prev.len() && q < prev.len() { assert(prev[p] != prev[q]); }
                }
            }
        } else {
            assert(prev + Seq::<Seq<ConcretePerm>>::empty() =~= prev);
        }
    }
}

/// The monomorphizations are exactly the minimal satisfying assignments of length `n`.
pub proof fn lemma_mono_sigs_members(n: nat, cs: Seq<Constraint>, a: Seq<ConcretePerm>)
    ensures
        mono_sigs_of(n, cs).contains(a) <==> (a.len() == n && satisfied_by(cs, a, Seq::empty())
            && is_minimal(all_sat_assigns(n, cs), a)),
{
    let all = all_sat_assigns(n, cs);
    lemma_keep_minimal(all, all.len() as int, a);
    assert(all.take(all.len() as int) =~= all);
    lemma_all_sat_members(n, cs, a);
}

/// A function's monomorphizations are pairwise distinct.
pub proof fn lemma_mono_sigs_distinct(n: nat, cs: Seq<Constraint>)
    ensures
        mono_sigs_of(n, cs).no_duplicates(),
{
    let all = all_sat_assigns(n, cs);
    lemma_all_sat_distinct(n, cs);
    lemma_keep_minimal(all, all.len() as int, Seq::empty());
}

/// Enumerates the monomorphizations of a summary: its minimal satisfying assignments, in
/// lexicographic order.
pub fn get_mono_sigs(summ: &FnSummary) -> (r: Vec<Vec<ConcretePerm>>)
    ensures
        assigns_view(r@) == mono_sigs_of(summ.num_sig_vars as nat, summ.cset@),
{
    let all = all_sat_assigns_exec(summ);
    let ghost av = assigns_view(all@);
    let n = summ.num_sig_vars as usize;
    proof {
        assert forall|j: int| 0 <= j < av.len() implies (#[trigger] av[j]).len() == n by {
            assert(av.contains(av[j]));
            lemma_all_sat_members(n as nat, summ.cset@, av[j]);
        }
    }
    let mut forced: Vec<bool> = Vec::new();
    for k in 0..n
        invariant
            forced@.len() == k,
            av == assigns_view(all@),
            forall|j: int| 0 <= j < av.len() ==> (#[trigger] av[j]).len() == n,
            forall|q: int| 0 <= q < k ==> (#[trigger] forced@[q] <==> move_forced(av, q)),
    {
        let mut all_move = true;
        for j in 0..all.len()
            invariant
                k < n,
                av == assigns_view(all@),
                forall|q: int| 0 <= q < av.len() ==> (#[trigger] av[q]).len() == n,
                all_move <==> forall|q: int| 0 <= q < j ==> (#[trigger] av[q])[k as int] == ConcretePerm::Move,
        {
            assert(av[j as int] == all@[j as int]@);
            if !matches!(all[j][k], ConcretePerm::Move) {
                all_move = false;
            }
        }
        forced.push(all_move);
    }
    let mut out: Vec<Vec<ConcretePerm>> = Vec::new();
    for j in 0..all.len()
        invariant
            forced@.len() == n,
            av == assigns_view(all@),
            forall|q: int| 0 <= q < av.len() ==> (#[trigger] av[q]).len() == n,
            forall|q: int| 0 <= q < n ==> (#[trigger] forced@[q] <==> move_forced(av, q)),
            assigns_view(out@) == keep_minimal(av, j as int),
    {
        assert(av[j as int] == all@[j as int]@);
        assert(av.len() == all@.len());
        let mut ok = true;
        for k in 0..n
            invariant
                j < av.len(),
                av.len() == all@.len(),
                j < all@.len(),
                all@[j as int]@.len() == n,
                av[j as int] == all@[j as int]@,
                av[j as int].len() == n,
                forced@.len() == n,
                forall|q: int| 0 <= q < n ==> (#[trigger] forced@[q] <==> move_forced(av, q)),
                ok <==> forall|q: int| 0 <= q < k && av[j as int][q] == ConcretePerm::Move ==> #[trigger] move_forced(av, q),
        {
            if matches!(all[j][k], ConcretePerm::Move) && !forced[k] {
                ok = false;
            }
        }
        let ghost before = assigns_view(out@);
        if ok {
            out.push(copy_assign(&all[j]));
            assert(assigns_view(out@) =~= before + seq![av[j as int]]);
        } else {
            assert(assigns_view(out@) =~= before + Seq::<Seq<ConcretePerm>>::empty());
        }
    }
    out
}

} // verus!
