//! The search as a sequence of steps on an abstract state, and the facts that tie
//! each step to the solver's operations.
use vstd::prelude::*;

use crate::cnf::{Literal, Assignment};
use crate::logic::{EntryView, trail_view};
use crate::seqs::lemma_filter_push;
use crate::solver::{
    PassState, PropagationStatus, Solver, prop_rounds, analysis_steps, count_at_level, is_jump_level,
    has_level, clause_level, levels_spread, above_level, lemma_propagation_outcome_unique, lemma_analysis_outcome_unique,
};

verus! {

/// What the search works on: the clauses, the assignment, the trail and the level.
pub struct SearchState {
    pub f: Seq<Seq<Literal>>,
    pub m: Seq<Option<bool>>,
    pub t: Seq<EntryView>,
    pub lvl: usize,
}

/// Where the search stands: still running from a state, or done, with a model or
/// a refutation.
pub enum SearchOutcome {
    Running(SearchState),
    Sat(Seq<EntryView>),
    Unsat,
    /// A conflict above level 0 whose clause has two or more literals on variables of
    /// the current level, none of them forced: conflict analysis cannot start.
    Stuck,
    /// Conflict analysis above level 0 ended in a clause with no literal on a
    /// variable of the current level.
    Unasserting,
}

impl Solver {
    /// The abstract state of this solver.
    pub open spec fn search_view(&self) -> SearchState {
        SearchState { f: self.formula@, m: self.m@, t: self.trail(), lvl: self.decision_level }
    }
}

/// The search from `s` never stops on a conflict that analysis cannot take: it
/// never reaches [`SearchOutcome::Stuck`] or [`SearchOutcome::Unasserting`].
pub open spec fn search_never_blocked(s: SearchState) -> bool {
    forall|k: nat| !(#[trigger] search_run(s, k) is Stuck) && !(search_run(s, k) is Unasserting)
}

/// Where the search starts on clauses `f` over variables 0 to `num_vars`: nothing
/// assigned, an empty trail, level 0.
pub open spec fn search_start(f: Seq<Seq<Literal>>, num_vars: nat) -> SearchState {
    SearchState { f, m: Seq::new(num_vars + 1, |v: int| None::<bool>), t: Seq::empty(), lvl: 0 }
}

/// Unit propagation has ended: it found a falsified clause, or its last pass
/// assigned nothing.
pub open spec fn stopped(p: PassState) -> bool {
    p.conflict is Some || !p.changed
}

/// The state in which unit propagation from `s` ends.
pub open spec fn propagated(s: SearchState) -> PassState {
    choose|p: PassState| #[trigger] stopped(p) && exists|n: nat| #[trigger] prop_rounds(s.f, s.lvl, s.m, s.t, n) == p
}

/// The clause in which conflict analysis of `c` at level `lvl` ends.
pub open spec fn analysed(t: Seq<EntryView>, lvl: int, c: Seq<Literal>) -> Seq<Literal> {
    choose|l: Seq<Literal>| #[trigger] count_at_level(t, lvl, l) <= 1 && exists|n: nat| #[trigger] analysis_steps(t, lvl, c, n) == l
}

/// The level to jump back to from trail `t` after learning `c` at level `lvl`.
pub open spec fn jump_level(t: Seq<EntryView>, c: Seq<Literal>, lvl: int) -> int {
    choose|r: int| is_jump_level(t, c, lvl, r)
}

/// The first variable from 1 on that `m` leaves unassigned.
pub open spec fn first_unassigned(m: Seq<Option<bool>>) -> int {
    choose|v: int| 1 <= v < m.len() && m[v] is None && forall|u: int| 1 <= u < v ==> (#[trigger] m[u]) is Some
}

/// Every variable from 1 on has a value.
pub open spec fn all_assigned(m: Seq<Option<bool>>) -> bool {
    forall|v: int| 1 <= v < m.len() ==> (#[trigger] m[v]) is Some
}

/// The entries that a jump back to level `r` keeps: those on variables that have no
/// entry above `r`.
pub open spec fn kept_entry(t: Seq<EntryView>, r: int) -> spec_fn(EntryView) -> bool {
    |e: EntryView| !above_level(t, r, e.variable)
}

/// One step of the search from `s`: propagate; on a conflict at level 0 the problem
/// is refuted; on a conflict above it, unless analysis cannot start or learns a
/// clause with no literal at the level, learn the analysed clause and jump back; with
/// no conflict and every variable assigned the trail is a model; otherwise decide
/// the first unassigned variable true at the next level.
pub open spec fn search_step(s: SearchState) -> SearchOutcome {
    let p = propagated(s);
    if p.conflict is Some {
        if s.lvl == 0 {
            SearchOutcome::Unsat
        } else if !Solver::analysis_can_start(p.t, s.lvl as int, s.f[p.conflict->0]) {
            SearchOutcome::Stuck
        } else if count_at_level(p.t, s.lvl as int, analysed(p.t, s.lvl as int, s.f[p.conflict->0])) == 0 {
            SearchOutcome::Unasserting
        } else {
            let learnt = analysed(p.t, s.lvl as int, s.f[p.conflict->0]);
            let r = jump_level(p.t, learnt, s.lvl as int);
            SearchOutcome::Running(
                SearchState {
                    f: s.f.push(learnt),
                    m: Seq::new(p.m.len(), |v: int| if above_level(p.t, r, v as usize) { None } else { p.m[v] }),
                    t: p.t.filter(kept_entry(p.t, r)),
                    lvl: r as usize,
                },
            )
        }
    } else if all_assigned(p.m) {
        SearchOutcome::Sat(p.t)
    } else {
        let v = first_unassigned(p.m);
        let l = (s.lvl + 1) as usize;
        SearchOutcome::Running(
            SearchState {
                f: s.f,
                m: p.m.update(v, Some(true)),
                t: p.t.push(EntryView { variable: v as usize, value: true, decision_level: l, antecedent: None }),
                lvl: l,
            },
        )
    }
}

/// Where the search stands after `n` steps from `s`.
pub open spec fn search_run(s: SearchState, n: nat) -> SearchOutcome
    decreases n,
{
    if n == 0 {
        SearchOutcome::Running(s)
    } else {
        match search_run(s, (n - 1) as nat) {
            SearchOutcome::Running(x) => search_step(x),
            o => o,
        }
    }
}

/// Once the search is done, further steps change nothing.
pub proof fn lemma_run_settles(s: SearchState, n: nat, k: nat)
    requires
        n <= k,
        !(search_run(s, n) is Running),
    ensures
        search_run(s, k) == search_run(s, n),
    decreases k - n,
{
    if k > n {
        lemma_run_settles(s, n, (k - 1) as nat);
    }
}

/// The search has one outcome: two numbers of steps after which it is done give the
/// same answer.
pub proof fn lemma_search_outcome_unique(s: SearchState, n1: nat, n2: nat)
    requires
        !(search_run(s, n1) is Running),
        !(search_run(s, n2) is Running),
    ensures
        search_run(s, n1) == search_run(s, n2),
{
    if n1 <= n2 {
        lemma_run_settles(s, n1, n2);
    } else {
        lemma_run_settles(s, n2, n1);
    }
}

/// A stopped state of propagation from `s` is the one [`propagated`] names.
pub proof fn lemma_propagated_is(s: SearchState, n: nat)
    requires
        stopped(prop_rounds(s.f, s.lvl, s.m, s.t, n)),
    ensures
        propagated(s) == prop_rounds(s.f, s.lvl, s.m, s.t, n),
{
    let p = propagated(s);
    let q = prop_rounds(s.f, s.lvl, s.m, s.t, n);
    assert(stopped(q) && exists|k: nat| #[trigger] prop_rounds(s.f, s.lvl, s.m, s.t, k) == q);
    assert(stopped(p));
    let k = choose|k: nat| #[trigger] prop_rounds(s.f, s.lvl, s.m, s.t, k) == p;
    lemma_propagation_outcome_unique(s.f, s.lvl, s.m, s.t, k, n);
}

/// A settled clause of conflict analysis is the one [`analysed`] names.
pub proof fn lemma_analysed_is(t: Seq<EntryView>, lvl: int, c: Seq<Literal>, n: nat)
    requires
        count_at_level(t, lvl, analysis_steps(t, lvl, c, n)) <= 1,
    ensures
        analysed(t, lvl, c) == analysis_steps(t, lvl, c, n),
{
    let l = analysed(t, lvl, c);
    let q = analysis_steps(t, lvl, c, n);
    assert(count_at_level(t, lvl, q) <= 1 && exists|k: nat| #[trigger] analysis_steps(t, lvl, c, k) == q);
    assert(count_at_level(t, lvl, l) <= 1);
    let k = choose|k: nat| #[trigger] analysis_steps(t, lvl, c, k) == l;
    lemma_analysis_outcome_unique(t, lvl, c, k, n);
}

/// There is one level to jump back to.
pub proof fn lemma_jump_level_is(t: Seq<EntryView>, c: Seq<Literal>, lvl: int, r: int)
    requires
        is_jump_level(t, c, lvl, r),
    ensures
        jump_level(t, c, lvl) == r,
{
    let q = jump_level(t, c, lvl);
    assert(is_jump_level(t, c, lvl, q));
    if q != r {
        lemma_jump_level_unique(t, c, lvl, q, r);
    }
}

/// Two levels that both fit [`is_jump_level`] are equal.
proof fn lemma_jump_level_unique(t: Seq<EntryView>, c: Seq<Literal>, lvl: int, a: int, b: int)
    requires
        is_jump_level(t, c, lvl, a),
        is_jump_level(t, c, lvl, b),
    ensures
        a == b,
{
    if a != b {
        let (lo, hi) = if a < b { (a, b) } else { (b, a) };
        if levels_spread(t, c) {
            assert(clause_level(t, c, hi));
            let l = choose|l: int| #[trigger] clause_level(t, c, l) && l > hi;
            assert(clause_level(t, c, l) && clause_level(t, c, hi) && l > lo && hi > lo);
        } else {
            assert(has_level(t, hi));
            let k = choose|k: int| 0 <= k < t.len() && #[trigger] t[k].decision_level == hi;
            assert(t[k].decision_level < lvl);
        }
    }
}

/// The first unassigned variable is the one [`first_unassigned`] names.
pub proof fn lemma_first_unassigned_is(m: Seq<Option<bool>>, v: int)
    requires
        1 <= v < m.len(),
        m[v] is None,
        forall|u: int| 1 <= u < v ==> (#[trigger] m[u]) is Some,
    ensures
        first_unassigned(m) == v,
{
    let w = first_unassigned(m);
    assert(1 <= w < m.len() && m[w] is None && forall|u: int| 1 <= u < w ==> (#[trigger] m[u]) is Some);
    if w < v {
        assert(m[w] is Some);
    } else if v < w {
        assert(m[v] is Some);
    }
}

/// Filtering the trail's entries by a condition on their views is filtering the
/// trail by that condition.
pub proof fn lemma_view_filter(a: Seq<Assignment>, p: spec_fn(Assignment) -> bool, q: spec_fn(EntryView) -> bool)
    requires
        forall|x: Assignment| #[trigger] p(x) == q(x@),
    ensures
        trail_view(a.filter(p)) == trail_view(a).filter(q),
    decreases a.len(),
{
    if a.len() == 0 {
        assert(a.filter(p) =~= Seq::<Assignment>::empty()) by {
            reveal(Seq::filter);
        }
        assert(trail_view(a).filter(q) =~= Seq::<EntryView>::empty()) by {
            reveal(Seq::filter);
        }
        assert(trail_view(a.filter(p)) =~= trail_view(a).filter(q));
    } else {
        let d = a.drop_last();
        let x = a.last();
        lemma_view_filter(d, p, q);
        assert(d.push(x) =~= a);
        lemma_filter_push(d, x, p);
        assert(trail_view(a) =~= trail_view(d).push(x@));
        lemma_filter_push(trail_view(d), x@, q);
        if p(x) {
            assert(trail_view(d.filter(p).push(x)) =~= trail_view(d.filter(p)).push(x@));
        }
    }
}

/// What unit propagation from `before` reached, stated over [`propagated`]: `after`
/// holds its assignment and trail, and `r` its outcome.
pub proof fn lemma_propagation_result(before: Solver, after: Solver, r: PropagationStatus)
    requires
        exists|n: nat| {
            let p = #[trigger] prop_rounds(before.formula@, before.decision_level, before.m@, before.trail(), n);
            &&& after.m@ == p.m
            &&& after.trail() == p.t
            &&& match r {
                PropagationStatus::Conflict(c) => p.conflict is Some && c@ == before.formula@[p.conflict->0],
                PropagationStatus::Unresolved => p.conflict is None && !p.changed,
            }
        },
    ensures
        propagated(before.search_view()).m == after.m@,
        propagated(before.search_view()).t == after.trail(),
        match r {
            PropagationStatus::Conflict(c) => propagated(before.search_view()).conflict is Some
                && c@ == before.formula@[propagated(before.search_view()).conflict->0],
            PropagationStatus::Unresolved => propagated(before.search_view()).conflict is None,
        },
{
    let n = choose|n: nat| {
        let p = #[trigger] prop_rounds(before.formula@, before.decision_level, before.m@, before.trail(), n);
        &&& after.m@ == p.m
        &&& after.trail() == p.t
        &&& match r {
            PropagationStatus::Conflict(c) => p.conflict is Some && c@ == before.formula@[p.conflict->0],
            PropagationStatus::Unresolved => p.conflict is None && !p.changed,
        }
    };
    lemma_propagated_is(before.search_view(), n);
}

} // verus!
