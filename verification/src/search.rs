//! The CDCL search loop, with what it keeps from step to step and why it ends.
use vstd::prelude::*;

use crate::cnf::{Literal, Assignment};
use crate::logic::{
    EntryView, lits_below, lit_status, clause_satisfied, clause_falsified, unit_at, two_unassigned,
    trail_view, trail_matches, levels_at_most, justified, entry_lit, falsified_by, model_lit,
    model_sat, model_sat_all, implied_by, unsatisfiable, lemma_trail_len_bound,
    lemma_unassigned_has_no_entry, lemma_justified_extend, lemma_trail_len_bound_strict,
};
use crate::analysis::{clause_has_var, false_or_forced, derived_from, antecedents_hold};
use crate::progress::{ipow, weight, phi, levels_within, lemma_phi_push, lemma_phi_split,
    lemma_phi_above, lemma_phi_room, lemma_phi_first, lemma_ipow_pos, lemma_phi_below_top};
use crate::seqs::{lemma_filter_all, lemma_filter_push};
use crate::solver::{
    Solver, PropagationStatus, var_at_level, count_at_level, is_jump_level, clause_level, levels_spread, above_level,
    analysis_steps,
};
use crate::run::{
    SearchState, SearchOutcome, search_run, search_step, propagated, all_assigned, kept_entry,
    search_never_blocked,
    lemma_propagation_result, lemma_analysed_is, lemma_jump_level_is, lemma_first_unassigned_is,
    lemma_view_filter,
};

verus! {

/// Every literal of `c` is made false by an entry of `t` at a level no higher than `lvl`.
pub open spec fn falsified_upto(t: Seq<EntryView>, lvl: int, c: Seq<Literal>) -> bool {
    forall|i: int| 0 <= i < c.len() ==> #[trigger] falsified_by(t, t.len() as int, lvl, c[i])
}

/// Level `lvl` has a decision on the trail.
pub open spec fn has_decision(t: Seq<EntryView>, lvl: int) -> bool {
    exists|k: int| 0 <= k < t.len() && #[trigger] t[k].decision_level == lvl && t[k].antecedent is None
}

/// Some entry of the trail makes a literal of `c` true.
pub open spec fn entries_satisfy(t: Seq<EntryView>, c: Seq<Literal>) -> bool {
    exists|i: int, k: int|
        0 <= i < c.len() && 0 <= k < t.len() && #[trigger] t[k].variable == #[trigger] c[i].value
            && t[k].value != c[i].is_negated
}

/// Some literal of `c` is on variable 0, which the search never decides.
pub open spec fn mentions_var_zero(c: Seq<Literal>) -> bool {
    exists|i: int| 0 <= i < c.len() && #[trigger] c[i].value == 0
}

/// Variable `v` has an entry on the trail.
pub open spec fn has_entry(t: Seq<EntryView>, v: int) -> bool {
    exists|k: int| 0 <= k < t.len() && #[trigger] t[k].variable == v
}

impl Solver {
    /// A solver as `Solver::new` makes it: nothing assigned, level 0, and every
    /// literal on a variable from 0 to `num_vars`.
    pub open spec fn fresh(&self) -> bool {
        &&& self.num_vars < usize::MAX
        &&& self.m@.len() == self.num_vars + 1
        &&& forall|v: int| 0 <= v < self.m@.len() ==> (#[trigger] self.m@[v]) is None
        &&& self.assignments@.len() == 0
        &&& self.decision_level == 0
        &&& self.lits_in_range()
    }

    /// What the search keeps from step to step, for the problem `f0`.
    pub open spec fn searching(&self, f0: Seq<Seq<Literal>>) -> bool {
        let t = self.trail();
        let dl = self.decision_level as int;
        let f = self.formula@;
        &&& self.num_vars < usize::MAX
        &&& self.m@.len() == self.num_vars + 1
        &&& self.lits_in_range()
        &&& trail_matches(t, self.m@)
        &&& levels_at_most(t, dl)
        &&& forall|j: int, k: int|
            0 <= j <= k < t.len() ==> #[trigger] t[j].decision_level <= #[trigger] t[k].decision_level
        &&& forall|k: int|
            0 <= k < t.len() && (#[trigger] t[k]).antecedent is None ==> 1 <= t[k].decision_level <= k + 1
                && forall|j: int| 0 <= j < k ==> #[trigger] t[j].decision_level < t[k].decision_level
        &&& forall|l: int| 1 <= l <= dl ==> #[trigger] has_decision(t, l)
        &&& forall|k: int| 0 <= k < t.len() ==> #[trigger] justified(t, k)
        &&& forall|k: int|
            0 <= k < t.len() && (#[trigger] t[k]).antecedent is Some ==> self.in_formula(t[k].antecedent->0)
        &&& forall|l: int, ci: int|
            0 <= l < dl && 0 <= ci < f.len() ==> !#[trigger] falsified_upto(t, l, f[ci])
        &&& f0.len() <= f.len()
        &&& forall|i: int| 0 <= i < f0.len() ==> #[trigger] f[i] == f0[i]
        &&& forall|ci: int| 0 <= ci < f.len() ==> #[trigger] implied_by(f0, self.m@.len() as int, f[ci])
    }
}

/// A fresh solver is searching its own formula.
pub proof fn lemma_fresh_searching(s: Solver)
    requires
        s.fresh(),
    ensures
        s.searching(s.formula@),
{
    let f = s.formula@;
    let n = s.m@.len() as int;
    assert(s.trail().len() == 0);
    assert forall|v: int| 0 <= v < s.m@.len() && (#[trigger] s.m@[v]) is Some implies exists|k: int|
        0 <= k < s.trail().len() && #[trigger] s.trail()[k].variable == v by {}
    assert forall|ci: int| 0 <= ci < f.len() implies #[trigger] implied_by(f, n, f[ci]) by {
        assert forall|model: Seq<bool>| model.len() == n && #[trigger] model_sat_all(model, f) implies model_sat(model, f[ci]) by {}
    }
}

/// Propagation keeps the search invariant.
pub proof fn lemma_propagated_searching(s0: Solver, s1: Solver, f0: Seq<Seq<Literal>>)
    requires
        s0.searching(f0),
        s1.extends_by_propagation(&s0),
    ensures
        s1.searching(f0),
{
    let t0 = s0.trail();
    let t1 = s1.trail();
    let dl = s0.decision_level as int;
    let f = s1.formula@;
    let n0 = s0.assignments@.len() as int;
    assert(t0.len() == n0);
    assert forall|j: int, k: int| 0 <= j <= k < t1.len() implies #[trigger] t1[j].decision_level <= #[trigger] t1[k].decision_level by {
        if k < n0 {
            assert(t1[j] == t0[j] && t1[k] == t0[k]);
        }
    }
    assert forall|k: int| 0 <= k < t1.len() && (#[trigger] t1[k]).antecedent is None implies 1 <= t1[k].decision_level <= k + 1
        && forall|j: int| 0 <= j < k ==> #[trigger] t1[j].decision_level < t1[k].decision_level by {
        assert(k < n0);
        assert(t1[k] == t0[k]);
        assert forall|j: int| 0 <= j < k implies #[trigger] t1[j].decision_level < t1[k].decision_level by {
            assert(t1[j] == t0[j]);
        }
    }
    assert forall|l: int| 1 <= l <= dl implies #[trigger] has_decision(t1, l) by {
        assert(has_decision(t0, l));
        let k = choose|k: int| 0 <= k < t0.len() && #[trigger] t0[k].decision_level == l && t0[k].antecedent is None;
        assert(t1[k] == t0[k]);
    }
    assert forall|k: int| 0 <= k < t1.len() implies #[trigger] justified(t1, k) by {
        if k < n0 {
            assert(justified(t0, k));
            assert forall|j: int| 0 <= j < t0.len() implies #[trigger] t1[j] == t0[j] by {}
            lemma_justified_extend(t0, t1, k);
        }
    }
    assert forall|k: int| 0 <= k < t1.len() && (#[trigger] t1[k]).antecedent is Some implies s1.in_formula(t1[k].antecedent->0) by {
        if k < n0 {
            assert(t1[k] == t0[k]);
            assert(s0.in_formula(t0[k].antecedent->0));
            let ci = choose|ci: int| 0 <= ci < s0.formula@.len() && #[trigger] s0.formula@[ci] == t0[k].antecedent->0;
            assert(f[ci] == t0[k].antecedent->0);
        }
    }
    assert forall|l: int, ci: int| 0 <= l < dl && 0 <= ci < f.len() implies !#[trigger] falsified_upto(t1, l, f[ci]) by {
        if falsified_upto(t1, l, f[ci]) {
            assert forall|i: int| 0 <= i < f[ci].len() implies #[trigger] falsified_by(t0, t0.len() as int, l, f[ci][i]) by {
                assert(falsified_by(t1, t1.len() as int, l, f[ci][i]));
                let j = choose|j: int| 0 <= j < t1.len() && #[trigger] t1[j].variable == f[ci][i].value && t1[j].value == f[ci][i].is_negated && t1[j].decision_level <= l;
                assert(j < n0);
                assert(t1[j] == t0[j]);
            }
            assert(falsified_upto(t0, l, s0.formula@[ci]));
        }
    }
}

/// Adding `e` for an unassigned variable keeps the trail in agreement with the assignment.
pub proof fn lemma_push_entry(t: Seq<EntryView>, m: Seq<Option<bool>>, e: EntryView)
    requires
        trail_matches(t, m),
        e.variable < m.len(),
        m[e.variable as int] is None,
    ensures
        trail_matches(t.push(e), m.update(e.variable as int, Some(e.value))),
{
    let t2 = t.push(e);
    let m2 = m.update(e.variable as int, Some(e.value));
    let v = e.variable as int;
    lemma_unassigned_has_no_entry(t, m, v);
    assert forall|k: int| 0 <= k < t2.len() implies #[trigger] t2[k].variable < m2.len() && m2[t2[k].variable as int] == Some(t2[k].value) by {
        if k < t.len() {
            assert(t2[k] == t[k]);
            assert(t[k].variable != v);
        }
    }
    assert forall|j: int, k: int| 0 <= j < k < t2.len() implies #[trigger] t2[j].variable != #[trigger] t2[k].variable by {
        assert(t2[j] == t[j]);
        if k == t.len() {
            assert(t[j].variable != v);
        } else {
            assert(t2[k] == t[k]);
        }
    }
    assert forall|w: int| 0 <= w < m2.len() && (#[trigger] m2[w]) is Some implies exists|k: int|
        0 <= k < t2.len() && #[trigger] t2[k].variable == w by {
        if w == v {
            assert(t2[t.len() as int].variable == w);
        } else {
            assert(m[w] is Some);
            let k = choose|k: int| 0 <= k < t.len() && #[trigger] t[k].variable == w;
            assert(t2[k] == t[k]);
        }
    }
}

/// The trail holds at least as many entries as the current level.
pub proof fn lemma_level_below_len(s: Solver, f0: Seq<Seq<Literal>>)
    requires
        s.searching(f0),
    ensures
        s.decision_level <= s.trail().len(),
{
    let t = s.trail();
    let dl = s.decision_level as int;
    if dl >= 1 {
        assert(has_decision(t, dl));
        let k = choose|k: int| 0 <= k < t.len() && #[trigger] t[k].decision_level == dl && t[k].antecedent is None;
        assert(t[k].antecedent is None);
    }
}

/// A decision on an unassigned variable, at the next level, after propagation is
/// done, keeps the search invariant and adds the weight of the new level.
pub proof fn lemma_decided_searching(s0: Solver, s1: Solver, f0: Seq<Seq<Literal>>, v: usize)
    requires
        s0.searching(f0),
        s0.propagation_done(),
        1 <= v < s0.m@.len(),
        s0.m@[v as int] is None,
        s0.decision_level < s0.m@.len(),
        s1.decision_level == s0.decision_level + 1,
        s1.m@ == s0.m@.update(v as int, Some(true)),
        s1.trail() == s0.trail().push(EntryView { variable: v, value: true, decision_level: s1.decision_level, antecedent: None }),
        s1.formula@ == s0.formula@,
        s1.num_vars == s0.num_vars,
    ensures
        s1.searching(f0),
        phi(s1.trail(), s1.m@.len() as nat) == phi(s0.trail(), s0.m@.len() as nat) + weight(s0.m@.len() as nat, s1.decision_level as int),
{
    let t0 = s0.trail();
    let t1 = s1.trail();
    let dl0 = s0.decision_level as int;
    let dl1 = s1.decision_level as int;
    let f = s1.formula@;
    let n0 = t0.len() as int;
    let e = EntryView { variable: v, value: true, decision_level: s1.decision_level, antecedent: None };
    lemma_push_entry(t0, s0.m@, e);
    lemma_level_below_len(s0, f0);
    lemma_phi_push(t0, e, s0.m@.len() as nat);
    assert(t1[n0] == e);
    assert forall|k: int| 0 <= k < n0 implies #[trigger] t1[k] == t0[k] by {}
    assert forall|k: int| 0 <= k < t1.len() implies #[trigger] t1[k].decision_level <= dl1 by {
        if k < n0 {
            assert(t1[k] == t0[k]);
        }
    }
    assert forall|j: int, k: int| 0 <= j <= k < t1.len() implies #[trigger] t1[j].decision_level <= #[trigger] t1[k].decision_level by {
        assert(t1[j] == t0[j] || j == n0);
        if k < n0 {
            assert(t1[j] == t0[j] && t1[k] == t0[k]);
        } else if j < n0 {
            assert(t1[j] == t0[j]);
        }
    }
    assert forall|k: int| 0 <= k < t1.len() && (#[trigger] t1[k]).antecedent is None implies 1 <= t1[k].decision_level <= k + 1
        && forall|j: int| 0 <= j < k ==> #[trigger] t1[j].decision_level < t1[k].decision_level by {
        if k < n0 {
            assert(t1[k] == t0[k]);
            assert forall|j: int| 0 <= j < k implies #[trigger] t1[j].decision_level < t1[k].decision_level by {
                assert(t1[j] == t0[j]);
            }
        } else {
            assert forall|j: int| 0 <= j < k implies #[trigger] t1[j].decision_level < t1[k].decision_level by {
                assert(t1[j] == t0[j]);
            }
        }
    }
    assert forall|l: int| 1 <= l <= dl1 implies #[trigger] has_decision(t1, l) by {
        if l == dl1 {
            assert(t1[n0].decision_level == l);
        } else {
            assert(has_decision(t0, l));
            let k = choose|k: int| 0 <= k < t0.len() && #[trigger] t0[k].decision_level == l && t0[k].antecedent is None;
            assert(t1[k] == t0[k]);
        }
    }
    assert forall|k: int| 0 <= k < t1.len() implies #[trigger] justified(t1, k) by {
        if k < n0 {
            assert(justified(t0, k));
            lemma_justified_extend(t0, t1, k);
        }
    }
    assert forall|k: int| 0 <= k < t1.len() && (#[trigger] t1[k]).antecedent is Some implies s1.in_formula(t1[k].antecedent->0) by {
        assert(k < n0);
        assert(t1[k] == t0[k]);
        assert(s0.in_formula(t0[k].antecedent->0));
        let ci = choose|ci: int| 0 <= ci < s0.formula@.len() && #[trigger] s0.formula@[ci] == t0[k].antecedent->0;
        assert(f[ci] == t0[k].antecedent->0);
    }
    assert forall|l: int, ci: int| 0 <= l < dl1 && 0 <= ci < f.len() implies !#[trigger] falsified_upto(t1, l, f[ci]) by {
        if falsified_upto(t1, l, f[ci]) {
            let c = f[ci];
            assert forall|i: int| 0 <= i < c.len() implies #[trigger] falsified_by(t0, t0.len() as int, l, c[i]) by {
                assert(falsified_by(t1, t1.len() as int, l, c[i]));
                let j = choose|j: int| 0 <= j < t1.len() && #[trigger] t1[j].variable == c[i].value && t1[j].value == c[i].is_negated && t1[j].decision_level <= l;
                assert(j < n0);
                assert(t1[j] == t0[j]);
            }
            if l < dl0 {
                assert(falsified_upto(t0, l, s0.formula@[ci]));
            } else {
                assert forall|i: int| 0 <= i < c.len() implies #[trigger] lit_status(s0.m@, c[i]) == Some(false) by {
                    assert(falsified_by(t0, t0.len() as int, l, c[i]));
                    let j = choose|j: int| 0 <= j < t0.len() && #[trigger] t0[j].variable == c[i].value && t0[j].value == c[i].is_negated && t0[j].decision_level <= l;
                    assert(s0.m@[t0[j].variable as int] == Some(t0[j].value));
                }
                assert(clause_satisfied(s0.m@, c) || two_unassigned(s0.m@, c));
                if clause_satisfied(s0.m@, c) {
                    let i = choose|i: int| 0 <= i < c.len() && #[trigger] lit_status(s0.m@, c[i]) == Some(true);
                } else {
                    let (i, j) = choose|i: int, j: int| 0 <= i < c.len() && 0 <= j < c.len() && i != j && #[trigger] lit_status(s0.m@, c[i]) is None
                        && #[trigger] lit_status(s0.m@, c[j]) is None;
                }
            }
        }
    }
}

/// A falsified clause of the formula is fit for conflict analysis, and at a
/// level above 0 one of its literals is on a variable of the current level.
pub proof fn lemma_conflict_ready(s: Solver, f0: Seq<Seq<Literal>>, c: Seq<Literal>)
    requires
        s.searching(f0),
        s.in_formula(c),
        clause_falsified(s.m@, c),
    ensures
        s.analysis_ready(),
        false_or_forced(s.trail(), s.decision_level as int, c),
        s.conflict_is_genuine(c),
        s.decision_level >= 1 ==> count_at_level(s.trail(), s.decision_level as int, c) >= 1,
{
    let t = s.trail();
    let dl = s.decision_level as int;
    let ci = choose|ci: int| 0 <= ci < s.formula@.len() && #[trigger] s.formula@[ci] == c;
    assert forall|j: int, k: int|
        0 <= j < t.len() && 0 <= k < t.len() && #[trigger] t[j].decision_level == dl
            && #[trigger] t[k].decision_level == dl && t[j].antecedent is None
            && t[k].antecedent is None implies j == k by {
        if j < k {
            assert(t[j].decision_level < t[k].decision_level);
        } else if k < j {
            assert(t[k].decision_level < t[j].decision_level);
        }
    }
    assert forall|k: int|
        0 <= k < t.len() && #[trigger] t[k].decision_level == dl && t[k].antecedent is Some implies forall|i: int|
            0 <= i < t[k].antecedent->0.len() ==> (#[trigger] t[k].antecedent->0[i]).value
                == t[k].variable || falsified_by(t, k, dl, t[k].antecedent->0[i]) by {
        assert(justified(t, k));
    }
    assert forall|i: int| 0 <= i < c.len() implies #[trigger] falsified_by(t, t.len() as int, dl, c[i]) by {
        assert(lit_status(s.m@, c[i]) == Some(false));
        assert(c[i].value < s.m@.len());
        let w = c[i].value as int;
        assert(s.m@[w] is Some);
        let k = choose|k: int| 0 <= k < t.len() && #[trigger] t[k].variable == w;
        assert(s.m@[t[k].variable as int] == Some(t[k].value));
        assert(t[k].decision_level <= dl);
    }
    assert(forall|k: int| 0 <= k < t.len() && #[trigger] t[k].decision_level == dl ==> justified(t, k));
    if dl >= 1 {
        assert(!falsified_upto(t, dl - 1, s.formula@[ci]));
        let i = choose|i: int| 0 <= i < c.len() && !#[trigger] falsified_by(t, t.len() as int, dl - 1, c[i]);
        assert(falsified_by(t, t.len() as int, dl, c[i]));
        let j = choose|j: int| 0 <= j < t.len() && #[trigger] t[j].variable == c[i].value && t[j].value == c[i].is_negated && t[j].decision_level <= dl;
        assert(t[j].decision_level == dl);
        assert(var_at_level(t, c[i].value, dl));
        crate::solver::lemma_count_pos(t, dl, c, i);
    }
}

/// The level to jump back to after learning a clause with one literal at the current
/// level lies below the current level, and every entry on a variable of that clause
/// above it is at the current level.
pub proof fn lemma_jump_below(s: Solver, f0: Seq<Seq<Literal>>, learnt: Seq<Literal>, r: int)
    requires
        s.searching(f0),
        s.decision_level >= 1,
        count_at_level(s.trail(), s.decision_level as int, learnt) == 1,
        is_jump_level(s.trail(), learnt, s.decision_level as int, r),
    ensures
        0 <= r < s.decision_level,
        forall|k: int|
            0 <= k < s.trail().len() && #[trigger] clause_has_var(learnt, s.trail()[k].variable)
                && s.trail()[k].decision_level > r ==> s.trail()[k].decision_level == s.decision_level,
{
    let t = s.trail();
    let dl = s.decision_level as int;
    crate::solver::lemma_count_one(t, dl, learnt);
    let i = choose|i: int| 0 <= i < learnt.len() && var_at_level(t, #[trigger] learnt[i].value, dl);
    let kd = choose|k: int| 0 <= k < t.len() && #[trigger] t[k].variable == learnt[i].value && t[k].decision_level == dl;
    assert(clause_has_var(learnt, t[kd].variable));
    assert(clause_level(t, learnt, dl));
    if levels_spread(t, learnt) {
        let kr = choose|k: int| 0 <= k < t.len() && #[trigger] clause_has_var(learnt, t[k].variable) && t[k].decision_level == r;
        let l = choose|l: int| #[trigger] clause_level(t, learnt, l) && l > r;
        let kl = choose|k: int| 0 <= k < t.len() && #[trigger] clause_has_var(learnt, t[k].variable) && t[k].decision_level == l;
        assert(t[kl].decision_level <= dl);
        assert forall|k: int|
            0 <= k < t.len() && #[trigger] clause_has_var(learnt, t[k].variable) && t[k].decision_level > r implies t[k].decision_level == dl by {
            assert(clause_level(t, learnt, t[k].decision_level as int));
        }
    } else {
        assert forall|k: int|
            0 <= k < t.len() && #[trigger] clause_has_var(learnt, t[k].variable) && t[k].decision_level > r implies t[k].decision_level == dl by {
            assert(clause_level(t, learnt, t[k].decision_level as int));
            if t[k].decision_level != dl {
                assert(levels_spread(t, learnt));
            }
        }
    }
}

/// A total assignment that satisfies the problem agrees with every entry of a
/// level-0 trail.
proof fn lemma_model_agrees(s: Solver, f0: Seq<Seq<Literal>>, model: Seq<bool>, k: int)
    requires
        s.searching(f0),
        s.decision_level == 0,
        model.len() == s.m@.len(),
        model_sat_all(model, f0),
        0 <= k < s.trail().len(),
    ensures
        model[s.trail()[k].variable as int] == s.trail()[k].value,
    decreases k,
{
    let t = s.trail();
    let e = t[k];
    assert(e.decision_level <= 0);
    assert(e.antecedent is Some);
    let a = e.antecedent->0;
    assert(s.in_formula(a));
    let ci = choose|ci: int| 0 <= ci < s.formula@.len() && #[trigger] s.formula@[ci] == a;
    assert(implied_by(f0, s.m@.len() as int, s.formula@[ci]));
    assert(model_sat(model, a));
    let i = choose|i: int| 0 <= i < a.len() && #[trigger] model_lit(model, a[i]);
    assert(justified(t, k));
    if a[i] != entry_lit(e) {
        assert(falsified_by(t, k, e.decision_level as int, a[i]));
        let j = choose|j: int| 0 <= j < k && #[trigger] t[j].variable == a[i].value && t[j].value == a[i].is_negated && t[j].decision_level <= e.decision_level;
        lemma_model_agrees(s, f0, model, j);
    }
}

/// A falsified clause of the formula at level 0 refutes the problem.
pub proof fn lemma_level_zero_refutes(s: Solver, f0: Seq<Seq<Literal>>, c: Seq<Literal>)
    requires
        s.searching(f0),
        s.decision_level == 0,
        s.in_formula(c),
        clause_falsified(s.m@, c),
    ensures
        unsatisfiable(f0, s.m@.len() as int),
{
    let t = s.trail();
    let n = s.m@.len() as int;
    assert forall|model: Seq<bool>| model.len() == n implies !#[trigger] model_sat_all(model, f0) by {
        if model_sat_all(model, f0) {
            let ci = choose|ci: int| 0 <= ci < s.formula@.len() && #[trigger] s.formula@[ci] == c;
            assert(implied_by(f0, n, s.formula@[ci]));
            assert(model_sat(model, c));
            let i = choose|i: int| 0 <= i < c.len() && #[trigger] model_lit(model, c[i]);
            assert(lit_status(s.m@, c[i]) == Some(false));
            let w = c[i].value as int;
            assert(s.m@[w] is Some);
            let k = choose|k: int| 0 <= k < t.len() && #[trigger] t[k].variable == w;
            assert(s.m@[t[k].variable as int] == Some(t[k].value));
            lemma_model_agrees(s, f0, model, k);
        }
    }
}

/// When every variable is assigned and propagation is done, the trail assigns each
/// variable once and satisfies every clause of the problem, except those with a
/// literal on variable 0.
pub proof fn lemma_trail_is_model(s: Solver, f0: Seq<Seq<Literal>>)
    requires
        s.searching(f0),
        s.propagation_done(),
        forall|v: int| 1 <= v < s.m@.len() ==> (#[trigger] s.m@[v]) is Some,
    ensures
        forall|k: int| 0 <= k < s.trail().len() ==> #[trigger] s.trail()[k].variable <= s.num_vars,
        forall|j: int, k: int| 0 <= j < k < s.trail().len() ==> #[trigger] s.trail()[j].variable != #[trigger] s.trail()[k].variable,
        forall|v: int| 1 <= v <= s.num_vars ==> #[trigger] has_entry(s.trail(), v),
        forall|ci: int| 0 <= ci < f0.len() ==> entries_satisfy(s.trail(), #[trigger] f0[ci]) || mentions_var_zero(f0[ci]),
{
    let t = s.trail();
    assert forall|v: int| 1 <= v <= s.num_vars implies #[trigger] has_entry(t, v) by {
        assert(s.m@[v] is Some);
    }
    assert forall|ci: int| 0 <= ci < f0.len() implies entries_satisfy(t, #[trigger] f0[ci]) || mentions_var_zero(f0[ci]) by {
        let c = s.formula@[ci];
        assert(c == f0[ci]);
        assert(lits_below(c, s.m@.len() as int));
        if clause_satisfied(s.m@, c) {
            let i = choose|i: int| 0 <= i < c.len() && #[trigger] lit_status(s.m@, c[i]) == Some(true);
            let w = c[i].value as int;
            assert(s.m@[w] is Some);
            let k = choose|k: int| 0 <= k < t.len() && #[trigger] t[k].variable == w;
            assert(s.m@[t[k].variable as int] == Some(t[k].value));
            assert(t[k].variable == c[i].value && t[k].value != c[i].is_negated);
        } else {
            assert(two_unassigned(s.m@, c));
            let (i, j) = choose|i: int, j: int| 0 <= i < c.len() && 0 <= j < c.len() && i != j && #[trigger] lit_status(s.m@, c[i]) is None
                && #[trigger] lit_status(s.m@, c[j]) is None;
            assert(c[i].value == 0);
        }
    }
}

/// On a trail whose levels never decrease, the entries at or below a level form a prefix.
proof fn lemma_prefix_point(t: Seq<EntryView>, r: int) -> (p: int)
    requires
        forall|j: int, k: int| 0 <= j <= k < t.len() ==> #[trigger] t[j].decision_level <= #[trigger] t[k].decision_level,
    ensures
        0 <= p <= t.len(),
        forall|k: int| 0 <= k < t.len() ==> (#[trigger] t[k].decision_level <= r <==> k < p),
    decreases t.len(),
{
    if t.len() == 0 {
        0
    } else {
        let d = t.drop_last();
        assert forall|j: int, k: int| 0 <= j <= k < d.len() implies #[trigger] d[j].decision_level <= #[trigger] d[k].decision_level by {
            assert(d[j] == t[j] && d[k] == t[k]);
        }
        let q = lemma_prefix_point(d, r);
        let last = t.len() - 1;
        if t[last].decision_level <= r {
            assert forall|k: int| 0 <= k < t.len() implies (#[trigger] t[k].decision_level <= r <==> k < t.len()) by {
                assert(t[k].decision_level <= t[last].decision_level);
            }
            t.len() as int
        } else {
            assert forall|k: int| 0 <= k < t.len() implies (#[trigger] t[k].decision_level <= r <==> k < q) by {
                if k < last {
                    assert(d[k] == t[k]);
                }
            }
            q
        }
    }
}

/// A filter whose predicate holds exactly on a prefix keeps that prefix.
proof fn lemma_filter_is_prefix<A>(s: Seq<A>, pred: spec_fn(A) -> bool, p: int)
    requires
        0 <= p <= s.len(),
        forall|k: int| 0 <= k < s.len() ==> (pred(#[trigger] s[k]) <==> k < p),
    ensures
        s.filter(pred) == s.subrange(0, p),
    decreases s.len(),
{
    if s.len() == p {
        lemma_filter_all(s, pred);
        assert(s.subrange(0, p) =~= s);
    } else {
        let d = s.drop_last();
        assert forall|k: int| 0 <= k < d.len() implies (pred(#[trigger] d[k]) <==> k < p) by {
            assert(d[k] == s[k]);
        }
        lemma_filter_is_prefix(d, pred, p);
        lemma_filter_push(d, s.last(), pred);
        assert(d.push(s.last()) =~= s);
        assert(s[s.len() - 1] == s.last());
        assert(d.subrange(0, p) =~= s.subrange(0, p));
    }
}

/// Justification survives cutting the trail after the justified entry.
proof fn lemma_justified_prefix(t: Seq<EntryView>, p: int, k: int)
    requires
        0 <= k < p <= t.len(),
        justified(t, k),
    ensures
        justified(t.subrange(0, p), k),
{
    let t2 = t.subrange(0, p);
    assert(t2[k] == t[k]);
    match t[k].antecedent {
        None => {},
        Some(a) => {
            assert forall|i: int| 0 <= i < a.len() implies #[trigger] a[i] == entry_lit(t2[k]) || falsified_by(
                t2,
                k,
                t2[k].decision_level as int,
                a[i],
            ) by {
                if a[i] != entry_lit(t[k]) {
                    assert(falsified_by(t, k, t[k].decision_level as int, a[i]));
                    let j = choose|j: int|
                        0 <= j < k && #[trigger] t[j].variable == a[i].value && t[j].value == a[i].is_negated
                            && t[j].decision_level <= t[k].decision_level;
                    assert(t2[j] == t[j]);
                }
            }
        },
    }
}

/// The entries at or below level `r` that stay after a jump, and their assignment.
pub open spec fn jumped(t1: Seq<EntryView>, m1: Seq<Option<bool>>, t2: Seq<EntryView>, m2: Seq<Option<bool>>, r: int, p: int) -> bool {
    &&& 0 <= p <= t1.len()
    &&& forall|k: int| 0 <= k < t1.len() ==> (#[trigger] t1[k].decision_level <= r <==> k < p)
    &&& t2 == t1.subrange(0, p)
    &&& m2.len() == m1.len()
    &&& forall|v: int| 0 <= v < m1.len() ==> #[trigger] m2[v] == (if above_level(t1, r, v as usize) {
        None
    } else {
        m1[v]
    })
}

/// A jump to level `r` keeps exactly the prefix of the entries at or below `r`.
proof fn lemma_jump_shape(s1: Solver, s2: Solver, f0: Seq<Seq<Literal>>, r: int, pred: spec_fn(Assignment) -> bool) -> (p: int)
    requires
        s1.searching(f0),
        forall|a: Assignment| #[trigger] pred(a) == !above_level(s1.trail(), r, a.variable),
        s2.assignments@ == s1.assignments@.filter(pred),
        s2.m@.len() == s1.m@.len(),
        forall|v: int|
            0 <= v < s1.m@.len() ==> #[trigger] s2.m@[v] == (if above_level(s1.trail(), r, v as usize) {
                None
            } else {
                s1.m@[v]
            }),
    ensures
        jumped(s1.trail(), s1.m@, s2.trail(), s2.m@, r, p),
        trail_matches(s2.trail(), s2.m@),
{
    let t1 = s1.trail();
    let m1 = s1.m@;
    let m2 = s2.m@;
    let p = lemma_prefix_point(t1, r);
    assert forall|k: int| 0 <= k < t1.len() implies (above_level(t1, r, #[trigger] t1[k].variable) <==> t1[k].decision_level > r) by {
        if above_level(t1, r, t1[k].variable) {
            let j = choose|j: int| 0 <= j < t1.len() && #[trigger] t1[j].variable == t1[k].variable && t1[j].decision_level > r;
            if j < k {
                assert(t1[j].variable != t1[k].variable);
            } else if k < j {
                assert(t1[k].variable != t1[j].variable);
            }
        }
    }
    let a1 = s1.assignments@;
    assert forall|k: int| 0 <= k < a1.len() implies (pred(#[trigger] a1[k]) <==> k < p) by {
        assert(t1[k] == a1[k]@);
        assert(t1[k].variable == a1[k].variable);
    }
    lemma_filter_is_prefix(a1, pred, p);
    let t2 = s2.trail();
    assert(t2 =~= t1.subrange(0, p));
    assert forall|k: int| 0 <= k < t2.len() implies #[trigger] t2[k].variable < m2.len() && m2[t2[k].variable as int] == Some(t2[k].value) by {
        assert(t2[k] == t1[k]);
        assert(!above_level(t1, r, t1[k].variable));
    }
    assert forall|j: int, k: int| 0 <= j < k < t2.len() implies #[trigger] t2[j].variable != #[trigger] t2[k].variable by {
        assert(t2[j] == t1[j] && t2[k] == t1[k]);
    }
    assert forall|v: int| 0 <= v < m2.len() && (#[trigger] m2[v]) is Some implies exists|k: int|
        0 <= k < t2.len() && #[trigger] t2[k].variable == v by {
        assert(!above_level(t1, r, v as usize));
        assert(m1[v] is Some);
        let k = choose|k: int| 0 <= k < t1.len() && #[trigger] t1[k].variable == v;
        assert(t1[k].decision_level <= r);
        assert(t2[k] == t1[k]);
    }
    p
}

/// After the jump, the clause learnt at the level above is unit, on the variable of its
/// one literal at that level.
proof fn lemma_jump_unit(
    t1: Seq<EntryView>,
    m1: Seq<Option<bool>>,
    t2: Seq<EntryView>,
    m2: Seq<Option<bool>>,
    r: int,
    p: int,
    learnt: Seq<Literal>,
    dl: int,
) -> (iu: int)
    requires
        jumped(t1, m1, t2, m2, r, p),
        trail_matches(t1, m1),
        r < dl,
        levels_at_most(t1, dl),
        count_at_level(t1, dl, learnt) == 1,
        forall|i: int| 0 <= i < learnt.len() ==> falsified_by(t1, t1.len() as int, dl, #[trigger] learnt[i]),
        forall|k: int|
            0 <= k < t1.len() && #[trigger] clause_has_var(learnt, t1[k].variable) && t1[k].decision_level > r
                ==> t1[k].decision_level == dl,
    ensures
        unit_at(m2, learnt, iu),
        var_at_level(t1, learnt[iu].value, dl),
        forall|k: int| 0 <= k < t2.len() ==> #[trigger] t2[k].variable != learnt[iu].value,
{
    crate::solver::lemma_count_one(t1, dl, learnt);
    let iu = choose|i: int| 0 <= i < learnt.len() && var_at_level(t1, #[trigger] learnt[i].value, dl);
    let u = learnt[iu].value;
    let ku = choose|k: int| 0 <= k < t1.len() && #[trigger] t1[k].variable == u && t1[k].decision_level == dl;
    assert(above_level(t1, r, u));
    assert(u < m1.len());
    assert(m2[u as int] is None);
    assert forall|k: int| 0 <= k < t2.len() implies #[trigger] t2[k].variable != u by {
        assert(t2[k] == t1[k]);
        assert(k < p);
        if t1[k].variable == u {
            if k < ku {
                assert(t1[k].variable != t1[ku].variable);
            } else if ku < k {
                assert(t1[ku].variable != t1[k].variable);
            }
        }
    }
    assert forall|i: int| 0 <= i < learnt.len() && i != iu implies !var_at_level(t1, #[trigger] learnt[i].value, dl) by {
        if var_at_level(t1, learnt[i].value, dl) {
            if i < iu {
                crate::solver::lemma_count_two_pos(t1, dl, learnt, i, iu);
            } else {
                crate::solver::lemma_count_two_pos(t1, dl, learnt, iu, i);
            }
        }
    }
    assert forall|j: int| 0 <= j < learnt.len() && j != iu implies #[trigger] lit_status(m2, learnt[j]) == Some(false) by {
        assert(falsified_by(t1, t1.len() as int, dl, learnt[j]));
        let w = choose|w: int| 0 <= w < t1.len() && #[trigger] t1[w].variable == learnt[j].value && t1[w].value == learnt[j].is_negated && t1[w].decision_level <= dl;
        assert(clause_has_var(learnt, t1[w].variable));
        if t1[w].decision_level > r {
            assert(var_at_level(t1, learnt[j].value, dl));
        }
        assert(t1[w].decision_level <= r);
        assert(!above_level(t1, r, t1[w].variable)) by {
            if above_level(t1, r, t1[w].variable) {
                let q = choose|q: int| 0 <= q < t1.len() && #[trigger] t1[q].variable == t1[w].variable && t1[q].decision_level > r;
                if q < w {
                    assert(t1[q].variable != t1[w].variable);
                } else if w < q {
                    assert(t1[w].variable != t1[q].variable);
                }
            }
        }
        assert(m1[t1[w].variable as int] == Some(t1[w].value));
        assert(m2[learnt[j].value as int] == m1[learnt[j].value as int]);
    }
    iu
}

/// After the jump, no clause that no prefix up to `r` falsified is falsified.
proof fn lemma_jump_not_falsified(
    t1: Seq<EntryView>,
    m1: Seq<Option<bool>>,
    t2: Seq<EntryView>,
    m2: Seq<Option<bool>>,
    r: int,
    p: int,
    c: Seq<Literal>,
)
    requires
        jumped(t1, m1, t2, m2, r, p),
        trail_matches(t1, m1),
        lits_below(c, m1.len() as int),
        !falsified_upto(t1, r, c),
    ensures
        !clause_falsified(m2, c),
{
    if clause_falsified(m2, c) {
        assert forall|i: int| 0 <= i < c.len() implies #[trigger] falsified_by(t1, t1.len() as int, r, c[i]) by {
            assert(lit_status(m2, c[i]) == Some(false));
            let w = c[i].value as int;
            assert(m2[w] is Some);
            assert(!above_level(t1, r, w as usize));
            let k = choose|k: int| 0 <= k < t1.len() && #[trigger] t1[k].variable == w;
            assert(m1[t1[k].variable as int] == Some(t1[k].value));
            assert(t1[k].decision_level <= r);
        }
    }
}

/// The invariant of the search after learning and jumping back.
#[verifier::spinoff_prover]
proof fn lemma_jump_searching(
    s1: Solver,
    s2: Solver,
    f0: Seq<Seq<Literal>>,
    c: Seq<Literal>,
    learnt: Seq<Literal>,
    r: int,
    p: int,
    u: usize,
)
    requires
        s1.searching(f0),
        s1.decision_level >= 1,
        0 <= r < s1.decision_level,
        jumped(s1.trail(), s1.m@, s2.trail(), s2.m@, r, p),
        trail_matches(s2.trail(), s2.m@),
        s2.formula@ == s1.formula@.push(learnt),
        s2.num_vars == s1.num_vars,
        s2.decision_level == r,
        s1.in_formula(c),
        lits_below(learnt, s1.m@.len() as int),
        derived_from(s1.trail(), s1.decision_level as int, c, learnt),
        learnt.contains(Literal { value: u, is_negated: false }) || learnt.contains(Literal { value: u, is_negated: true }),
        forall|k: int| 0 <= k < s2.trail().len() ==> #[trigger] s2.trail()[k].variable != u,
    ensures
        s2.searching(f0),
{
    let t1 = s1.trail();
    let t2 = s2.trail();
    let n = s1.m@.len() as int;
    let dl = s1.decision_level as int;
    let f1 = s1.formula@;
    let f2 = s2.formula@;
    assert forall|k: int| 0 <= k < t2.len() implies #[trigger] t2[k] == t1[k] by {}
    assert forall|k: int| 0 <= k < t2.len() implies #[trigger] t2[k].decision_level <= r by {}
    assert forall|j: int, k: int| 0 <= j <= k < t2.len() implies #[trigger] t2[j].decision_level <= #[trigger] t2[k].decision_level by {
        assert(t1[j].decision_level <= t1[k].decision_level);
    }
    assert forall|k: int| 0 <= k < t2.len() && (#[trigger] t2[k]).antecedent is None implies 1 <= t2[k].decision_level <= k + 1
        && forall|j: int| 0 <= j < k ==> #[trigger] t2[j].decision_level < t2[k].decision_level by {
        assert(t1[k].antecedent is None);
        assert forall|j: int| 0 <= j < k implies #[trigger] t2[j].decision_level < t2[k].decision_level by {
            assert(t1[j].decision_level < t1[k].decision_level);
        }
    }
    assert forall|l: int| 1 <= l <= r implies #[trigger] has_decision(t2, l) by {
        assert(has_decision(t1, l));
        let k = choose|k: int| 0 <= k < t1.len() && #[trigger] t1[k].decision_level == l && t1[k].antecedent is None;
        assert(k < p);
        assert(t2[k] == t1[k]);
    }
    assert forall|k: int| 0 <= k < t2.len() implies #[trigger] justified(t2, k) by {
        assert(justified(t1, k));
        lemma_justified_prefix(t1, p, k);
    }
    assert forall|k: int| 0 <= k < t2.len() && (#[trigger] t2[k]).antecedent is Some implies s2.in_formula(t2[k].antecedent->0) by {
        assert(s1.in_formula(t1[k].antecedent->0));
        let ci = choose|ci: int| 0 <= ci < f1.len() && #[trigger] f1[ci] == t1[k].antecedent->0;
        assert(f2[ci] == f1[ci]);
    }
    assert forall|l: int, ci: int| 0 <= l < r && 0 <= ci < f2.len() implies !#[trigger] falsified_upto(t2, l, f2[ci]) by {
        if falsified_upto(t2, l, f2[ci]) {
            if ci < f1.len() {
                assert forall|i: int| 0 <= i < f1[ci].len() implies #[trigger] falsified_by(t1, t1.len() as int, l, f1[ci][i]) by {
                    assert(f2[ci] == f1[ci]);
                    assert(falsified_by(t2, t2.len() as int, l, f2[ci][i]));
                    let j = choose|j: int| 0 <= j < t2.len() && #[trigger] t2[j].variable == f2[ci][i].value && t2[j].value == f2[ci][i].is_negated && t2[j].decision_level <= l;
                    assert(t2[j] == t1[j]);
                }
                assert(falsified_upto(t1, l, f1[ci]));
            } else {
                assert(f2[ci] == learnt);
                let lu = if learnt.contains(Literal { value: u, is_negated: false }) {
                    Literal { value: u, is_negated: false }
                } else {
                    Literal { value: u, is_negated: true }
                };
                let iu = choose|i: int| 0 <= i < learnt.len() && learnt[i] == lu;
                assert(falsified_by(t2, t2.len() as int, l, learnt[iu]));
                let j = choose|j: int| 0 <= j < t2.len() && #[trigger] t2[j].variable == learnt[iu].value && t2[j].value == learnt[iu].is_negated && t2[j].decision_level <= l;
            }
        }
    }
    assert forall|i: int| 0 <= i < f0.len() implies #[trigger] f2[i] == f0[i] by {
        assert(f1[i] == f0[i]);
    }
    assert forall|ci: int| 0 <= ci < f2.len() implies #[trigger] implied_by(f0, n, f2[ci]) by {
        if ci < f1.len() {
            assert(implied_by(f0, n, f1[ci]));
        } else {
            assert forall|model: Seq<bool>| model.len() == n && #[trigger] model_sat_all(model, f0) implies model_sat(model, f2[ci]) by {
                let cci = choose|cci: int| 0 <= cci < f1.len() && #[trigger] f1[cci] == c;
                assert(implied_by(f0, n, f1[cci]));
                assert(model_sat(model, c));
                assert forall|k: int| 0 <= k < t1.len() && #[trigger] t1[k].decision_level == dl && t1[k].antecedent is Some implies model_sat(model, t1[k].antecedent->0) by {
                    assert(s1.in_formula(t1[k].antecedent->0));
                    let ai = choose|ai: int| 0 <= ai < f1.len() && #[trigger] f1[ai] == t1[k].antecedent->0;
                    assert(implied_by(f0, n, f1[ai]));
                }
                assert(antecedents_hold(model, t1, dl));
            }
        }
    }
    assert forall|ci: int| 0 <= ci < f2.len() implies lits_below(#[trigger] f2[ci], s2.m@.len() as int) by {
        if ci < f1.len() {
            assert(lits_below(f1[ci], n));
        }
    }
}

/// Learning the analysed clause and jumping back to a lower level keeps the search
/// invariant, leaves the learnt clause unit and no clause falsified, and loses less
/// weight than one entry at the new level brings.
pub proof fn lemma_learnt_searching(
    s1: Solver,
    s2: Solver,
    f0: Seq<Seq<Literal>>,
    c: Seq<Literal>,
    learnt: Seq<Literal>,
    r: int,
    pred: spec_fn(Assignment) -> bool,
)
    requires
        s1.searching(f0),
        s1.decision_level >= 1,
        s1.in_formula(c),
        count_at_level(s1.trail(), s1.decision_level as int, learnt) == 1,
        lits_below(learnt, s1.m@.len() as int),
        forall|i: int|
            0 <= i < learnt.len() ==> falsified_by(
                s1.trail(),
                s1.trail().len() as int,
                s1.decision_level as int,
                #[trigger] learnt[i],
            ),
        derived_from(s1.trail(), s1.decision_level as int, c, learnt),
        0 <= r < s1.decision_level,
        forall|k: int|
            0 <= k < s1.trail().len() && #[trigger] clause_has_var(learnt, s1.trail()[k].variable)
                && s1.trail()[k].decision_level > r ==> s1.trail()[k].decision_level == s1.decision_level,
        forall|a: Assignment| #[trigger] pred(a) == !above_level(s1.trail(), r, a.variable),
        s2.formula@ == s1.formula@.push(learnt),
        s2.assignments@ == s1.assignments@.filter(pred),
        s2.m@.len() == s1.m@.len(),
        forall|v: int|
            0 <= v < s1.m@.len() ==> #[trigger] s2.m@[v] == (if above_level(s1.trail(), r, v as usize) {
                None
            } else {
                s1.m@[v]
            }),
        s2.num_vars == s1.num_vars,
        s2.decision_level == r,
    ensures
        s2.searching(f0),
        phi(s1.trail(), s1.m@.len() as nat) < phi(s2.trail(), s1.m@.len() as nat) + weight(s1.m@.len() as nat, r),
        s2.trail().len() < s2.m@.len(),
        exists|i: int| #[trigger] unit_at(s2.m@, s2.formula@[s2.formula@.len() - 1], i),
        forall|ci: int| 0 <= ci < s2.formula@.len() ==> !clause_falsified(s2.m@, #[trigger] s2.formula@[ci]),
{
    let t1 = s1.trail();
    let m1 = s1.m@;
    let t2 = s2.trail();
    let m2 = s2.m@;
    let n = m1.len() as int;
    let dl = s1.decision_level as int;
    let f1 = s1.formula@;
    let f2 = s2.formula@;
    let p = lemma_jump_shape(s1, s2, f0, r, pred);
    let iu = lemma_jump_unit(t1, m1, t2, m2, r, p, learnt, dl);
    let u = learnt[iu].value;
    assert(learnt.contains(Literal { value: u, is_negated: false }) || learnt.contains(Literal { value: u, is_negated: true })) by {
        assert(learnt.contains(learnt[iu]));
    }
    lemma_jump_searching(s1, s2, f0, c, learnt, r, p, u);
    assert(f2[f2.len() - 1] == learnt);
    assert(unit_at(m2, f2[f2.len() - 1], iu));
    lemma_trail_len_bound_strict(t2, m2, u as int);
    assert forall|ci: int| 0 <= ci < f2.len() implies !clause_falsified(m2, #[trigger] f2[ci]) by {
        if ci < f1.len() {
            assert(f2[ci] == f1[ci]);
            assert(lits_below(f1[ci], n));
            assert(!falsified_upto(t1, r, f1[ci]));
            lemma_jump_not_falsified(t1, m1, t2, m2, r, p, f1[ci]);
        } else {
            assert(lit_status(m2, learnt[iu]) is None);
        }
    }
    // the weight lost by the jump
    lemma_level_below_len(s1, f0);
    lemma_trail_len_bound(t1, m1);
    let nn = n as nat;
    lemma_phi_split(t1, p, nn);
    let rest = t1.subrange(p, t1.len() as int);
    assert forall|k: int| 0 <= k < rest.len() implies r + 1 <= #[trigger] rest[k].decision_level <= n by {
        assert(rest[k] == t1[p + k]);
        assert(t1[p + k].decision_level <= dl);
    }
    lemma_phi_above(rest, r, nn);
}

/// A unit clause is neither satisfied nor has two unassigned literals.
proof fn lemma_unit_is_pending(m: Seq<Option<bool>>, c: Seq<Literal>, i: int)
    requires
        unit_at(m, c, i),
    ensures
        !clause_satisfied(m, c),
        !two_unassigned(m, c),
        !clause_falsified(m, c),
{
    if clause_satisfied(m, c) {
        let j = choose|j: int| 0 <= j < c.len() && #[trigger] lit_status(m, c[j]) == Some(true);
    }
    if two_unassigned(m, c) {
        let (a, b) = choose|a: int, b: int| 0 <= a < c.len() && 0 <= b < c.len() && a != b && #[trigger] lit_status(m, c[a]) is None
            && #[trigger] lit_status(m, c[b]) is None;
    }
    assert(lit_status(m, c[i]) is None);
}

/// The levels of the trail lie between 0 and `m.len()`, and it has at most `m.len()` entries.
proof fn lemma_trail_room(s: Solver, f0: Seq<Seq<Literal>>)
    requires
        s.searching(f0),
    ensures
        levels_within(s.trail(), 0, s.m@.len() as int),
        s.trail().len() <= s.m@.len(),
        s.decision_level <= s.m@.len(),
{
    lemma_level_below_len(s, f0);
    lemma_trail_len_bound(s.trail(), s.m@);
    assert forall|k: int| 0 <= k < s.trail().len() implies 0 <= #[trigger] s.trail()[k].decision_level <= s.m@.len() by {}
}

/// Propagation adds weight: at least the weight of the current level when it assigned something.
proof fn lemma_propagation_weight(s0: Solver, s1: Solver)
    requires
        s1.extends_by_propagation(&s0),
    ensures
        phi(s1.trail(), s0.m@.len() as nat) >= phi(s0.trail(), s0.m@.len() as nat),
        s1.assignments@.len() > s0.assignments@.len() ==> phi(s1.trail(), s0.m@.len() as nat)
            >= phi(s0.trail(), s0.m@.len() as nat) + weight(s0.m@.len() as nat, s0.decision_level as int),
{
    let t0 = s0.trail();
    let t1 = s1.trail();
    let n = s0.m@.len() as nat;
    let p = t0.len() as int;
    lemma_phi_split(t1, p, n);
    assert(t1.subrange(0, p) =~= t0);
    if t1.len() > p {
        let rest = t1.subrange(p, t1.len() as int);
        lemma_phi_first(rest, n);
        assert(rest[0] == t1[p]);
    }
}

/// How a search ends: with a model, with a refutation, at a conflict clause on which
/// conflict analysis cannot start (two or more literals at the current level, none of
/// them on a forced variable), or after learning a clause with no literal at the
/// current level.
pub enum SearchEnd {
    Sat(Vec<Assignment>),
    Unsat,
    Stuck,
    Unasserting,
}

impl SearchEnd {
    /// The outcome of the search steps that this end stands for.
    pub open spec fn outcome(&self) -> SearchOutcome {
        match self {
            SearchEnd::Sat(model) => SearchOutcome::Sat(trail_view(model@)),
            SearchEnd::Unsat => SearchOutcome::Unsat,
            SearchEnd::Stuck => SearchOutcome::Stuck,
            SearchEnd::Unasserting => SearchOutcome::Unasserting,
        }
    }
}

/// A copy of a trail, entry by entry.
fn copy_trail(t: &Vec<Assignment>) -> (r: Vec<Assignment>)
    ensures
        trail_view(r@) == trail_view(t@),
{
    let mut out: Vec<Assignment> = Vec::new();
    let mut i: usize = 0;
    while i < t.len()
        invariant
            i <= t@.len(),
            out@.len() == i,
            forall|k: int| 0 <= k < i ==> #[trigger] out@[k]@ == t@[k]@,
        decreases t@.len() - i,
    {
        let a = &t[i];
        let antecedent = match &a.antecedent {
            Some(c) => Some(c.copy_clause()),
            None => None,
        };
        out.push(Assignment { variable: a.variable, value: a.value, decision_level: a.decision_level, antecedent });
        i += 1;
    }
    assert(trail_view(out@) =~= trail_view(t@));
    out
}

impl Solver {
    /// The weight of the trail, with the weight of the current level added while a
    /// learnt clause waits to be propagated.
    pub open spec fn weight_with_pending(&self, pending: bool) -> nat {
        phi(self.trail(), self.m@.len() as nat) + (if pending {
            weight(self.m@.len() as nat, self.decision_level as int)
        } else {
            0
        })
    }

    /// CDCL search: propagate; then, while some variable from 1 on is unassigned,
    /// decide the first one true at the next level and propagate, analysing each
    /// conflict, learning the clause found, and jumping back, until propagation ends
    /// without conflict. `Unsat` when a conflict arises at level 0; `Stuck` when
    /// conflict analysis cannot start on a conflict clause; `Unasserting` when it
    /// learns a clause with no literal at the current level; otherwise the trail.
    #[verifier::rlimit(40)]
    pub fn search(&mut self) -> (r: SearchEnd)
        requires
            old(self).fresh(),
        ensures
            r is Unsat ==> unsatisfiable(old(self).formula@, old(self).num_vars + 1),
            r matches SearchEnd::Sat(model) ==> {
                &&& forall|k: int| 0 <= k < model@.len() ==> #[trigger] model@[k].variable <= old(self).num_vars
                &&& forall|j: int, k: int|
                    0 <= j < k < model@.len() ==> #[trigger] model@[j].variable != #[trigger] model@[k].variable
                &&& forall|v: int| 1 <= v <= old(self).num_vars ==> #[trigger] has_entry(trail_view(model@), v)
                &&& forall|ci: int|
                    0 <= ci < old(self).formula@.len() ==> entries_satisfy(trail_view(model@), #[trigger] old(self).formula@[ci])
                        || mentions_var_zero(old(self).formula@[ci])
            },
            exists|k: nat| #[trigger] search_run(old(self).search_view(), k) == r.outcome(),
    {
        let ghost f0 = self.formula@;
        let ghost n = self.m@.len() as nat;
        let ghost start = self.search_view();
        let ghost mut steps: nat = 0;
        let ghost mut cur: SearchState = start;
        proof {
            lemma_fresh_searching(*self);
        }
        let ghost s0 = *self;
        let first = self.propagate();
        proof {
            lemma_propagated_searching(s0, *self, f0);
            lemma_propagation_result(s0, *self, first);
        }
        match first {
            PropagationStatus::Conflict(c) => {
                proof {
                    lemma_level_zero_refutes(*self, f0, c@);
                    assert(search_run(start, 1) == search_step(start));
                }
                return SearchEnd::Unsat;
            },
            PropagationStatus::Unresolved => {},
        }
        proof {
            lemma_trail_room(*self, f0);
            crate::progress::lemma_phi_below_top(self.trail(), n);
        }
        while !self.all_variables_assigned()
            invariant
                self.searching(f0),
                self.propagation_done(),
                self.m@.len() == n,
                f0 == old(self).formula@,
                n == old(self).num_vars + 1,
                phi(self.trail(), n) < ipow(n + 1, n + 1),
                start == old(self).search_view(),
                search_run(start, steps) == SearchOutcome::Running(cur),
                propagated(cur).m == self.m@,
                propagated(cur).t == self.trail(),
                propagated(cur).conflict is None,
                cur.f == self.formula@,
                cur.lvl == self.decision_level,
            decreases ipow(n + 1, n + 1) - phi(self.trail(), n),
        {
            let ghost phi_head = phi(self.trail(), n);
            let variable = self.decide_variable();
            proof {
                lemma_first_unassigned_is(self.m@, variable as int);
            }
            proof {
                lemma_level_below_len(*self, f0);
                lemma_trail_len_bound_strict(self.trail(), self.m@, variable as int);
            }
            let ghost sd = *self;
            self.decision_level = self.decision_level + 1;
            let ghost sd2 = *self;
            self.assign(variable, true, None);
            proof {
                assert(self.trail() =~= sd.trail().push(EntryView { variable, value: true, decision_level: self.decision_level, antecedent: None }));
                assert(!all_assigned(sd.m@));
                assert(search_step(cur) == SearchOutcome::Running(self.search_view()));
                steps = steps + 1;
                cur = self.search_view();
                lemma_decided_searching(sd, *self, f0, variable);
                lemma_trail_room(*self, f0);
                crate::progress::lemma_phi_below_top(self.trail(), n);
                lemma_ipow_pos(n + 1, (n - self.decision_level) as nat);
            }
            let ghost mut pending: bool = false;
            let mut propagating = true;
            while propagating
                invariant
                    self.searching(f0),
                    self.m@.len() == n,
                    f0 == old(self).formula@,
                    n == old(self).num_vars + 1,
                    propagating ==> phi_head < self.weight_with_pending(pending),
                    propagating ==> self.weight_with_pending(pending) < ipow(n + 1, n + 1),
                    propagating && pending ==> (exists|i: int| #[trigger] unit_at(self.m@, self.formula@[self.formula@.len() - 1], i))
                        && 1 <= self.formula@.len()
                        && forall|ci: int| 0 <= ci < self.formula@.len() ==> !clause_falsified(self.m@, #[trigger] self.formula@[ci]),
                    !propagating ==> self.propagation_done() && phi_head < phi(self.trail(), n) && phi(self.trail(), n) < ipow(n + 1, n + 1),
                    start == old(self).search_view(),
                    search_run(start, steps) == SearchOutcome::Running(cur),
                    propagating ==> cur == self.search_view(),
                    !propagating ==> {
                        &&& propagated(cur).m == self.m@
                        &&& propagated(cur).t == self.trail()
                        &&& propagated(cur).conflict is None
                        &&& cur.f == self.formula@
                        &&& cur.lvl == self.decision_level
                    },
                decreases (if propagating { ipow(n + 1, n + 1) - self.weight_with_pending(pending) + 1 } else { 0 }),
            {
                let ghost sp = *self;
                let ghost psi = self.weight_with_pending(pending);
                let status = self.propagate();
                proof {
                    lemma_propagation_result(sp, *self, status);
                    lemma_propagated_searching(sp, *self, f0);
                    lemma_propagation_weight(sp, *self);
                    lemma_trail_room(*self, f0);
                    if pending {
                        let ci = (self.formula@.len() - 1) as int;
                        let i = choose|i: int| #[trigger] unit_at(sp.m@, sp.formula@[sp.formula@.len() - 1], i);
                        lemma_unit_is_pending(sp.m@, sp.formula@[ci], i);
                        if self.assignments@.len() == sp.assignments@.len() {
                            assert(self.m@ == sp.m@);
                            if status is Conflict {
                                let cc = status->Conflict_0;
                                let cj = choose|cj: int| 0 <= cj < self.formula@.len() && #[trigger] self.formula@[cj] == cc@;
                                assert(!clause_falsified(sp.m@, sp.formula@[cj]));
                            } else {
                                assert(clause_satisfied(self.m@, self.formula@[ci]) || two_unassigned(self.m@, self.formula@[ci]));
                            }
                        }
                    }
                    assert(phi(self.trail(), n) >= psi);
                }
                match status {
                    PropagationStatus::Conflict(conflict_clause) => {
                        let ghost cv = conflict_clause@;
                        proof {
                            lemma_conflict_ready(*self, f0, cv);
                        }
                        let ghost s1 = *self;
                        if self.decision_level > 0 {
                            let cnt = self.literals_at_current_level(&conflict_clause);
                            if cnt > 1 && !self.some_implied(&conflict_clause) {
                                proof {
                                    assert(!Solver::analysis_can_start(s1.trail(), s1.decision_level as int, cv));
                                    assert(search_run(start, steps + 1) == search_step(cur));
                                }
                                return SearchEnd::Stuck;
                            }
                        }
                        let (new_level, learnt) = self.conflict_analysis(conflict_clause);
                        if new_level.is_none() {
                            proof {
                                lemma_level_zero_refutes(*self, f0, cv);
                                assert(search_run(start, steps + 1) == search_step(cur));
                            }
                            return SearchEnd::Unsat;
                        }
                        let lvl = new_level.unwrap();
                        let learnt = learnt.unwrap();
                        let ghost lv = learnt@;
                        proof {
                            let na = choose|na: nat| lv == #[trigger] analysis_steps(s1.trail(), s1.decision_level as int, cv, na);
                            lemma_analysed_is(s1.trail(), s1.decision_level as int, cv, na);
                            assert(Solver::analysis_can_start(s1.trail(), s1.decision_level as int, cv));
                        }
                        if self.literals_at_current_level(&learnt) == 0 {
                            proof {
                                assert(search_run(start, steps + 1) == search_step(cur));
                            }
                            return SearchEnd::Unasserting;
                        }
                        proof {
                            lemma_jump_level_is(s1.trail(), lv, s1.decision_level as int, lvl as int);
                            lemma_jump_below(s1, f0, lv, lvl as int);
                        }
                        self.add_learnt_clause(learnt);
                        let ghost s1b = *self;
                        self.backjump(lvl);
                        self.decision_level = lvl;
                        proof {
                            let pred = |a: Assignment| !above_level(s1b.trail(), lvl as int, a.variable);
                            assert(s1b.trail() == s1.trail());
                            lemma_learnt_searching(s1, *self, f0, cv, lv, lvl as int, pred);
                            lemma_trail_room(*self, f0);
                            crate::progress::lemma_phi_room(self.trail(), lvl as int, n);
                            pending = true;
                            let p = propagated(cur);
                            lemma_view_filter(s1b.assignments@, pred, kept_entry(p.t, lvl as int));
                            let jm = Seq::new(p.m.len(), |v: int| if above_level(p.t, lvl as int, v as usize) { None } else { p.m[v] });
                            assert(self.m@ =~= jm);
                            let js = SearchState {
                                f: cur.f.push(lv),
                                m: jm,
                                t: p.t.filter(kept_entry(p.t, lvl as int)),
                                lvl: lvl,
                            };
                            assert(js == self.search_view());
                            assert(search_step(cur) == SearchOutcome::Running(js));
                            steps = steps + 1;
                            cur = self.search_view();
                        }
                    },
                    PropagationStatus::Unresolved => {
                        proof {
                            crate::progress::lemma_phi_below_top(self.trail(), n);
                        }
                        propagating = false;
                    },
                }
            }
        }
        proof {
            lemma_trail_is_model(*self, f0);
        }
        let model = copy_trail(&self.assignments);
        proof {
            assert(search_step(cur) == SearchOutcome::Sat(trail_view(model@)));
            assert(search_run(start, steps + 1) == search_step(cur));
            assert forall|k: int| 0 <= k < model@.len() implies #[trigger] model@[k].variable <= old(self).num_vars by {
                assert(trail_view(model@)[k] == model@[k]@);
                assert(self.trail()[k].variable <= self.num_vars);
            }
            assert forall|j: int, k: int| 0 <= j < k < model@.len() implies #[trigger] model@[j].variable != #[trigger] model@[k].variable by {
                assert(trail_view(model@)[k] == model@[k]@);
                assert(trail_view(model@)[j] == model@[j]@);
                assert(self.trail()[j].variable != self.trail()[k].variable);
            }
        }
        SearchEnd::Sat(model)
    }

    /// CDCL search on a problem on which it never stops at a conflict that analysis
    /// cannot take (see [`SearchEnd`]): `None` when the problem is unsatisfiable,
    /// otherwise the trail, a model.
    pub fn solve(&mut self) -> (r: Option<Vec<Assignment>>)
        requires
            old(self).fresh(),
            search_never_blocked(old(self).search_view()),
        ensures
            r is None ==> unsatisfiable(old(self).formula@, old(self).num_vars + 1),
            r matches Some(model) ==> {
                &&& forall|k: int| 0 <= k < model@.len() ==> #[trigger] model@[k].variable <= old(self).num_vars
                &&& forall|j: int, k: int|
                    0 <= j < k < model@.len() ==> #[trigger] model@[j].variable != #[trigger] model@[k].variable
                &&& forall|v: int| 1 <= v <= old(self).num_vars ==> #[trigger] has_entry(trail_view(model@), v)
                &&& forall|ci: int|
                    0 <= ci < old(self).formula@.len() ==> entries_satisfy(trail_view(model@), #[trigger] old(self).formula@[ci])
                        || mentions_var_zero(old(self).formula@[ci])
            },
            r is None ==> exists|k: nat| #[trigger] search_run(old(self).search_view(), k) == SearchOutcome::Unsat,
            r matches Some(model) ==> exists|k: nat|
                #[trigger] search_run(old(self).search_view(), k) == SearchOutcome::Sat(trail_view(model@)),
    {
        let ghost start = self.search_view();
        match self.search() {
            SearchEnd::Sat(model) => Some(model),
            SearchEnd::Unsat => None,
            SearchEnd::Stuck => {
                proof {
                    let k = choose|k: nat| #[trigger] search_run(start, k) == SearchOutcome::Stuck;
                }
                None
            },
            SearchEnd::Unasserting => {
                proof {
                    let k = choose|k: nat| #[trigger] search_run(start, k) == SearchOutcome::Unasserting;
                }
                None
            },
        }
    }
}

} // verus!
