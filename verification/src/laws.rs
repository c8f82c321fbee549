//! Properties that relate several operations of the solver.
use vstd::prelude::*;

use crate::cnf::{Assignment, Clause};
use crate::logic::{
    EntryView, trail_matches, reason_holds, entry_lit, model_lit, model_sat,
    model_sat_all, lemma_unassigned_has_no_entry,
};
use crate::seqs::{lemma_filter_push, lemma_filter_all};
use crate::solver::{Solver, above_level};

verus! {

/// A total assignment agrees with every entry of a trail.
pub open spec fn agrees_with(model: Seq<bool>, t: Seq<EntryView>) -> bool {
    forall|k: int| 0 <= k < t.len() ==> model[#[trigger] t[k].variable as int] == t[k].value
}

/// Assigning an unassigned variable and then unassigning it gives back the
/// assignment and the trail as they were.
pub proof fn law_unassign_undoes_assign(
    before: Solver,
    assigned: Solver,
    unassigned: Solver,
    variable: usize,
    value: bool,
    antecedent: Option<Clause>,
)
    requires
        trail_matches(before.trail(), before.m@),
        variable < before.m@.len(),
        before.m@[variable as int] is None,
        assigned.m@ == before.m@.update(variable as int, Some(value)),
        assigned.assignments@ == before.assignments@.push(
            Assignment { variable, value, decision_level: before.decision_level, antecedent },
        ),
        unassigned.m@ == assigned.m@.update(variable as int, None),
        unassigned.assignments@ == assigned.assignments@.filter(|a: Assignment| a.variable != variable),
    ensures
        unassigned.m@ == before.m@,
        unassigned.assignments@ == before.assignments@,
{
    let p = |a: Assignment| a.variable != variable;
    let a = Assignment { variable, value, decision_level: before.decision_level, antecedent };
    lemma_filter_push(before.assignments@, a, p);
    lemma_unassigned_has_no_entry(before.trail(), before.m@, variable as int);
    assert forall|i: int| 0 <= i < before.assignments@.len() implies #[trigger] p(before.assignments@[i]) by {
        assert(before.trail()[i] == before.assignments@[i]@);
        assert(before.trail()[i].variable != variable as int);
        assert(before.assignments@[i].variable != variable);
    }
    lemma_filter_all(before.assignments@, p);
    assert(unassigned.m@ =~= before.m@);
}

/// Filtering by predicates that agree on the elements gives the same sequence.
proof fn lemma_filter_agree<A>(s: Seq<A>, p: spec_fn(A) -> bool, q: spec_fn(A) -> bool)
    requires
        forall|i: int| 0 <= i < s.len() ==> p(#[trigger] s[i]) == q(s[i]),
    ensures
        s.filter(p) == s.filter(q),
    decreases s.len(),
{
    reveal(Seq::filter);
    if s.len() > 0 {
        let d = s.drop_last();
        assert forall|i: int| 0 <= i < d.len() implies p(#[trigger] d[i]) == q(d[i]) by {
            assert(d[i] == s[i]);
        }
        lemma_filter_agree(d, p, q);
        assert(s.last() == s[s.len() - 1]);
    }
}

/// On a trail without repeated variables, jumping back to level `lvl` keeps, in
/// order, exactly the entries at or below `lvl`.
pub proof fn law_backjump_keeps_lower_levels(before: Solver, after: Solver, lvl: int)
    requires
        trail_matches(before.trail(), before.m@),
        after.assignments@ == before.assignments@.filter(
            |a: Assignment| !above_level(before.trail(), lvl, a.variable),
        ),
    ensures
        after.assignments@ == before.assignments@.filter(|a: Assignment| a.decision_level <= lvl),
{
    let t = before.trail();
    let s = before.assignments@;
    let p = |a: Assignment| !above_level(t, lvl, a.variable);
    let q = |a: Assignment| a.decision_level <= lvl;
    assert forall|i: int| 0 <= i < s.len() implies p(#[trigger] s[i]) == q(s[i]) by {
        assert(t[i] == s[i]@);
        if above_level(t, lvl, s[i].variable) {
            let j = choose|j: int| 0 <= j < t.len() && #[trigger] t[j].variable == s[i].variable && t[j].decision_level > lvl;
            if j < i {
                assert(t[j].variable != t[i].variable);
            } else if i < j {
                assert(t[i].variable != t[j].variable);
            }
        } else {
            assert(!(t[i].variable == s[i].variable && t[i].decision_level > lvl));
        }
    }
    lemma_filter_agree(s, p, q);
}

/// Jumping back to a level no lower than every level of the trail changes nothing.
pub proof fn law_backjump_to_top_level_keeps_all(before: Solver, after: Solver, lvl: int)
    requires
        forall|k: int| 0 <= k < before.trail().len() ==> #[trigger] before.trail()[k].decision_level <= lvl,
        after.assignments@ == before.assignments@.filter(
            |a: Assignment| !above_level(before.trail(), lvl, a.variable),
        ),
        after.m@.len() == before.m@.len(),
        forall|v: int|
            0 <= v < before.m@.len() ==> #[trigger] after.m@[v] == (if above_level(before.trail(), lvl, v as usize) {
                None
            } else {
                before.m@[v]
            }),
    ensures
        after.assignments@ == before.assignments@,
        after.m@ == before.m@,
{
    let t = before.trail();
    let p = |a: Assignment| !above_level(t, lvl, a.variable);
    assert forall|v: usize| !above_level(t, lvl, v) by {
        if above_level(t, lvl, v) {
            let j = choose|j: int| 0 <= j < t.len() && #[trigger] t[j].variable == v && t[j].decision_level > lvl;
        }
    }
    assert forall|i: int| 0 <= i < before.assignments@.len() implies #[trigger] p(before.assignments@[i]) by {
        assert(!above_level(t, lvl, before.assignments@[i].variable));
    }
    lemma_filter_all(before.assignments@, p);
    assert forall|v: int| 0 <= v < before.m@.len() implies #[trigger] after.m@[v] == before.m@[v] by {
        assert(!above_level(t, lvl, v as usize));
    }
    assert(after.m@ =~= before.m@);
}

/// When not every variable from 1 on is assigned, there is one to decide.
pub proof fn law_decision_possible(s: Solver)
    requires
        !(forall|v: int| 1 <= v < s.m@.len() ==> (#[trigger] s.m@[v]) is Some),
    ensures
        exists|v: int| 1 <= v < s.m@.len() && (#[trigger] s.m@[v]) is None,
{
}

/// Unit propagation assigns only forced values: a total assignment that satisfies
/// every clause and agrees with the trail before propagation agrees with the trail
/// after it.
pub proof fn law_propagation_forced(s0: Solver, s1: Solver, model: Seq<bool>)
    requires
        s1.appends_forced(&s0),
        model.len() == s0.m@.len(),
        model_sat_all(model, s0.formula@),
        agrees_with(model, s0.trail()),
    ensures
        agrees_with(model, s1.trail()),
{
    assert forall|k: int| 0 <= k < s1.trail().len() implies model[#[trigger] s1.trail()[k].variable as int] == s1.trail()[k].value by {
        lemma_propagated_entry_forced(s0, s1, model, k);
    }
}

/// One entry of the trail after propagation agrees with the model.
proof fn lemma_propagated_entry_forced(s0: Solver, s1: Solver, model: Seq<bool>, k: int)
    requires
        s1.appends_forced(&s0),
        model.len() == s0.m@.len(),
        model_sat_all(model, s0.formula@),
        agrees_with(model, s0.trail()),
        0 <= k < s1.trail().len(),
    ensures
        model[s1.trail()[k].variable as int] == s1.trail()[k].value,
    decreases k,
{
    let t0 = s0.trail();
    let t1 = s1.trail();
    if k < t0.len() {
        assert(t1[k] == t0[k]);
    } else {
        let e = t1[k];
        let a = e.antecedent->0;
        assert(reason_holds(t1, k));
        assert(s1.in_formula(a));
        let ci = choose|ci: int| 0 <= ci < s1.formula@.len() && #[trigger] s1.formula@[ci] == a;
        assert(model_sat(model, s0.formula@[ci]));
        let i = choose|i: int| 0 <= i < a.len() && #[trigger] model_lit(model, a[i]);
        if a[i] != entry_lit(e) {
            let j = choose|j: int| 0 <= j < k && #[trigger] t1[j].variable == a[i].value && t1[j].value == a[i].is_negated;
            lemma_propagated_entry_forced(s0, s1, model, j);
        }
    }
}

} // verus!
