//! What conflict analysis relies on and what it establishes, as spec functions and lemmas.
use vstd::prelude::*;

use crate::cnf::Literal;
use crate::logic::{EntryView, falsified_by, model_lit, model_sat};

verus! {

/// Some literal of `c` is on variable `v`.
pub open spec fn clause_has_var(c: Seq<Literal>, v: usize) -> bool {
    exists|i: int| 0 <= i < c.len() && #[trigger] c[i].value == v
}

/// Entry `k` was forced at level `lvl` and its variable occurs in `c`.
pub open spec fn implied_in(t: Seq<EntryView>, lvl: int, c: Seq<Literal>, k: int) -> bool {
    &&& 0 <= k < t.len()
    &&& t[k].decision_level == lvl
    &&& t[k].antecedent is Some
    &&& clause_has_var(c, t[k].variable)
}

/// Variable `v` has a forced entry at level `lvl`.
pub open spec fn forced_at(t: Seq<EntryView>, lvl: int, v: usize) -> bool {
    exists|k: int|
        0 <= k < t.len() && #[trigger] t[k].variable == v && t[k].decision_level == lvl
            && t[k].antecedent is Some
}

/// Each literal of `c` is made false by the trail at a level no higher than `lvl`,
/// or is on a variable forced at level `lvl`.
pub open spec fn false_or_forced(t: Seq<EntryView>, lvl: int, c: Seq<Literal>) -> bool {
    forall|i: int|
        0 <= i < c.len() ==> falsified_by(t, t.len() as int, lvl, #[trigger] c[i]) || forced_at(
            t,
            lvl,
            c[i].value,
        )
}

/// The antecedent of each entry forced at level `lvl` holds, besides literals of
/// the entry's own variable, only literals made false by earlier entries.
pub open spec fn antecedents_fall_earlier(t: Seq<EntryView>, lvl: int) -> bool {
    forall|k: int|
        0 <= k < t.len() && #[trigger] t[k].decision_level == lvl && t[k].antecedent is Some
            ==> forall|i: int|
            0 <= i < t[k].antecedent->0.len() ==> (#[trigger] t[k].antecedent->0[i]).value
                == t[k].variable || falsified_by(t, k, lvl, t[k].antecedent->0[i])
}

/// At most one decision has level `lvl`.
pub open spec fn one_decision_at(t: Seq<EntryView>, lvl: int) -> bool {
    forall|j: int, k: int|
        0 <= j < t.len() && 0 <= k < t.len() && #[trigger] t[j].decision_level == lvl
            && #[trigger] t[k].decision_level == lvl && t[j].antecedent is None
            && t[k].antecedent is None ==> j == k
}

/// Every total assignment that satisfies `c` and the antecedent of every entry
/// forced at level `lvl` satisfies `learnt`.
pub open spec fn derived_from(t: Seq<EntryView>, lvl: int, c: Seq<Literal>, learnt: Seq<Literal>) -> bool {
    forall|model: Seq<bool>|
        #[trigger] model_sat(model, c) && antecedents_hold(model, t, lvl) ==> model_sat(model, learnt)
}

/// A total assignment satisfies the antecedent of every entry forced at level `lvl`.
pub open spec fn antecedents_hold(model: Seq<bool>, t: Seq<EntryView>, lvl: int) -> bool {
    forall|k: int|
        0 <= k < t.len() && #[trigger] t[k].decision_level == lvl && t[k].antecedent is Some
            ==> model_sat(model, t[k].antecedent->0)
}

/// Each literal of `learnt` comes from `c` or from the antecedent of an entry forced at level `lvl`.
pub open spec fn drawn_from(t: Seq<EntryView>, lvl: int, c: Seq<Literal>, learnt: Seq<Literal>) -> bool {
    forall|i: int|
        0 <= i < learnt.len() ==> c.contains(#[trigger] learnt[i]) || exists|k: int|
            0 <= k < t.len() && t[k].decision_level == lvl && t[k].antecedent is Some
                && (#[trigger] t[k].antecedent->0).contains(learnt[i])
}

/// 2 to the power `n`.
pub open spec fn two_pow(n: nat) -> nat
    decreases n,
{
    if n == 0 {
        1
    } else {
        2 * two_pow((n - 1) as nat)
    }
}

/// The sum of `2^k` over the positions `k < n` of the trail whose entry was
/// forced at level `lvl` on a variable of `c`.
pub open spec fn analysis_measure(t: Seq<EntryView>, lvl: int, c: Seq<Literal>, n: int) -> nat
    decreases n,
{
    if n <= 0 {
        0
    } else {
        analysis_measure(t, lvl, c, n - 1) + (if implied_in(t, lvl, c, n - 1) {
            two_pow((n - 1) as nat)
        } else {
            0
        })
    }
}

/// The measure over the first `n` positions is below `2^n`.
pub proof fn lemma_measure_bound(t: Seq<EntryView>, lvl: int, c: Seq<Literal>, n: int)
    requires
        0 <= n,
    ensures
        analysis_measure(t, lvl, c, n) < two_pow(n as nat),
    decreases n,
{
    if n > 0 {
        lemma_measure_bound(t, lvl, c, n - 1);
    }
}

/// The measure over the first `n` positions is 0 when no position below `n` counts.
pub proof fn lemma_measure_zero(t: Seq<EntryView>, lvl: int, c: Seq<Literal>, n: int)
    requires
        0 <= n,
        forall|k: int| 0 <= k < n ==> !implied_in(t, lvl, c, k),
    ensures
        analysis_measure(t, lvl, c, n) == 0,
    decreases n,
{
    if n > 0 {
        lemma_measure_zero(t, lvl, c, n - 1);
    }
}

/// Two clauses that count the same positions from `x` on have measures that differ
/// by what they count below `x`.
pub proof fn lemma_measure_tail(t: Seq<EntryView>, lvl: int, c1: Seq<Literal>, c2: Seq<Literal>, x: int, n: int)
    requires
        0 <= x <= n,
        forall|k: int| x <= k < n ==> implied_in(t, lvl, c1, k) == implied_in(t, lvl, c2, k),
    ensures
        analysis_measure(t, lvl, c1, n) - analysis_measure(t, lvl, c1, x) == analysis_measure(t, lvl, c2, n)
            - analysis_measure(t, lvl, c2, x),
    decreases n - x,
{
    if n > x {
        lemma_measure_tail(t, lvl, c1, c2, x, n - 1);
    }
}

/// The resolvent on the first counted position `x` has a smaller measure.
pub proof fn lemma_measure_decreases(t: Seq<EntryView>, lvl: int, c1: Seq<Literal>, c2: Seq<Literal>, x: int)
    requires
        0 <= x < t.len(),
        implied_in(t, lvl, c1, x),
        !implied_in(t, lvl, c2, x),
        forall|k: int| 0 <= k < x ==> !implied_in(t, lvl, c1, k),
        forall|k: int| x < k < t.len() ==> implied_in(t, lvl, c1, k) == implied_in(t, lvl, c2, k),
    ensures
        analysis_measure(t, lvl, c2, t.len() as int) < analysis_measure(t, lvl, c1, t.len() as int),
{
    lemma_measure_zero(t, lvl, c1, x);
    lemma_measure_bound(t, lvl, c2, x);
    lemma_measure_tail(t, lvl, c1, c2, x + 1, t.len() as int);
    assert(analysis_measure(t, lvl, c1, x + 1) == two_pow(x as nat));
    assert(analysis_measure(t, lvl, c2, x + 1) == analysis_measure(t, lvl, c2, x));
}

/// Resolution is sound: a total assignment that satisfies two clauses that clash
/// on variable `x` (one holds only the positive literal of `x`, the other only the
/// negative one) satisfies their resolvent.
pub proof fn lemma_resolution_sound(
    a: Seq<Literal>,
    b: Seq<Literal>,
    x: usize,
    r: Seq<Literal>,
    pol: bool,
    model: Seq<bool>,
)
    requires
        forall|l: Literal| #[trigger] r.contains(l) <==> ((a.contains(l) || b.contains(l)) && l.value != x),
        forall|i: int| 0 <= i < a.len() && (#[trigger] a[i]).value == x ==> a[i].is_negated == pol,
        forall|i: int| 0 <= i < b.len() && (#[trigger] b[i]).value == x ==> b[i].is_negated == !pol,
        model_sat(model, a),
        model_sat(model, b),
    ensures
        model_sat(model, r),
{
    let i = choose|i: int| 0 <= i < a.len() && #[trigger] model_lit(model, a[i]);
    let j = choose|j: int| 0 <= j < b.len() && #[trigger] model_lit(model, b[j]);
    if a[i].value != x {
        assert(a.contains(a[i]));
        assert(r.contains(a[i]));
        let k = choose|k: int| 0 <= k < r.len() && r[k] == a[i];
        assert(model_lit(model, r[k]));
    } else if b[j].value != x {
        assert(b.contains(b[j]));
        assert(r.contains(b[j]));
        let k = choose|k: int| 0 <= k < r.len() && r[k] == b[j];
        assert(model_lit(model, r[k]));
    } else {
        assert(a[i].is_negated == pol);
        assert(b[j].is_negated == !pol);
    }
}

} // verus!
