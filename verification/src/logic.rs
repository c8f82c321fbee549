//! The meaning of partial assignments, clauses and trails, stated as spec functions.
use vstd::prelude::*;

use crate::cnf::{Literal, Clause, Assignment};

verus! {

/// What a trail entry holds, with its antecedent taken by its literals.
pub struct EntryView {
    pub variable: usize,
    pub value: bool,
    pub decision_level: usize,
    pub antecedent: Option<Seq<Literal>>,
}

/// The literals of an optional clause.
pub open spec fn opt_clause_view(c: Option<Clause>) -> Option<Seq<Literal>> {
    match c {
        Some(c) => Some(c@),
        None => None,
    }
}

impl View for Assignment {
    type V = EntryView;

    open spec fn view(&self) -> EntryView {
        EntryView {
            variable: self.variable,
            value: self.value,
            decision_level: self.decision_level,
            antecedent: opt_clause_view(self.antecedent),
        }
    }
}

/// The entries of a trail.
pub open spec fn trail_view(t: Seq<Assignment>) -> Seq<EntryView> {
    t.map_values(|a: Assignment| a@)
}

/// The value of a literal under a partial assignment indexed by variable:
/// `None` while its variable is unassigned.
pub open spec fn lit_status(m: Seq<Option<bool>>, l: Literal) -> Option<bool> {
    match m[l.value as int] {
        Some(v) => Some(v != l.is_negated),
        None => None,
    }
}

/// Every literal of `c` names a variable below `n`.
pub open spec fn lits_below(c: Seq<Literal>, n: int) -> bool {
    forall|i: int| 0 <= i < c.len() ==> #[trigger] c[i].value < n
}

/// Some literal of `c` is true under `m`.
pub open spec fn clause_satisfied(m: Seq<Option<bool>>, c: Seq<Literal>) -> bool {
    exists|i: int| 0 <= i < c.len() && #[trigger] lit_status(m, c[i]) == Some(true)
}

/// Every literal of `c` is false under `m`.
pub open spec fn clause_falsified(m: Seq<Option<bool>>, c: Seq<Literal>) -> bool {
    forall|i: int| 0 <= i < c.len() ==> #[trigger] lit_status(m, c[i]) == Some(false)
}

/// `c[i]` is the one unassigned literal of `c`, and every other literal is false.
pub open spec fn unit_at(m: Seq<Option<bool>>, c: Seq<Literal>, i: int) -> bool {
    &&& 0 <= i < c.len()
    &&& lit_status(m, c[i]) is None
    &&& forall|j: int| 0 <= j < c.len() && j != i ==> #[trigger] lit_status(m, c[j]) == Some(false)
}

/// Two distinct positions of `c` hold unassigned literals.
pub open spec fn two_unassigned(m: Seq<Option<bool>>, c: Seq<Literal>) -> bool {
    exists|i: int, j: int|
        0 <= i < c.len() && 0 <= j < c.len() && i != j && #[trigger] lit_status(m, c[i]) is None
            && #[trigger] lit_status(m, c[j]) is None
}

/// A total assignment, indexed by variable, makes a literal true.
pub open spec fn model_lit(model: Seq<bool>, l: Literal) -> bool {
    model[l.value as int] != l.is_negated
}

/// A total assignment satisfies a clause.
pub open spec fn model_sat(model: Seq<bool>, c: Seq<Literal>) -> bool {
    exists|i: int| 0 <= i < c.len() && #[trigger] model_lit(model, c[i])
}

/// A total assignment satisfies every clause of a formula.
pub open spec fn model_sat_all(model: Seq<bool>, f: Seq<Seq<Literal>>) -> bool {
    forall|i: int| 0 <= i < f.len() ==> #[trigger] model_sat(model, f[i])
}

/// Every total assignment over `n` variables that satisfies `f` satisfies `c`.
pub open spec fn implied_by(f: Seq<Seq<Literal>>, n: int, c: Seq<Literal>) -> bool {
    forall|model: Seq<bool>| model.len() == n && #[trigger] model_sat_all(model, f) ==> model_sat(model, c)
}

/// No total assignment over `n` variables satisfies `f`.
pub open spec fn unsatisfiable(f: Seq<Seq<Literal>>, n: int) -> bool {
    forall|model: Seq<bool>| model.len() == n ==> !#[trigger] model_sat_all(model, f)
}

/// The literal that a trail entry makes true.
pub open spec fn entry_lit(e: EntryView) -> Literal {
    Literal { value: e.variable, is_negated: !e.value }
}

/// Some entry of `t` before position `k`, at a level no higher than `lvl`, makes `l` false.
pub open spec fn falsified_by(t: Seq<EntryView>, k: int, lvl: int, l: Literal) -> bool {
    exists|j: int|
        0 <= j < k && #[trigger] t[j].variable == l.value && t[j].value == l.is_negated
            && t[j].decision_level <= lvl
}

/// The partial assignment and the trail agree: each entry names its own variable,
/// which holds the entry's value, and each assigned variable has an entry.
pub open spec fn trail_matches(t: Seq<EntryView>, m: Seq<Option<bool>>) -> bool {
    &&& forall|k: int|
        0 <= k < t.len() ==> #[trigger] t[k].variable < m.len() && m[t[k].variable as int] == Some(
            t[k].value,
        )
    &&& forall|j: int, k: int| 0 <= j < k < t.len() ==> #[trigger] t[j].variable != #[trigger] t[k].variable
    &&& forall|v: int| 0 <= v < m.len() && (#[trigger] m[v]) is Some ==> exists|k: int|
        0 <= k < t.len() && #[trigger] t[k].variable == v
}

/// Every entry of the trail has a level no higher than `lvl`.
pub open spec fn levels_at_most(t: Seq<EntryView>, lvl: int) -> bool {
    forall|k: int| 0 <= k < t.len() ==> #[trigger] t[k].decision_level <= lvl
}

/// Entry `k` is a decision, or its antecedent holds the literal it makes true and
/// every other literal of the antecedent is made false by an earlier entry at a
/// level no higher than its own.
pub open spec fn justified(t: Seq<EntryView>, k: int) -> bool {
    match t[k].antecedent {
        None => true,
        Some(a) => {
            &&& a.contains(entry_lit(t[k]))
            &&& forall|i: int|
                0 <= i < a.len() ==> #[trigger] a[i] == entry_lit(t[k]) || falsified_by(
                    t,
                    k,
                    t[k].decision_level as int,
                    a[i],
                )
        },
    }
}

/// Entry `k` has an antecedent that holds the literal the entry makes true, and every
/// other literal of the antecedent is made false by an earlier entry.
pub open spec fn reason_holds(t: Seq<EntryView>, k: int) -> bool {
    match t[k].antecedent {
        None => false,
        Some(a) => {
            &&& a.contains(entry_lit(t[k]))
            &&& forall|i: int|
                0 <= i < a.len() ==> #[trigger] a[i] == entry_lit(t[k]) || exists|j: int|
                    0 <= j < k && #[trigger] t[j].variable == a[i].value && t[j].value == a[i].is_negated
        },
    }
}

/// A trail with distinct variables below `m.len()` has at most `m.len()` entries.
pub proof fn lemma_trail_len_bound(t: Seq<EntryView>, m: Seq<Option<bool>>)
    requires
        trail_matches(t, m),
    ensures
        t.len() <= m.len(),
{
    let vars = t.map_values(|e: EntryView| e.variable as int);
    assert(vars.no_duplicates()) by {
        assert forall|i: int, j: int| 0 <= i < vars.len() && 0 <= j < vars.len() && i != j implies vars[i] != vars[j] by {
            if i < j {
                assert(t[i].variable != t[j].variable);
            } else {
                assert(t[j].variable != t[i].variable);
            }
        }
    }
    vars.unique_seq_to_set();
    vstd::set_lib::lemma_int_range(0, m.len() as int);
    assert(vars.to_set().subset_of(vstd::set_lib::set_int_range(0, m.len() as int))) by {
        assert forall|v: int| vars.to_set().contains(v) implies vstd::set_lib::set_int_range(0, m.len() as int).contains(v) by {
            let k = choose|k: int| 0 <= k < vars.len() && vars[k] == v;
            assert(t[k].variable < m.len());
        }
    }
    vstd::set_lib::lemma_len_subset(vars.to_set(), vstd::set_lib::set_int_range(0, m.len() as int));
}

/// With a variable unassigned, the trail has fewer entries than `m.len()`.
pub proof fn lemma_trail_len_bound_strict(t: Seq<EntryView>, m: Seq<Option<bool>>, u: int)
    requires
        trail_matches(t, m),
        0 <= u < m.len(),
        m[u] is None,
    ensures
        t.len() < m.len(),
{
    let vars = t.map_values(|e: EntryView| e.variable as int);
    assert(vars.no_duplicates()) by {
        assert forall|i: int, j: int| 0 <= i < vars.len() && 0 <= j < vars.len() && i != j implies vars[i] != vars[j] by {
            if i < j {
                assert(t[i].variable != t[j].variable);
            } else {
                assert(t[j].variable != t[i].variable);
            }
        }
    }
    vars.unique_seq_to_set();
    let range = vstd::set_lib::set_int_range(0, m.len() as int);
    vstd::set_lib::lemma_int_range(0, m.len() as int);
    assert(vars.to_set().subset_of(range.remove(u))) by {
        assert forall|v: int| vars.to_set().contains(v) implies range.remove(u).contains(v) by {
            let k = choose|k: int| 0 <= k < vars.len() && vars[k] == v;
            assert(t[k].variable < m.len());
            assert(m[t[k].variable as int] == Some(t[k].value));
        }
    }
    vstd::set_lib::lemma_len_subset(vars.to_set(), range.remove(u));
}

/// An unassigned variable has no entry.
pub proof fn lemma_unassigned_has_no_entry(t: Seq<EntryView>, m: Seq<Option<bool>>, v: int)
    requires
        trail_matches(t, m),
        0 <= v < m.len(),
        m[v] is None,
    ensures
        forall|k: int| 0 <= k < t.len() ==> #[trigger] t[k].variable != v,
{
    assert forall|k: int| 0 <= k < t.len() implies #[trigger] t[k].variable != v by {
        if t[k].variable == v {
            assert(m[t[k].variable as int] == Some(t[k].value));
        }
    }
}

/// A reason for an entry stays a reason when entries are appended after it.
pub proof fn lemma_reason_extend(t: Seq<EntryView>, t2: Seq<EntryView>, k: int)
    requires
        0 <= k < t.len() <= t2.len(),
        forall|j: int| 0 <= j < t.len() ==> #[trigger] t2[j] == t[j],
        reason_holds(t, k),
    ensures
        reason_holds(t2, k),
{
    assert(t2[k] == t[k]);
    let a = t[k].antecedent->0;
    assert forall|i: int| 0 <= i < a.len() implies #[trigger] a[i] == entry_lit(t2[k]) || exists|j: int|
        0 <= j < k && #[trigger] t2[j].variable == a[i].value && t2[j].value == a[i].is_negated by {
        if a[i] != entry_lit(t[k]) {
            let j = choose|j: int| 0 <= j < k && #[trigger] t[j].variable == a[i].value && t[j].value == a[i].is_negated;
            assert(t2[j] == t[j]);
        }
    }
}

/// Justification survives appending entries after the justified one.
pub proof fn lemma_justified_extend(t: Seq<EntryView>, t2: Seq<EntryView>, k: int)
    requires
        0 <= k < t.len() <= t2.len(),
        forall|j: int| 0 <= j < t.len() ==> #[trigger] t2[j] == t[j],
        justified(t, k),
    ensures
        justified(t2, k),
{
    assert(t2[k] == t[k]);
    match t[k].antecedent {
        None => {},
        Some(a) => {
            assert forall|i: int| 0 <= i < a.len() implies #[trigger] a[i] == entry_lit(t2[k]) || falsified_by(
                t2,
                k,
                t2[k].decision_level as int,
                a[i],
            ) by {
                if a[i] != entry_lit(t[k]) {
                    assert(falsified_by(t, k, t[k].decision_level as int, a[i]));
                    let j = choose|j: int|
                        0 <= j < k && #[trigger] t[j].variable == a[i].value && t[j].value == a[i].is_negated
                            && t[j].decision_level <= t[k].decision_level;
                    assert(t2[j] == t[j]);
                }
            }
        },
    }
}

/// Assigning the one unassigned literal of a unit clause, at level `lvl`, keeps the
/// trail in agreement with the assignment and justifies the new entry.
pub proof fn lemma_assign_unit(t: Seq<EntryView>, m: Seq<Option<bool>>, lvl: usize, c: Seq<Literal>, i: int)
    requires
        trail_matches(t, m),
        unit_at(m, c, i),
        lits_below(c, m.len() as int),
    ensures
        ({
            let e = EntryView {
                variable: c[i].value,
                value: !c[i].is_negated,
                decision_level: lvl,
                antecedent: Some(c),
            };
            &&& trail_matches(t.push(e), m.update(c[i].value as int, Some(!c[i].is_negated)))
            &&& reason_holds(t.push(e), t.len() as int)
            &&& levels_at_most(t, lvl as int) ==> justified(t.push(e), t.len() as int)
            &&& levels_at_most(t, lvl as int) ==> levels_at_most(t.push(e), lvl as int)
            &&& entry_lit(e) == c[i]
        }),
{
    let e = EntryView {
        variable: c[i].value,
        value: !c[i].is_negated,
        decision_level: lvl,
        antecedent: Some(c),
    };
    let t2 = t.push(e);
    let m2 = m.update(c[i].value as int, Some(!c[i].is_negated));
    let v = c[i].value as int;
    assert(c[i].value < m.len());
    assert(m[v] is None);
    lemma_unassigned_has_no_entry(t, m, v);
    assert(entry_lit(e) == c[i]);
    assert forall|k: int| 0 <= k < t2.len() implies #[trigger] t2[k].variable < m2.len() && m2[t2[k].variable as int] == Some(t2[k].value) by {
        if k < t.len() {
            assert(t2[k] == t[k]);
            assert(t[k].variable != v);
        }
    }
    assert forall|j: int, k: int| 0 <= j < k < t2.len() implies #[trigger] t2[j].variable != #[trigger] t2[k].variable by {
        assert(t2[j] == t[j]);
        if k == t.len() {
            assert(t[j].variable != v);
        } else {
            assert(t2[k] == t[k]);
        }
    }
    assert forall|w: int| 0 <= w < m2.len() && (#[trigger] m2[w]) is Some implies exists|k: int|
        0 <= k < t2.len() && #[trigger] t2[k].variable == w by {
        if w == v {
            assert(t2[t.len() as int].variable == w);
        } else {
            assert(m[w] is Some);
            let k = choose|k: int| 0 <= k < t.len() && #[trigger] t[k].variable == w;
            assert(t2[k] == t[k]);
        }
    }
    assert(c.contains(entry_lit(e))) by {
        assert(c[i] == entry_lit(e));
    }
    assert forall|j: int| #![trigger c[j]] 0 <= j < c.len() && j != i implies exists|k: int|
        0 <= k < t.len() && #[trigger] t2[k].variable == c[j].value && t2[k].value == c[j].is_negated by {
        assert(lit_status(m, c[j]) == Some(false));
        let w = c[j].value as int;
        assert(c[j].value < m.len());
        assert(m[w] is Some);
        let k = choose|k: int| 0 <= k < t.len() && #[trigger] t[k].variable == w;
        assert(m[t[k].variable as int] == Some(t[k].value));
        assert(t2[k] == t[k]);
    }
    assert(t2[t.len() as int] == e);
    assert(reason_holds(t2, t.len() as int)) by {
        assert forall|j: int| 0 <= j < c.len() implies #[trigger] c[j] == entry_lit(t2[t.len() as int]) || exists|k: int|
            0 <= k < t.len() && #[trigger] t2[k].variable == c[j].value && t2[k].value == c[j].is_negated by {
            if j != i {
                let k = choose|k: int| 0 <= k < t.len() && #[trigger] t2[k].variable == c[j].value && t2[k].value == c[j].is_negated;
                assert(t2[k].variable == c[j].value);
            }
        }
    }
    if levels_at_most(t, lvl as int) {
        assert forall|j: int| 0 <= j < c.len() implies #[trigger] c[j] == entry_lit(t2[t.len() as int]) || falsified_by(
            t2,
            t.len() as int,
            t2[t.len() as int].decision_level as int,
            c[j],
        ) by {
            if j != i {
                let k = choose|k: int| 0 <= k < t.len() && #[trigger] t2[k].variable == c[j].value && t2[k].value == c[j].is_negated;
                assert(t2[k] == t[k]);
                assert(t2[k].variable == c[j].value && t2[k].value == c[j].is_negated && t2[k].decision_level <= lvl);
            }
        }
        assert forall|k: int| 0 <= k < t2.len() implies #[trigger] t2[k].decision_level <= lvl by {
            if k < t.len() {
                assert(t2[k] == t[k]);
            }
        }
    }
}

} // verus!
