//! A simple CDCL framework: its propagation, analysis and backjumping do nothing
//! yet, and its decision always sets variable 1 to true.
use vstd::prelude::*;

use crate::types::{Assignment, Clause, Formula, Literal};
use crate::seqs::lemma_filter_prefix_step;

verus! {

/// A value for each variable, indexed by variable.
pub type Model = Vec<Option<bool>>;

enum PropagationStatus {
    Unresolved,
    Conflict(usize),
}

#[allow(dead_code)]
enum ClauseStatus {
    Satisfied,
    Unsatisfied,
    Unit,
    Unresolved,
}

/// The answer of the solver.
#[derive(Debug)]
pub enum SolverStatus {
    Sat(Model),
    Unsat,
}

/// Every literal of every clause names a variable below `n`.
pub open spec fn lits_within(f: Seq<Seq<Literal>>, n: int) -> bool {
    forall|ci: int, i: int| 0 <= ci < f.len() && 0 <= i < f[ci].len() ==> #[trigger] f[ci][i].variable < n
}

/// Some literal of `c` is made true by `values`.
pub open spec fn clause_true(values: Seq<Option<bool>>, c: Seq<Literal>) -> bool {
    exists|i: int| 0 <= i < c.len() && #[trigger] values[c[i].variable as int] == Some(!c[i].is_negated)
}

/// Every clause has a literal made true by `values`.
pub open spec fn satisfied_by(values: Seq<Option<bool>>, f: Seq<Seq<Literal>>) -> bool {
    forall|ci: int| 0 <= ci < f.len() ==> #[trigger] clause_true(values, f[ci])
}

/// The state of the framework.
#[allow(clippy::upper_case_acronyms)]
pub struct CDCL {
    formula: Formula,
    decision_level: usize,
    assignment: Vec<Option<bool>>,
    m: Vec<Assignment>,
}

/// The status of a clause: not computed yet, every clause is unresolved.
fn clause_status(_clause: &Clause) -> (r: ClauseStatus)
    ensures
        r is Unresolved,
{
    ClauseStatus::Unresolved
}

impl CDCL {
    /// The literals of each clause.
    pub closed spec fn formula_literals(&self) -> Seq<Seq<Literal>> {
        self.formula.clauses_literals()
    }

    /// The value of each variable.
    pub closed spec fn values(&self) -> Seq<Option<bool>> {
        self.assignment@
    }

    /// The current decision level.
    pub closed spec fn level(&self) -> usize {
        self.decision_level
    }

    /// The trail: (level, variable, value) of each entry.
    pub closed spec fn trail(&self) -> Seq<(usize, usize, bool)> {
        self.m@.map_values(|a: Assignment| (a.decision_level, a.variable, a.value))
    }

    /// A framework for `variable_num` variables, with nothing assigned, at level 0.
    pub fn new(variable_num: usize, formula: Formula) -> (r: Self)
        requires
            variable_num < usize::MAX,
        ensures
            r.formula_literals() == formula.clauses_literals(),
            r.values() == Seq::new((variable_num + 1) as nat, |i: int| None::<bool>),
            r.level() == 0,
            r.trail().len() == 0,
    {
        let mut assignment: Vec<Option<bool>> = Vec::new();
        let mut i: usize = 0;
        while i < variable_num + 1
            invariant
                i <= variable_num + 1,
                variable_num < usize::MAX,
                assignment@ == Seq::new(i as nat, |k: int| None::<bool>),
            decreases variable_num + 1 - i,
        {
            assignment.push(None);
            i += 1;
            assert(assignment@ =~= Seq::new(i as nat, |k: int| None::<bool>));
        }
        let r = Self { formula, decision_level: 0, assignment, m: Vec::new() };
        assert(r.trail() =~= Seq::<(usize, usize, bool)>::empty());
        r
    }

    /// Gives `variable` the value `value` at the current level.
    fn assign(&mut self, variable: usize, value: bool)
        requires
            variable < old(self).values().len(),
        ensures
            final(self).values() == old(self).values().update(variable as int, Some(value)),
            final(self).trail() == old(self).trail().push((old(self).level(), variable, value)),
            final(self).level() == old(self).level(),
            final(self).formula_literals() == old(self).formula_literals(),
    {
        self.m.push(Assignment { decision_level: self.decision_level, variable, value });
        self.assignment.set(variable, Some(value));
        assert(self.trail() =~= old(self).trail().push((old(self).level(), variable, value)));
    }

    /// Clears `variable` and drops its entries from the trail.
    fn unassign(&mut self, variable: usize)
        requires
            variable < old(self).values().len(),
        ensures
            final(self).values() == old(self).values().update(variable as int, None),
            final(self).m@ == old(self).m@.filter(|a: Assignment| a.variable != variable),
            final(self).level() == old(self).level(),
            final(self).formula_literals() == old(self).formula_literals(),
    {
        let ghost p = |a: Assignment| a.variable != variable;
        let ghost orig = self.m@;
        let mut i: usize = 0;
        let ghost mut j: int = 0;
        while i < self.m.len()
            invariant
                0 <= j <= orig.len(),
                i == orig.subrange(0, j).filter(p).len(),
                self.m@ == orig.subrange(0, j).filter(p) + orig.subrange(j, orig.len() as int),
                p == (|a: Assignment| a.variable != variable),
                orig == old(self).m@,
                self.assignment == old(self).assignment,
                self.decision_level == old(self).decision_level,
                self.formula == old(self).formula,
            decreases orig.len() - j,
        {
            proof {
                lemma_filter_prefix_step(orig, j, p);
                assert(self.m@[i as int] == orig[j]);
            }
            if self.m[i].variable == variable {
                self.m.remove(i);
                proof {
                    assert(self.m@ =~= orig.subrange(0, j + 1).filter(p) + orig.subrange(j + 1, orig.len() as int));
                    j = j + 1;
                }
            } else {
                proof {
                    assert(self.m@ =~= orig.subrange(0, j + 1).filter(p) + orig.subrange(j + 1, orig.len() as int));
                    j = j + 1;
                }
                i += 1;
            }
        }
        proof {
            orig.subrange(0, j).lemma_filter_len(p);
            assert(j == orig.len()) by {
                if j < orig.len() {
                    assert(self.m@.len() > i);
                }
            }
            assert(orig.subrange(0, j) =~= orig);
            assert(self.m@ =~= orig.filter(p));
        }
        self.assignment.set(variable, None);
    }

    /// The next decision: variable 1, true.
    fn decide(&self) -> (r: (usize, bool))
        ensures
            r == (1usize, true),
    {
        (1, true)
    }

    /// Whether every clause has a literal made true by the current values.
    fn all_clauses_are_satisfied(&self) -> (r: bool)
        requires
            lits_within(self.formula_literals(), self.values().len() as int),
        ensures
            r == satisfied_by(self.values(), self.formula_literals()),
    {
        let ghost f = self.formula_literals();
        let ghost vals = self.values();
        let mut ci: usize = 0;
        while ci < self.formula.clauses.len()
            invariant
                ci <= self.formula.clauses@.len(),
                f == self.formula_literals(),
                vals == self.values(),
                f.len() == self.formula.clauses@.len(),
                lits_within(f, vals.len() as int),
                forall|cj: int| 0 <= cj < ci ==> #[trigger] clause_true(vals, f[cj]),
            decreases self.formula.clauses@.len() - ci,
        {
            let clause = &self.formula.clauses[ci];
            assert(f[ci as int] == clause.literals@);
            let mut satisfied = false;
            let mut i: usize = 0;
            while i < clause.literals.len() && !satisfied
                invariant
                    i <= clause.literals@.len(),
                    f[ci as int] == clause.literals@,
                    0 <= ci < f.len(),
                    vals == self.values(),
                    lits_within(f, vals.len() as int),
                    !satisfied ==> forall|k: int| 0 <= k < i ==> #[trigger] vals[f[ci as int][k].variable as int] != Some(!f[ci as int][k].is_negated),
                    satisfied ==> clause_true(vals, f[ci as int]),
                decreases clause.literals@.len() - i,
            {
                let literal = &clause.literals[i];
                assert(f[ci as int][i as int] == *literal);
                if let Some(value) = self.assignment[literal.variable] {
                    if value != literal.is_negated {
                        satisfied = true;
                        assert(vals[f[ci as int][i as int].variable as int] == Some(!f[ci as int][i as int].is_negated));
                    }
                }
                i += 1;
            }
            if !satisfied {
                proof {
                    if clause_true(vals, f[ci as int]) {
                        let k = choose|k: int| 0 <= k < f[ci as int].len() && #[trigger] vals[f[ci as int][k].variable as int] == Some(!f[ci as int][k].is_negated);
                        assert(vals[f[ci as int][k].variable as int] != Some(!f[ci as int][k].is_negated));
                    }
                }
                return false;
            }
            ci += 1;
        }
        true
    }

    /// Propagation: every clause is unresolved, so nothing is propagated.
    fn propagate(&self) -> (r: PropagationStatus)
        ensures
            r is Unresolved,
    {
        let mut i: usize = 0;
        while i < self.formula.clauses.len()
            decreases self.formula.clauses@.len() - i,
        {
            let _status = clause_status(&self.formula.clauses[i]);
            i += 1;
        }
        PropagationStatus::Unresolved
    }

    /// Appends a learnt clause to the formula.
    fn learn(&mut self, learnt_clause: Clause)
        ensures
            final(self).formula_literals() == old(self).formula_literals().push(learnt_clause.literals@),
            final(self).values() == old(self).values(),
            final(self).level() == old(self).level(),
            final(self).trail() == old(self).trail(),
    {
        self.formula.clauses.push(learnt_clause);
        assert(self.formula.clauses_literals() =~= old(self).formula_literals().push(learnt_clause.literals@));
    }

    /// Backjumping: not done yet, the state is left as it is.
    fn backjump(&mut self, _new_decision_level: usize)
        ensures
            *final(self) == *old(self),
    {
    }

    /// Conflict analysis: not done yet, level 0 and the empty clause.
    fn conflict_analysis(&self, _conflict_clause: usize) -> (r: (usize, Clause))
        ensures
            r.0 == 0,
            r.1.literals@.len() == 0,
    {
        (0, Clause { literals: Vec::new() })
    }

    /// Solves: while some clause is not satisfied, decides variable 1 true at the
    /// next level; propagation never conflicts. The values when every clause is
    /// satisfied are the model.
    pub fn solve(&mut self) -> (r: SolverStatus)
        requires
            lits_within(old(self).formula_literals(), old(self).values().len() as int),
            old(self).level() < usize::MAX,
            satisfied_by(old(self).values(), old(self).formula_literals()) || (1 < old(self).values().len()
                && satisfied_by(old(self).values().update(1, Some(true)), old(self).formula_literals())),
        ensures
            r matches SolverStatus::Sat(model) && model@ == final(self).values(),
            satisfied_by(old(self).values(), old(self).formula_literals()) ==> *final(self) == *old(self),
            !satisfied_by(old(self).values(), old(self).formula_literals()) ==> {
                &&& final(self).values() == old(self).values().update(1, Some(true))
                &&& final(self).level() == old(self).level() + 1
                &&& final(self).trail() == old(self).trail().push(((old(self).level() + 1) as usize, 1usize, true))
                &&& final(self).formula_literals() == old(self).formula_literals()
            },
    {
        let propagation_status = self.propagate();
        if let PropagationStatus::Conflict(_) = propagation_status {
            return SolverStatus::Unsat;
        }
        let ghost start = *self;
        let ghost first = satisfied_by(start.values(), start.formula_literals());
        while !self.all_clauses_are_satisfied()
            invariant
                lits_within(self.formula_literals(), self.values().len() as int),
                self.formula_literals() == start.formula_literals(),
                start.level() < usize::MAX,
                first == satisfied_by(start.values(), start.formula_literals()),
                first ==> *self == start,
                !first ==> 1 < start.values().len() && satisfied_by(start.values().update(1, Some(true)), start.formula_literals()),
                !first && self.values() != start.values() ==> self.values() == start.values().update(1, Some(true))
                    && self.level() == start.level() + 1
                    && self.trail() == start.trail().push(((start.level() + 1) as usize, 1usize, true)),
                !first && self.values() == start.values() ==> *self == start,
            decreases (if satisfied_by(self.values(), self.formula_literals()) { 0int } else { 1int }),
        {
            let (variable, value) = self.decide();
            assert(!satisfied_by(self.values(), self.formula_literals()));
            assert(!first) by {
                if first {
                    assert(*self == start);
                    assert(self.values() == start.values());
                    assert(self.formula_literals() == start.formula_literals());
                }
            }
            assert(self.values() == start.values());
            assert(self.level() == start.level());
            self.decision_level = self.decision_level + 1;
            self.assign(variable, value);
            proof {
                assert(self.values() =~= start.values().update(1, Some(true)));
                if self.values() == start.values() {
                    assert(start.values()[1] == Some(true));
                    assert(satisfied_by(start.values(), start.formula_literals()));
                }
            }
            let ghost after_decision = *self;
            loop
                invariant
                    *self == after_decision,
                ensures
                    *self == after_decision,
                decreases 1int,
            {
                let propagation_status = self.propagate();
                if let PropagationStatus::Conflict(_) = propagation_status {
                    if self.decision_level == 0 {
                        return SolverStatus::Unsat;
                    }
                    let (new_decision_level, learnt_clause) = self.conflict_analysis(0);
                    self.learn(learnt_clause);
                    self.backjump(new_decision_level);
                } else {
                    break;
                }
            }
        }
        SolverStatus::Sat(self.copy_values())
    }

    /// A copy of the values.
    fn copy_values(&self) -> (r: Model)
        ensures
            r@ == self.values(),
    {
        let mut out: Vec<Option<bool>> = Vec::new();
        let mut i: usize = 0;
        while i < self.assignment.len()
            invariant
                i <= self.assignment@.len(),
                out@ == self.assignment@.subrange(0, i as int),
            decreases self.assignment@.len() - i,
        {
            out.push(self.assignment[i]);
            i += 1;
            assert(out@ =~= self.assignment@.subrange(0, i as int));
        }
        assert(out@ =~= self.assignment@);
        out
    }
}

} // verus!
