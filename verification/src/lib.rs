//! A CDCL SAT solver with a DIMACS reader, verified with Verus.
use vstd::prelude::*;

pub mod analysis;
pub mod cdcl;
pub mod cli;
pub mod cnf;
pub mod dimacs;
pub mod instance;
pub mod laws;
pub mod logic;
pub mod numerals;
pub mod progress;
pub mod run;
pub mod search;
pub mod seqs;
pub mod solver;
pub mod text;
pub mod types;

use crate::cnf::{Assignment, Cnf};
use crate::logic::{lits_below, trail_view, unsatisfiable};
use crate::search::{has_entry, entries_satisfy, mentions_var_zero, SearchEnd};
use crate::run::{SearchOutcome, search_run, search_start, search_never_blocked};
use crate::solver::Solver;

verus! {

/// Solves a problem: `None` when it is unsatisfiable, otherwise a trail that assigns
/// every variable from 1 to `num_vars` once and satisfies every clause (clauses with
/// a literal on variable 0 aside). The answer is the one that the steps of
/// [`run::search_step`] reach from [`run::search_start`].
///
/// The search must never stop at a conflict that analysis cannot take (see
/// [`search::SearchEnd`]); [`search_problem`] runs it on any problem and reports
/// where it stops.
pub fn solve(cnf: Cnf) -> (r: Option<Vec<Assignment>>)
    requires
        cnf.num_vars < usize::MAX,
        forall|ci: int| 0 <= ci < cnf.formula@.len() ==> lits_below(#[trigger] cnf.formula@[ci], cnf.num_vars + 1),
        search_never_blocked(search_start(cnf.formula@, cnf.num_vars as nat)),
    ensures
        r is None ==> unsatisfiable(cnf.formula@, cnf.num_vars + 1),
        r matches Some(model) ==> {
            &&& forall|k: int| 0 <= k < model@.len() ==> #[trigger] model@[k].variable <= cnf.num_vars
            &&& forall|j: int, k: int|
                0 <= j < k < model@.len() ==> #[trigger] model@[j].variable != #[trigger] model@[k].variable
            &&& forall|v: int| 1 <= v <= cnf.num_vars ==> #[trigger] has_entry(trail_view(model@), v)
            &&& forall|ci: int|
                0 <= ci < cnf.formula@.len() ==> entries_satisfy(trail_view(model@), #[trigger] cnf.formula@[ci])
                    || mentions_var_zero(cnf.formula@[ci])
        },
        r is None ==> exists|k: nat|
            #[trigger] search_run(search_start(cnf.formula@, cnf.num_vars as nat), k) == SearchOutcome::Unsat,
        r matches Some(model) ==> exists|k: nat|
            #[trigger] search_run(search_start(cnf.formula@, cnf.num_vars as nat), k) == SearchOutcome::Sat(trail_view(model@)),
{
    let ghost f = cnf.formula@;
    let ghost nv = cnf.num_vars as nat;
    let mut solver = Solver::new(cnf);
    assert(solver.lits_in_range());
    assert(solver.trail() =~= Seq::<crate::logic::EntryView>::empty());
    assert(solver.search_view() == search_start(f, nv));
    solver.solve()
}

/// Runs the search on a problem and says how it ends: with a model, with a
/// refutation, or at a conflict that analysis cannot take (see [`search::SearchEnd`]).
pub fn search_problem(cnf: Cnf) -> (r: SearchEnd)
    requires
        cnf.num_vars < usize::MAX,
        forall|ci: int| 0 <= ci < cnf.formula@.len() ==> lits_below(#[trigger] cnf.formula@[ci], cnf.num_vars + 1),
    ensures
        r is Unsat ==> unsatisfiable(cnf.formula@, cnf.num_vars + 1),
        r matches SearchEnd::Sat(model) ==> {
            &&& forall|k: int| 0 <= k < model@.len() ==> #[trigger] model@[k].variable <= cnf.num_vars
            &&& forall|j: int, k: int|
                0 <= j < k < model@.len() ==> #[trigger] model@[j].variable != #[trigger] model@[k].variable
            &&& forall|v: int| 1 <= v <= cnf.num_vars ==> #[trigger] has_entry(trail_view(model@), v)
            &&& forall|ci: int|
                0 <= ci < cnf.formula@.len() ==> entries_satisfy(trail_view(model@), #[trigger] cnf.formula@[ci])
                    || mentions_var_zero(cnf.formula@[ci])
        },
        exists|k: nat| #[trigger] search_run(search_start(cnf.formula@, cnf.num_vars as nat), k) == r.outcome(),
{
    let ghost f = cnf.formula@;
    let ghost nv = cnf.num_vars as nat;
    let mut solver = Solver::new(cnf);
    assert(solver.lits_in_range());
    assert(solver.trail() =~= Seq::<crate::logic::EntryView>::empty());
    assert(solver.search_view() == search_start(f, nv));
    solver.search()
}

} // verus!
