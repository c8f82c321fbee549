//! A CDCL solver: unit propagation, conflict analysis by resolution, clause
//! learning and backjumping.
use vstd::prelude::*;

use crate::cnf::{Literal, Clause, Formula, Cnf, Assignment, lit_lt, literal_less};
use crate::logic::{EntryView, entry_lit, falsified_by, model_sat, lits_below, lit_status, clause_satisfied, clause_falsified, unit_at, two_unassigned, trail_view, trail_matches, levels_at_most, justified, reason_holds, lemma_trail_len_bound, lemma_assign_unit, lemma_justified_extend, lemma_reason_extend};
use crate::analysis::{clause_has_var, implied_in, forced_at, false_or_forced, antecedents_fall_earlier, one_decision_at, derived_from, antecedents_hold, drawn_from, analysis_measure, lemma_measure_decreases, lemma_resolution_sound};
use crate::seqs::{lemma_filter_prefix_step, lemma_filter_filter, lemma_filter_same, lemma_filter_all};

verus! {

/// The state of a clause under the current partial assignment.
pub enum ClauseStatus {
    Satisfied,
    Unsatisfied,
    Unit(Literal),
    Unresolved,
}

/// The outcome of unit propagation.
pub enum PropagationStatus {
    Unresolved,
    Conflict(Clause),
}

/// The state of the solver.
pub struct Solver {
    /// The clauses: those of the problem, then the learnt ones.
    pub formula: Formula,
    pub num_vars: usize,
    /// The trail, in the order in which the variables were assigned.
    pub assignments: Vec<Assignment>,
    /// The value of each variable, indexed by variable (position 0 is unused).
    pub m: Vec<Option<bool>>,
    pub decision_level: usize,
}

/// `c` holds a literal of variable `v` whose entry in `t` has level `lvl`.
pub open spec fn var_at_level(t: Seq<EntryView>, v: usize, lvl: int) -> bool {
    exists|k: int| 0 <= k < t.len() && #[trigger] t[k].variable == v && t[k].decision_level == lvl
}

/// The number of positions of `c` whose variable has an entry at level `lvl`.
pub open spec fn count_at_level(t: Seq<EntryView>, lvl: int, c: Seq<Literal>) -> nat
    decreases c.len(),
{
    if c.len() == 0 {
        0
    } else {
        count_at_level(t, lvl, c.drop_last()) + (if var_at_level(t, c.last().value, lvl) {
            1nat
        } else {
            0nat
        })
    }
}

/// Strictly increasing in the order of literals, so without repetition.
pub open spec fn sorted_lits(s: Seq<Literal>) -> bool {
    forall|i: int, j: int| 0 <= i < j < s.len() ==> lit_lt(#[trigger] s[i], #[trigger] s[j])
}

/// `s` lists, in increasing order, exactly the literals of `a` and `b` that are
/// not on variable `x`.
pub open spec fn is_resolvent(a: Seq<Literal>, b: Seq<Literal>, x: usize, s: Seq<Literal>) -> bool {
    &&& sorted_lits(s)
    &&& forall|l: Literal| #[trigger] s.contains(l) <==> ((a.contains(l) || b.contains(l)) && l.value != x)
}

/// The resolvent of `a` and `b` on variable `x`: the increasing list that
/// [`is_resolvent`] describes (there is exactly one, by [`lemma_sorted_unique`]).
pub open spec fn resolvent(a: Seq<Literal>, b: Seq<Literal>, x: usize) -> Seq<Literal> {
    choose|s: Seq<Literal>| is_resolvent(a, b, x, s)
}

/// The first position of `t` whose entry was forced at level `lvl` on a variable of `c`.
pub open spec fn first_implied_at(t: Seq<EntryView>, lvl: int, c: Seq<Literal>) -> int {
    choose|k: int| implied_in(t, lvl, c, k) && forall|j: int| 0 <= j < k ==> !implied_in(t, lvl, c, j)
}

/// The clause that conflict analysis holds after `n` rounds, starting from `c`: each
/// round, while more than one literal of the clause is on a variable of level `lvl`,
/// resolves it with the antecedent of the first entry of the trail forced at that
/// level on one of its variables.
pub open spec fn analysis_steps(t: Seq<EntryView>, lvl: int, c: Seq<Literal>, n: nat) -> Seq<Literal>
    decreases n,
{
    if n == 0 {
        c
    } else {
        let p = analysis_steps(t, lvl, c, (n - 1) as nat);
        if count_at_level(t, lvl, p) <= 1 {
            p
        } else {
            let k = first_implied_at(t, lvl, p);
            resolvent(p, t[k].antecedent->0, t[k].variable)
        }
    }
}

/// Where unit propagation stands: the assignment, the trail, the position of the
/// clause found falsified (if any), and whether the current pass assigned anything.
pub struct PassState {
    pub m: Seq<Option<bool>>,
    pub t: Seq<EntryView>,
    pub conflict: Option<int>,
    pub changed: bool,
}

/// The position of the one unassigned literal of a unit clause.
pub open spec fn unit_pos(m: Seq<Option<bool>>, c: Seq<Literal>) -> int {
    choose|i: int| unit_at(m, c, i)
}

/// The state after visiting clause `ci` of `f`: a satisfied clause changes nothing, a
/// falsified one records the conflict, a unit one assigns its unassigned literal at
/// level `lvl` with the clause as antecedent, any other changes nothing.
pub open spec fn visit_clause(f: Seq<Seq<Literal>>, lvl: usize, s: PassState, ci: int) -> PassState {
    let c = f[ci];
    if clause_satisfied(s.m, c) {
        s
    } else if clause_falsified(s.m, c) {
        PassState { conflict: Some(ci), ..s }
    } else if exists|i: int| unit_at(s.m, c, i) {
        let l = c[unit_pos(s.m, c)];
        PassState {
            m: s.m.update(l.value as int, Some(!l.is_negated)),
            t: s.t.push(EntryView { variable: l.value, value: !l.is_negated, decision_level: lvl, antecedent: Some(c) }),
            conflict: None,
            changed: true,
        }
    } else {
        s
    }
}

/// The state after a pass over the first `i` clauses of `f`, starting from `m` and `t`;
/// the pass stops at the first falsified clause.
pub open spec fn pass_upto(f: Seq<Seq<Literal>>, lvl: usize, m: Seq<Option<bool>>, t: Seq<EntryView>, i: nat) -> PassState
    decreases i,
{
    if i == 0 {
        PassState { m, t, conflict: None, changed: false }
    } else {
        let s = pass_upto(f, lvl, m, t, (i - 1) as nat);
        if s.conflict is Some {
            s
        } else {
            visit_clause(f, lvl, s, i - 1)
        }
    }
}

/// The state of unit propagation after `n` passes over all of `f`: passes go on
/// while the last one assigned something and found no falsified clause.
pub open spec fn prop_rounds(f: Seq<Seq<Literal>>, lvl: usize, m: Seq<Option<bool>>, t: Seq<EntryView>, n: nat) -> PassState
    decreases n,
{
    if n == 0 {
        PassState { m, t, conflict: None, changed: true }
    } else {
        let p = prop_rounds(f, lvl, m, t, (n - 1) as nat);
        if p.conflict is Some || !p.changed {
            p
        } else {
            pass_upto(f, lvl, p.m, p.t, f.len())
        }
    }
}

/// A unit clause has one unit position.
pub proof fn lemma_unit_pos_is(m: Seq<Option<bool>>, c: Seq<Literal>, i: int)
    requires
        unit_at(m, c, i),
    ensures
        unit_pos(m, c) == i,
{
    let k = unit_pos(m, c);
    assert(unit_at(m, c, k));
    if k != i {
        assert(lit_status(m, c[k]) == Some(false));
    }
}

/// Once a pass has found a falsified clause, the rest of the pass changes nothing.
pub proof fn lemma_pass_stops(f: Seq<Seq<Literal>>, lvl: usize, m: Seq<Option<bool>>, t: Seq<EntryView>, i: nat, j: nat)
    requires
        i <= j,
        pass_upto(f, lvl, m, t, i).conflict is Some,
    ensures
        pass_upto(f, lvl, m, t, j) == pass_upto(f, lvl, m, t, i),
    decreases j - i,
{
    if j > i {
        lemma_pass_stops(f, lvl, m, t, i, (j - 1) as nat);
    }
}

/// Once propagation has stopped, further passes change nothing.
pub proof fn lemma_rounds_settle(f: Seq<Seq<Literal>>, lvl: usize, m: Seq<Option<bool>>, t: Seq<EntryView>, n: nat, k: nat)
    requires
        n <= k,
        prop_rounds(f, lvl, m, t, n).conflict is Some || !prop_rounds(f, lvl, m, t, n).changed,
    ensures
        prop_rounds(f, lvl, m, t, k) == prop_rounds(f, lvl, m, t, n),
    decreases k - n,
{
    if k > n {
        lemma_rounds_settle(f, lvl, m, t, n, (k - 1) as nat);
    }
}

/// Unit propagation has one outcome: two numbers of passes after which it has
/// stopped give the same state.
pub proof fn lemma_propagation_outcome_unique(f: Seq<Seq<Literal>>, lvl: usize, m: Seq<Option<bool>>, t: Seq<EntryView>, n1: nat, n2: nat)
    requires
        prop_rounds(f, lvl, m, t, n1).conflict is Some || !prop_rounds(f, lvl, m, t, n1).changed,
        prop_rounds(f, lvl, m, t, n2).conflict is Some || !prop_rounds(f, lvl, m, t, n2).changed,
    ensures
        prop_rounds(f, lvl, m, t, n1) == prop_rounds(f, lvl, m, t, n2),
{
    if n1 <= n2 {
        lemma_rounds_settle(f, lvl, m, t, n1, n2);
    } else {
        lemma_rounds_settle(f, lvl, m, t, n2, n1);
    }
}

/// Two increasing lists of literals with the same elements are equal.
pub proof fn lemma_sorted_unique(s1: Seq<Literal>, s2: Seq<Literal>)
    requires
        sorted_lits(s1),
        sorted_lits(s2),
        forall|l: Literal| s1.contains(l) <==> s2.contains(l),
    ensures
        s1 == s2,
    decreases s1.len(),
{
    if s1.len() == 0 {
        if s2.len() > 0 {
            assert(s2.contains(s2[0]));
        }
        assert(s1 =~= s2);
    } else {
        assert(s1.contains(s1[0]));
        assert(s2.len() > 0);
        assert(s2.contains(s2[0]));
        let j = choose|j: int| 0 <= j < s1.len() && s1[j] == s2[0];
        let i = choose|i: int| 0 <= i < s2.len() && s2[i] == s1[0];
        if j > 0 {
            assert(lit_lt(s1[0], s1[j]));
            if i > 0 {
                assert(lit_lt(s2[0], s2[i]));
            }
        }
        assert(s1[0] == s2[0]);
        let t1 = s1.drop_first();
        let t2 = s2.drop_first();
        assert forall|l: Literal| t1.contains(l) <==> t2.contains(l) by {
            if t1.contains(l) {
                let a = choose|a: int| 0 <= a < t1.len() && t1[a] == l;
                assert(s1[a + 1] == l);
                assert(lit_lt(s1[0], s1[a + 1]));
                assert(s2.contains(l));
                let b = choose|b: int| 0 <= b < s2.len() && s2[b] == l;
                assert(b != 0);
                assert(t2[b - 1] == l);
            }
            if t2.contains(l) {
                let a = choose|a: int| 0 <= a < t2.len() && t2[a] == l;
                assert(s2[a + 1] == l);
                assert(lit_lt(s2[0], s2[a + 1]));
                assert(s1.contains(l));
                let b = choose|b: int| 0 <= b < s1.len() && s1[b] == l;
                assert(b != 0);
                assert(t1[b - 1] == l);
            }
        }
        lemma_sorted_unique(t1, t2);
        assert(s1 =~= s2) by {
            assert forall|k: int| 0 <= k < s1.len() implies s1[k] == s2[k] by {
                if k > 0 {
                    assert(t1[k - 1] == t2[k - 1]);
                }
            }
        }
    }
}

/// A list that [`is_resolvent`] describes is the resolvent.
pub proof fn lemma_resolvent_is(a: Seq<Literal>, b: Seq<Literal>, x: usize, s: Seq<Literal>)
    requires
        is_resolvent(a, b, x, s),
    ensures
        resolvent(a, b, x) == s,
{
    let r = resolvent(a, b, x);
    assert(is_resolvent(a, b, x, r));
    lemma_sorted_unique(r, s);
}

/// A first forced position on a variable of `c` is the one [`first_implied_at`] names.
pub proof fn lemma_first_implied_is(t: Seq<EntryView>, lvl: int, c: Seq<Literal>, x: int)
    requires
        implied_in(t, lvl, c, x),
        forall|j: int| 0 <= j < x ==> !implied_in(t, lvl, c, j),
    ensures
        first_implied_at(t, lvl, c) == x,
{
    let k = first_implied_at(t, lvl, c);
    assert(implied_in(t, lvl, c, k) && forall|j: int| 0 <= j < k ==> !implied_in(t, lvl, c, j));
    if k < x {
        assert(!implied_in(t, lvl, c, k));
    } else if x < k {
        assert(!implied_in(t, lvl, c, x));
    }
}

/// Once a round leaves at most one literal at level `lvl`, further rounds change nothing.
pub proof fn lemma_analysis_settles(t: Seq<EntryView>, lvl: int, c: Seq<Literal>, n: nat, m: nat)
    requires
        n <= m,
        count_at_level(t, lvl, analysis_steps(t, lvl, c, n)) <= 1,
    ensures
        analysis_steps(t, lvl, c, m) == analysis_steps(t, lvl, c, n),
    decreases m - n,
{
    if m > n {
        lemma_analysis_settles(t, lvl, c, n, (m - 1) as nat);
    }
}

/// Conflict analysis has one outcome: two numbers of rounds after which at most one
/// literal is at level `lvl` give the same clause.
pub proof fn lemma_analysis_outcome_unique(t: Seq<EntryView>, lvl: int, c: Seq<Literal>, n1: nat, n2: nat)
    requires
        count_at_level(t, lvl, analysis_steps(t, lvl, c, n1)) <= 1,
        count_at_level(t, lvl, analysis_steps(t, lvl, c, n2)) <= 1,
    ensures
        analysis_steps(t, lvl, c, n1) == analysis_steps(t, lvl, c, n2),
{
    if n1 <= n2 {
        lemma_analysis_settles(t, lvl, c, n1, n2);
    } else {
        lemma_analysis_settles(t, lvl, c, n2, n1);
    }
}

/// The variables whose entries `t` holds above level `lvl`.
pub open spec fn above_level(t: Seq<EntryView>, lvl: int, v: usize) -> bool {
    exists|k: int| 0 <= k < t.len() && #[trigger] t[k].variable == v && t[k].decision_level > lvl
}

/// Inserts `l` into a strictly increasing list of literals, unless it is there.
fn insert_sorted(out: &mut Vec<Literal>, l: Literal)
    requires
        sorted_lits(old(out)@),
    ensures
        sorted_lits(final(out)@),
        forall|x: Literal| #[trigger] final(out)@.contains(x) <==> (old(out)@.contains(x) || x == l),
{
    let mut p: usize = 0;
    while p < out.len() && literal_less(&out[p], &l)
        invariant
            p <= out@.len(),
            out@ == old(out)@,
            sorted_lits(out@),
            forall|i: int| 0 <= i < p ==> lit_lt(#[trigger] out@[i], l),
        decreases out@.len() - p,
    {
        p += 1;
    }
    if p < out.len() && out[p] == l {
        return;
    }
    proof {
        if p < out@.len() {
            assert(!lit_lt(out@[p as int], l) && out@[p as int] != l);
            assert(lit_lt(l, out@[p as int]));
        }
    }
    let ghost before = out@;
    out.insert(p, l);
    proof {
        assert(out@ =~= before.subrange(0, p as int).push(l) + before.subrange(p as int, before.len() as int));
        assert forall|i: int, j: int| 0 <= i < j < out@.len() implies lit_lt(#[trigger] out@[i], #[trigger] out@[j]) by {
            if j < p {
            } else if j == p {
            } else if i < p {
                assert(lit_lt(out@[i], l));
                assert(lit_lt(before[p as int], before[j - 1]) || j - 1 == p);
            } else if i == p {
                assert(lit_lt(before[p as int], before[j - 1]) || j - 1 == p);
            } else {
            }
        }
        assert forall|x: Literal| #[trigger] out@.contains(x) <==> (before.contains(x) || x == l) by {
            if out@.contains(x) {
                let k = choose|k: int| 0 <= k < out@.len() && out@[k] == x;
                if k < p {
                    assert(before[k] == x);
                } else if k > p {
                    assert(before[k - 1] == x);
                }
            }
            if before.contains(x) {
                let k = choose|k: int| 0 <= k < before.len() && before[k] == x;
                if k < p {
                    assert(out@[k] == x);
                } else {
                    assert(out@[k + 1] == x);
                }
            }
            if x == l {
                assert(out@[p as int] == x);
            }
        }
    }
}

/// Two distinct positions of `c` are counted when the count is at least two.
proof fn lemma_count_two(t: Seq<EntryView>, lvl: int, c: Seq<Literal>)
    requires
        count_at_level(t, lvl, c) >= 2,
    ensures
        exists|i: int, j: int|
            0 <= i < j < c.len() && var_at_level(t, #[trigger] c[i].value, lvl) && var_at_level(
                t,
                #[trigger] c[j].value,
                lvl,
            ),
    decreases c.len(),
{
    let p = c.drop_last();
    if var_at_level(t, c.last().value, lvl) {
        lemma_count_one(t, lvl, p);
        let i = choose|i: int| 0 <= i < p.len() && var_at_level(t, #[trigger] p[i].value, lvl);
        assert(c[i] == p[i]);
        assert(c[c.len() - 1] == c.last());
    } else {
        lemma_count_two(t, lvl, p);
        let (i, j) = choose|i: int, j: int|
            0 <= i < j < p.len() && var_at_level(t, #[trigger] p[i].value, lvl) && var_at_level(
                t,
                #[trigger] p[j].value,
                lvl,
            );
        assert(c[i] == p[i] && c[j] == p[j]);
    }
}

/// Some position of `c` is counted when the count is positive.
pub proof fn lemma_count_one(t: Seq<EntryView>, lvl: int, c: Seq<Literal>)
    requires
        count_at_level(t, lvl, c) >= 1,
    ensures
        exists|i: int| 0 <= i < c.len() && var_at_level(t, #[trigger] c[i].value, lvl),
    decreases c.len(),
{
    let p = c.drop_last();
    if var_at_level(t, c.last().value, lvl) {
        assert(c[c.len() - 1] == c.last());
    } else {
        lemma_count_one(t, lvl, p);
        let i = choose|i: int| 0 <= i < p.len() && var_at_level(t, #[trigger] p[i].value, lvl);
        assert(c[i] == p[i]);
    }
}

/// The count is positive when some position is counted.
pub proof fn lemma_count_pos(t: Seq<EntryView>, lvl: int, c: Seq<Literal>, i: int)
    requires
        0 <= i < c.len(),
        var_at_level(t, c[i].value, lvl),
    ensures
        count_at_level(t, lvl, c) >= 1,
    decreases c.len(),
{
    if i < c.len() - 1 {
        assert(c.drop_last()[i] == c[i]);
        lemma_count_pos(t, lvl, c.drop_last(), i);
    }
}

/// Two distinct counted positions make a count of at least two.
pub proof fn lemma_count_two_pos(t: Seq<EntryView>, lvl: int, c: Seq<Literal>, i: int, j: int)
    requires
        0 <= i < j < c.len(),
        var_at_level(t, c[i].value, lvl),
        var_at_level(t, c[j].value, lvl),
    ensures
        count_at_level(t, lvl, c) >= 2,
    decreases c.len(),
{
    let d = c.drop_last();
    if j < c.len() - 1 {
        assert(d[i] == c[i] && d[j] == c[j]);
        lemma_count_two_pos(t, lvl, d, i, j);
    } else {
        assert(d[i] == c[i]);
        assert(c.last() == c[j]);
        lemma_count_pos(t, lvl, d, i);
    }
}

/// Some entry has level `l`.
pub open spec fn has_level(t: Seq<EntryView>, l: int) -> bool {
    exists|k: int| 0 <= k < t.len() && #[trigger] t[k].decision_level == l
}

/// Some entry of `t` on a variable of `c` has level `l`.
pub open spec fn clause_level(t: Seq<EntryView>, c: Seq<Literal>, l: int) -> bool {
    exists|k: int| 0 <= k < t.len() && #[trigger] clause_has_var(c, t[k].variable) && t[k].decision_level == l
}

/// The entries of `t` on the variables of `c` have at least two distinct levels.
pub open spec fn levels_spread(t: Seq<EntryView>, c: Seq<Literal>) -> bool {
    exists|l1: int, l2: int| #[trigger] clause_level(t, c, l1) && #[trigger] clause_level(t, c, l2) && l1 != l2
}

/// `r` is the level to jump back to after learning `c` at level `lvl`: the
/// second-highest level of the entries on the variables of `c` when they have two or
/// more distinct levels; otherwise the highest level of the trail below `lvl`, or 0
/// when the trail has none.
pub open spec fn is_jump_level(t: Seq<EntryView>, c: Seq<Literal>, lvl: int, r: int) -> bool {
    if levels_spread(t, c) {
        &&& clause_level(t, c, r)
        &&& exists|l: int| #[trigger] clause_level(t, c, l) && l > r
        &&& forall|l1: int, l2: int|
            #[trigger] clause_level(t, c, l1) && #[trigger] clause_level(t, c, l2) && l1 > r && l2 > r ==> l1 == l2
    } else {
        &&& 0 <= r < lvl
        &&& (r == 0 || has_level(t, r))
        &&& forall|k: int| 0 <= k < t.len() && #[trigger] t[k].decision_level < lvl ==> t[k].decision_level <= r
    }
}

impl Solver {
    /// The trail, entry by entry.
    pub open spec fn trail(&self) -> Seq<EntryView> {
        trail_view(self.assignments@)
    }

    /// Every literal of every clause names a variable that `m` holds.
    pub open spec fn lits_in_range(&self) -> bool {
        forall|i: int| 0 <= i < self.formula@.len() ==> lits_below(#[trigger] self.formula@[i], self.m@.len() as int)
    }

    /// A solver for the problem, with nothing assigned, at decision level 0.
    pub fn new(cnf: Cnf) -> (r: Self)
        requires
            cnf.num_vars < usize::MAX,
        ensures
            r.formula@ == cnf.formula@,
            r.num_vars == cnf.num_vars,
            r.assignments@.len() == 0,
            r.m@ == Seq::new((cnf.num_vars + 1) as nat, |i: int| None::<bool>),
            r.decision_level == 0,
    {
        let mut m: Vec<Option<bool>> = Vec::new();
        let mut i: usize = 0;
        while i < cnf.num_vars + 1
            invariant
                i <= cnf.num_vars + 1,
                cnf.num_vars < usize::MAX,
                m@ == Seq::new(i as nat, |k: int| None::<bool>),
            decreases cnf.num_vars + 1 - i,
        {
            m.push(None);
            i += 1;
            assert(m@ =~= Seq::new(i as nat, |k: int| None::<bool>));
        }
        Solver {
            formula: cnf.formula,
            num_vars: cnf.num_vars,
            assignments: Vec::new(),
            m,
            decision_level: 0,
        }
    }

    /// Whether every variable from 1 on has a value (position 0 is not looked at).
    pub fn all_variables_assigned(&self) -> (r: bool)
        ensures
            r == (forall|v: int| 1 <= v < self.m@.len() ==> (#[trigger] self.m@[v]) is Some),
    {
        let mut i: usize = 1;
        while i < self.m.len()
            invariant
                1 <= i,
                forall|v: int| 1 <= v < i && v < self.m@.len() ==> (#[trigger] self.m@[v]) is Some,
            decreases self.m@.len() - i,
        {
            if self.m[i].is_none() {
                return false;
            }
            i += 1;
        }
        true
    }

    /// The first unassigned variable from 1 on.
    pub fn decide_variable(&self) -> (r: usize)
        requires
            exists|v: int| 1 <= v < self.m@.len() && (#[trigger] self.m@[v]) is None,
        ensures
            1 <= r < self.m@.len(),
            self.m@[r as int] is None,
            forall|v: int| 1 <= v < r ==> (#[trigger] self.m@[v]) is Some,
    {
        let mut i: usize = 1;
        while i < self.m.len()
            invariant
                1 <= i,
                exists|v: int| i <= v < self.m@.len() && (#[trigger] self.m@[v]) is None,
                forall|v: int| 1 <= v < i ==> (#[trigger] self.m@[v]) is Some,
            decreases self.m@.len() - i,
        {
            if self.m[i].is_none() {
                return i;
            }
            i += 1;
        }
        i
    }

    /// Gives `variable` the value `value` at the current decision level, and
    /// records the entry on the trail.
    pub fn assign(&mut self, variable: usize, value: bool, antecedent: Option<Clause>)
        requires
            variable < old(self).m@.len(),
        ensures
            final(self).m@ == old(self).m@.update(variable as int, Some(value)),
            final(self).assignments@ == old(self).assignments@.push(
                Assignment { variable, value, decision_level: old(self).decision_level, antecedent },
            ),
            final(self).formula@ == old(self).formula@,
            final(self).formula.clauses@ == old(self).formula.clauses@,
            final(self).num_vars == old(self).num_vars,
            final(self).decision_level == old(self).decision_level,
    {
        self.m.set(variable, Some(value));
        let a = Assignment::new(variable, value, self.decision_level, antecedent);
        self.assignments.push(a);
    }

    /// Clears the value of `variable` and drops its entries from the trail.
    pub fn unassign(&mut self, variable: usize)
        requires
            variable < old(self).m@.len(),
        ensures
            final(self).m@ == old(self).m@.update(variable as int, None),
            final(self).assignments@ == old(self).assignments@.filter(
                |a: Assignment| a.variable != variable,
            ),
            final(self).formula@ == old(self).formula@,
            final(self).formula.clauses@ == old(self).formula.clauses@,
            final(self).num_vars == old(self).num_vars,
            final(self).decision_level == old(self).decision_level,
    {
        self.m.set(variable, None);
        let ghost p = |a: Assignment| a.variable != variable;
        let ghost orig = self.assignments@;
        let mut i: usize = 0;
        let ghost mut j: int = 0;
        while i < self.assignments.len()
            invariant
                0 <= j <= orig.len(),
                i == orig.subrange(0, j).filter(p).len(),
                self.assignments@ == orig.subrange(0, j).filter(p) + orig.subrange(j, orig.len() as int),
                p == (|a: Assignment| a.variable != variable),
                self.m@ == old(self).m@.update(variable as int, None),
                self.formula == old(self).formula,
                self.num_vars == old(self).num_vars,
                self.decision_level == old(self).decision_level,
                orig == old(self).assignments@,
            decreases orig.len() - j,
        {
            proof {
                lemma_filter_prefix_step(orig, j, p);
                assert(self.assignments@[i as int] == orig[j]);
            }
            if self.assignments[i].variable == variable {
                let ghost before = self.assignments@;
                self.assignments.remove(i);
                proof {
                    assert(self.assignments@ =~= orig.subrange(0, j + 1).filter(p) + orig.subrange(j + 1, orig.len() as int));
                    j = j + 1;
                }
            } else {
                proof {
                    assert(self.assignments@ =~= orig.subrange(0, j + 1).filter(p) + orig.subrange(j + 1, orig.len() as int));
                    j = j + 1;
                }
                i += 1;
            }
        }
        proof {
            if j < orig.len() {
                assert(orig.subrange(0, j).filter(p).len() <= j) by {
                    orig.subrange(0, j).lemma_filter_len(p);
                }
            }
            assert(j == orig.len()) by {
                if j < orig.len() {
                    assert(self.assignments@.len() > i);
                }
            }
            assert(orig.subrange(0, j) =~= orig);
            assert(self.assignments@ =~= orig.filter(p));
        }
    }

    /// The value of the variable of `literal`.
    pub fn is_in_assignment(&self, literal: &Literal) -> (r: Option<bool>)
        requires
            literal.value < self.m@.len(),
        ensures
            r == self.m@[literal.value as int],
    {
        self.m[literal.value]
    }

    /// Whether `clause` is satisfied, falsified, unit or neither under the
    /// current assignment.
    pub fn clause_status(&self, clause: &Clause) -> (r: ClauseStatus)
        requires
            lits_below(clause@, self.m@.len() as int),
        ensures
            match r {
                ClauseStatus::Satisfied => clause_satisfied(self.m@, clause@),
                ClauseStatus::Unsatisfied => clause_falsified(self.m@, clause@),
                ClauseStatus::Unit(l) => !clause_satisfied(self.m@, clause@) && exists|i: int|
                    unit_at(self.m@, clause@, i) && #[trigger] clause@[i] == l,
                ClauseStatus::Unresolved => !clause_satisfied(self.m@, clause@) && two_unassigned(
                    self.m@,
                    clause@,
                ),
            },
    {
        let m = &self.m;
        let ghost c = clause@;
        let mut found_true = false;
        let mut num_none: usize = 0;
        let mut first_none: usize = 0;
        let mut second_none: usize = 0;
        let mut i: usize = 0;
        while i < clause.literals.len()
            invariant
                i <= c.len(),
                c == clause@,
                m == &self.m,
                lits_below(c, m@.len() as int),
                num_none <= 2,
                found_true ==> clause_satisfied(m@, c),
                !found_true ==> forall|k: int| 0 <= k < i ==> (#[trigger] lit_status(m@, c[k])) != Some(true),
                num_none >= 1 ==> first_none < i && lit_status(m@, c[first_none as int]) is None,
                num_none >= 2 ==> second_none < i && first_none != second_none && lit_status(m@, c[second_none as int]) is None,
                num_none == 0 ==> forall|k: int| 0 <= k < i ==> (#[trigger] lit_status(m@, c[k])) is Some,
                num_none == 1 ==> forall|k: int| 0 <= k < i && k != first_none ==> (#[trigger] lit_status(m@, c[k])) is Some,
            decreases c.len() - i,
        {
            let lit = clause.literals[i];
            let assigned = self.is_in_assignment(&lit);
            match assigned {
                None => {
                    if num_none == 0 {
                        first_none = i;
                        num_none = 1;
                    } else if num_none == 1 {
                        second_none = i;
                        num_none = 2;
                    }
                },
                Some(val) => {
                    let lit_value = if lit.is_negated { !val } else { val };
                    if lit_value {
                        found_true = true;
                        assert(lit_status(m@, c[i as int]) == Some(true));
                    }
                },
            }
            i += 1;
        }
        if found_true {
            return ClauseStatus::Satisfied;
        }
        if num_none == 0 {
            return ClauseStatus::Unsatisfied;
        }
        if num_none == 1 {
            assert(unit_at(m@, c, first_none as int));
            return ClauseStatus::Unit(clause.literals[first_none]);
        }
        assert(lit_status(m@, c[first_none as int]) is None && lit_status(m@, c[second_none as int]) is None);
        ClauseStatus::Unresolved
    }

    /// The clause of the literals of `a` and `b` that are not on variable `x`,
    /// in increasing order, each once.
    pub fn resolution(&self, a: Clause, b: Clause, x: usize) -> (r: Clause)
        ensures
            is_resolvent(a@, b@, x, r@),
    {
        let mut out: Vec<Literal> = Vec::new();
        let mut i: usize = 0;
        while i < a.literals.len()
            invariant
                i <= a@.len(),
                sorted_lits(out@),
                forall|l: Literal| #[trigger] out@.contains(l) <==> (a@.subrange(0, i as int).contains(l) && l.value != x),
            decreases a@.len() - i,
        {
            let l = a.literals[i];
            let ghost before = out@;
            if l.value != x {
                insert_sorted(&mut out, l);
            }
            assert(forall|y: Literal| #[trigger] out@.contains(y) <==> (before.contains(y) || (l.value != x && y == l)));
            proof {
                let s0 = a@.subrange(0, i as int);
                let s1 = a@.subrange(0, i + 1);
                assert(s1 =~= s0.push(l));
                assert(s1[s0.len() as int] == l);
                assert forall|y: Literal| #[trigger] out@.contains(y) <==> (s1.contains(y) && y.value != x) by {
                    assert(before.contains(y) <==> (s0.contains(y) && y.value != x));
                    if s0.contains(y) {
                        let k = choose|k: int| 0 <= k < s0.len() && s0[k] == y;
                        assert(s1[k] == y);
                    }
                    if s1.contains(y) {
                        let k = choose|k: int| 0 <= k < s1.len() && s1[k] == y;
                        if k < i {
                            assert(s0[k] == y);
                        }
                    }
                }
            }
            i += 1;
        }
        assert(a@.subrange(0, a@.len() as int) =~= a@);
        assert(b@.subrange(0, 0) =~= Seq::<Literal>::empty());
        let mut j: usize = 0;
        while j < b.literals.len()
            invariant
                j <= b@.len(),
                sorted_lits(out@),
                forall|l: Literal| #[trigger] out@.contains(l) <==> ((a@.contains(l) || b@.subrange(0, j as int).contains(l)) && l.value != x),
            decreases b@.len() - j,
        {
            let l = b.literals[j];
            let ghost before = out@;
            if l.value != x {
                insert_sorted(&mut out, l);
            }
            assert(forall|y: Literal| #[trigger] out@.contains(y) <==> (before.contains(y) || (l.value != x && y == l)));
            proof {
                let s0 = b@.subrange(0, j as int);
                let s1 = b@.subrange(0, j + 1);
                assert(s1 =~= s0.push(l));
                assert(s1[s0.len() as int] == l);
                assert forall|y: Literal| #[trigger] out@.contains(y) <==> ((a@.contains(y) || s1.contains(y)) && y.value != x) by {
                    assert(before.contains(y) <==> ((a@.contains(y) || s0.contains(y)) && y.value != x));
                    if s0.contains(y) {
                        let k = choose|k: int| 0 <= k < s0.len() && s0[k] == y;
                        assert(s1[k] == y);
                    }
                    if s1.contains(y) {
                        let k = choose|k: int| 0 <= k < s1.len() && s1[k] == y;
                        if k < j {
                            assert(s0[k] == y);
                        }
                    }
                }
            }
            j += 1;
        }
        proof {
            assert(a@.subrange(0, a@.len() as int) =~= a@);
            assert(b@.subrange(0, b@.len() as int) =~= b@);
        }
        Clause { literals: out }
    }

    /// Whether some entry of the trail for variable `v` has level `lvl`.
    fn has_entry_at_level(&self, v: usize, lvl: usize) -> (r: bool)
        ensures
            r == var_at_level(self.trail(), v, lvl as int),
    {
        let mut k: usize = 0;
        while k < self.assignments.len()
            invariant
                k <= self.assignments@.len(),
                forall|j: int| 0 <= j < k ==> !(#[trigger] self.trail()[j].variable == v && self.trail()[j].decision_level == lvl),
            decreases self.assignments@.len() - k,
        {
            let a = &self.assignments[k];
            assert(self.trail()[k as int] == a@);
            if a.variable == v && a.decision_level == lvl {
                assert(self.trail()[k as int].variable == v);
                return true;
            }
            k += 1;
        }
        false
    }

    /// How many literals of `clause` are on a variable assigned at the current level.
    pub fn literals_at_current_level(&self, clause: &Clause) -> (r: usize)
        ensures
            r == count_at_level(self.trail(), self.decision_level as int, clause@),
    {
        let mut count: usize = 0;
        let mut i: usize = 0;
        while i < clause.literals.len()
            invariant
                i <= clause@.len(),
                count == count_at_level(self.trail(), self.decision_level as int, clause@.subrange(0, i as int)),
                count <= i,
            decreases clause@.len() - i,
        {
            let l = clause.literals[i];
            proof {
                assert(clause@.subrange(0, i + 1).drop_last() =~= clause@.subrange(0, i as int));
            }
            if self.has_entry_at_level(l.value, self.decision_level) {
                count += 1;
            }
            i += 1;
        }
        assert(clause@.subrange(0, clause@.len() as int) =~= clause@);
        count
    }

    /// Unassigns every variable that has an entry above level `new_decision_level`.
    pub fn backjump(&mut self, new_decision_level: usize)
        requires
            forall|k: int|
                0 <= k < old(self).trail().len() && #[trigger] old(self).trail()[k].decision_level
                    > new_decision_level ==> old(self).trail()[k].variable < old(self).m@.len(),
        ensures
            final(self).m@.len() == old(self).m@.len(),
            forall|v: int|
                0 <= v < old(self).m@.len() ==> #[trigger] final(self).m@[v] == (if above_level(
                    old(self).trail(),
                    new_decision_level as int,
                    v as usize,
                ) {
                    None
                } else {
                    old(self).m@[v]
                }),
            final(self).assignments@ == old(self).assignments@.filter(
                |a: Assignment| !above_level(old(self).trail(), new_decision_level as int, a.variable),
            ),
            final(self).formula@ == old(self).formula@,
            final(self).formula.clauses@ == old(self).formula.clauses@,
            final(self).num_vars == old(self).num_vars,
            final(self).decision_level == old(self).decision_level,
    {
        let ghost t0 = self.trail();
        let ghost lvl = new_decision_level as int;
        let mut vars_to_remove: Vec<usize> = Vec::new();
        let mut k: usize = 0;
        while k < self.assignments.len()
            invariant
                k <= self.assignments@.len(),
                t0 == self.trail(),
                lvl == new_decision_level as int,
                forall|v: usize|
                    #[trigger] vars_to_remove@.contains(v) <==> exists|j: int|
                        0 <= j < k && #[trigger] t0[j].variable == v && t0[j].decision_level > lvl,
                forall|i: int| 0 <= i < vars_to_remove@.len() ==> #[trigger] vars_to_remove@[i] < self.m@.len(),
                forall|j: int|
                    0 <= j < t0.len() && #[trigger] t0[j].decision_level > new_decision_level ==> t0[j].variable < self.m@.len(),
            decreases self.assignments@.len() - k,
        {
            let a = &self.assignments[k];
            assert(t0[k as int] == a@);
            let ghost before = vars_to_remove@;
            if a.decision_level > new_decision_level {
                assert(t0[k as int].decision_level > new_decision_level);
                vars_to_remove.push(a.variable);
            }
            proof {
                assert forall|v: usize|
                    #[trigger] vars_to_remove@.contains(v) <==> exists|j: int|
                        0 <= j < k + 1 && #[trigger] t0[j].variable == v && t0[j].decision_level > lvl by {
                    if vars_to_remove@.contains(v) {
                        if !before.contains(v) {
                            assert(vars_to_remove@[before.len() as int] == v);
                            assert(t0[k as int].variable == v);
                        }
                    }
                    if exists|j: int| 0 <= j < k + 1 && #[trigger] t0[j].variable == v && t0[j].decision_level > lvl {
                        let j = choose|j: int| 0 <= j < k + 1 && #[trigger] t0[j].variable == v && t0[j].decision_level > lvl;
                        if j == k {
                            assert(vars_to_remove@[before.len() as int] == v);
                        } else {
                            assert(before.contains(v));
                            let i = choose|i: int| 0 <= i < before.len() && before[i] == v;
                            assert(vars_to_remove@[i] == v);
                        }
                    }
                }
            }
            k += 1;
        }
        let ghost a0 = self.assignments@;
        let ghost m0 = self.m@;
        let mlen = self.m.len();
        proof {
            lemma_filter_all(a0, |a: Assignment| !vars_to_remove@.subrange(0, 0).contains(a.variable));
        }
        let mut i: usize = 0;
        while i < vars_to_remove.len()
            invariant
                i <= vars_to_remove@.len(),
                forall|j: int| 0 <= j < vars_to_remove@.len() ==> #[trigger] vars_to_remove@[j] < m0.len(),
                self.m@.len() == m0.len(),
                m0.len() == mlen,
                forall|v: int|
                    0 <= v < m0.len() ==> #[trigger] self.m@[v] == (if vars_to_remove@.subrange(0, i as int).contains(v as usize) {
                        None
                    } else {
                        m0[v]
                    }),
                self.assignments@ == a0.filter(
                    |a: Assignment| !vars_to_remove@.subrange(0, i as int).contains(a.variable),
                ),
                self.formula.clauses@ == old(self).formula.clauses@,
                self.num_vars == old(self).num_vars,
                self.decision_level == old(self).decision_level,
            decreases vars_to_remove@.len() - i,
        {
            let v = vars_to_remove[i];
            let ghost before = self.assignments@;
            let ghost s0 = vars_to_remove@.subrange(0, i as int);
            let ghost s1 = vars_to_remove@.subrange(0, i + 1);
            let ghost mb = self.m@;
            self.unassign(v);
            proof {
                assert(s1 =~= s0.push(v));
                let p0 = |a: Assignment| !s0.contains(a.variable);
                let q = |a: Assignment| a.variable != v;
                let p1 = |a: Assignment| !s1.contains(a.variable);
                lemma_filter_filter(a0, p0, q);
                assert forall|a: Assignment| #[trigger] p1(a) == (p0(a) && q(a)) by {
                    if s1.contains(a.variable) && a.variable != v {
                        let j = choose|j: int| 0 <= j < s1.len() && s1[j] == a.variable;
                        assert(s0[j] == a.variable);
                    }
                    if s0.contains(a.variable) {
                        let j = choose|j: int| 0 <= j < s0.len() && s0[j] == a.variable;
                        assert(s1[j] == a.variable);
                    }
                    assert(s1[i as int] == v);
                }
                lemma_filter_same(a0, |a: Assignment| p0(a) && q(a), p1);
                assert forall|w: int| 0 <= w < m0.len() implies #[trigger] self.m@[w] == (if s1.contains(w as usize) {
                    None
                } else {
                    m0[w]
                }) by {
                    assert(mb[w] == (if s0.contains(w as usize) { None } else { m0[w] }));
                    assert(s1[i as int] == v);
                    if w == v as int {
                        assert(self.m@[w] is None);
                        assert(s1.contains(w as usize));
                    } else {
                        assert(self.m@[w] == mb[w]);
                        if s1.contains(w as usize) {
                            let j = choose|j: int| 0 <= j < s1.len() && s1[j] == w as usize;
                            assert(w as usize != v);
                            assert(j != i as int);
                            assert(s0[j] == s1[j]);
                            assert(s0[j] == w as usize);
                        }
                        if s0.contains(w as usize) {
                            let j = choose|j: int| 0 <= j < s0.len() && s0[j] == w as usize;
                            assert(s1[j] == w as usize);
                        }
                        assert(s1.contains(w as usize) == s0.contains(w as usize));
                    }
                }
            }
            i += 1;
        }
        proof {
            assert(vars_to_remove@.subrange(0, vars_to_remove@.len() as int) =~= vars_to_remove@);
            lemma_filter_same(
                a0,
                |a: Assignment| !vars_to_remove@.contains(a.variable),
                |a: Assignment| !above_level(t0, lvl, a.variable),
            );
        }
    }

    /// `c` is the literal list of some clause of the formula.
    pub open spec fn in_formula(&self, c: Seq<Literal>) -> bool {
        exists|ci: int| 0 <= ci < self.formula@.len() && #[trigger] self.formula@[ci] == c
    }

    /// No clause is unit or falsified: each is satisfied or has two unassigned literals.
    pub open spec fn propagation_done(&self) -> bool {
        forall|ci: int|
            0 <= ci < self.formula@.len() ==> clause_satisfied(self.m@, #[trigger] self.formula@[ci])
                || two_unassigned(self.m@, self.formula@[ci])
    }

    /// `self` is `before` with entries appended at the current level, each on a
    /// variable that `before` left unassigned and forced by a clause of the formula
    /// whose other literals earlier entries make false; the values `before` held stay.
    pub open spec fn appends_forced(&self, before: &Solver) -> bool {
        &&& self.formula@ == before.formula@
        &&& self.formula.clauses@ == before.formula.clauses@
        &&& self.num_vars == before.num_vars
        &&& self.decision_level == before.decision_level
        &&& self.m@.len() == before.m@.len()
        &&& trail_matches(self.trail(), self.m@)
        &&& forall|v: int| 0 <= v < before.m@.len() && (#[trigger] before.m@[v]) is Some ==> self.m@[v] == before.m@[v]
        &&& before.assignments@.len() <= self.assignments@.len()
        &&& forall|k: int| 0 <= k < before.assignments@.len() ==> #[trigger] self.trail()[k] == before.trail()[k]
        &&& forall|k: int|
            before.assignments@.len() <= k < self.assignments@.len() ==> {
                &&& (#[trigger] self.trail()[k]).decision_level == self.decision_level
                &&& self.trail()[k].antecedent is Some
                &&& reason_holds(self.trail(), k)
                &&& self.in_formula(self.trail()[k].antecedent->0)
                &&& before.m@[self.trail()[k].variable as int] is None
            }
    }

    /// `self` is `before` with entries appended by unit propagation at the
    /// current level, each forced by a clause of the formula.
    pub open spec fn extends_by_propagation(&self, before: &Solver) -> bool {
        &&& self.formula@ == before.formula@
        &&& self.formula.clauses@ == before.formula.clauses@
        &&& self.num_vars == before.num_vars
        &&& self.decision_level == before.decision_level
        &&& self.m@.len() == before.m@.len()
        &&& trail_matches(self.trail(), self.m@)
        &&& levels_at_most(self.trail(), self.decision_level as int)
        &&& before.assignments@.len() <= self.assignments@.len()
        &&& forall|k: int| 0 <= k < before.assignments@.len() ==> #[trigger] self.trail()[k] == before.trail()[k]
        &&& forall|k: int|
            before.assignments@.len() <= k < self.assignments@.len() ==> {
                &&& (#[trigger] self.trail()[k]).decision_level == self.decision_level
                &&& self.trail()[k].antecedent is Some
                &&& justified(self.trail(), k)
                &&& self.in_formula(self.trail()[k].antecedent->0)
            }
    }

    /// Unit propagation: repeatedly assigns the last literal of every unit clause,
    /// until no clause is unit, or stops at the first clause found falsified.
    pub fn propagate(&mut self) -> (r: PropagationStatus)
        requires
            old(self).lits_in_range(),
            trail_matches(old(self).trail(), old(self).m@),
        ensures
            final(self).appends_forced(old(self)),
            levels_at_most(old(self).trail(), old(self).decision_level as int) ==> final(self).extends_by_propagation(old(self)),
            final(self).assignments@.len() == old(self).assignments@.len() ==> final(self).m@ == old(self).m@,
            match r {
                PropagationStatus::Conflict(c) => final(self).in_formula(c@) && clause_falsified(final(self).m@, c@),
                PropagationStatus::Unresolved => final(self).propagation_done(),
            },
            exists|n: nat| {
                let p = #[trigger] prop_rounds(old(self).formula@, old(self).decision_level, old(self).m@, old(self).trail(), n);
                &&& final(self).m@ == p.m
                &&& final(self).trail() == p.t
                &&& match r {
                    PropagationStatus::Conflict(c) => p.conflict is Some && c@ == old(self).formula@[p.conflict->0],
                    PropagationStatus::Unresolved => p.conflict is None && !p.changed,
                }
            },
    {
        let ghost start = self.trail();
        let ghost old_len = self.assignments@.len();
        let ghost f = self.formula@;
        let ghost lvl = self.decision_level;
        let ghost m0 = self.m@;
        let ghost t0 = self.trail();
        let ghost mut rounds: nat = 0;
        proof {
            lemma_trail_len_bound(self.trail(), self.m@);
        }
        let mut propagation_finished = false;
        while !propagation_finished
            invariant
                f == old(self).formula@,
                lvl == old(self).decision_level,
                m0 == old(self).m@,
                t0 == old(self).trail(),
                self.m@ == prop_rounds(f, lvl, m0, t0, rounds).m,
                self.trail() == prop_rounds(f, lvl, m0, t0, rounds).t,
                prop_rounds(f, lvl, m0, t0, rounds).conflict is None,
                prop_rounds(f, lvl, m0, t0, rounds).changed == !propagation_finished,
                self.appends_forced(old(self)),
                levels_at_most(old(self).trail(), old(self).decision_level as int) ==> self.extends_by_propagation(old(self)),
                self.lits_in_range(),
                self.assignments@.len() <= self.m@.len(),
                self.assignments@.len() == old_len ==> self.m@ == old(self).m@,
                old_len == old(self).assignments@.len(),
                propagation_finished ==> self.propagation_done(),
            decreases 2 * (self.m@.len() - self.assignments@.len()) + (if propagation_finished { 0int } else { 1int }),
        {
            propagation_finished = true;
            let ghost pass_len = self.assignments@.len();
            let ghost pass_m = self.m@;
            let n = self.formula.clauses.len();
            let ghost pass_t = self.trail();
            let mut i: usize = 0;
            while i < n
                invariant
                    f == old(self).formula@,
                    lvl == old(self).decision_level,
                    m0 == old(self).m@,
                    t0 == old(self).trail(),
                    pass_m == prop_rounds(f, lvl, m0, t0, rounds).m,
                    pass_t == prop_rounds(f, lvl, m0, t0, rounds).t,
                    prop_rounds(f, lvl, m0, t0, rounds).conflict is None,
                    prop_rounds(f, lvl, m0, t0, rounds).changed,
                    self.m@ == pass_upto(f, lvl, pass_m, pass_t, i as nat).m,
                    self.trail() == pass_upto(f, lvl, pass_m, pass_t, i as nat).t,
                    pass_upto(f, lvl, pass_m, pass_t, i as nat).conflict is None,
                    pass_upto(f, lvl, pass_m, pass_t, i as nat).changed == !propagation_finished,
                    self.appends_forced(old(self)),
                    levels_at_most(old(self).trail(), old(self).decision_level as int) ==> self.extends_by_propagation(old(self)),
                    self.lits_in_range(),
                    n == self.formula.clauses@.len(),
                    i <= n,
                    self.assignments@.len() <= self.m@.len(),
                    self.assignments@.len() == old_len ==> self.m@ == old(self).m@,
                    old_len == old(self).assignments@.len(),
                    pass_len <= self.assignments@.len(),
                    !propagation_finished ==> pass_len < self.assignments@.len(),
                    propagation_finished ==> self.assignments@.len() == pass_len && self.m@ == pass_m,
                    propagation_finished ==> forall|ci: int|
                        0 <= ci < i ==> clause_satisfied(self.m@, #[trigger] self.formula@[ci])
                            || two_unassigned(self.m@, self.formula@[ci]),
                decreases n - i,
            {
                let clause = self.formula.clauses[i].copy_clause();
                assert(self.formula@[i as int] == clause@);
                let status = self.clause_status(&clause);
                match status {
                    ClauseStatus::Unit(literal) => {
                        let ghost t = self.trail();
                        let ghost m = self.m@;
                        let ghost before = *self;
                        let ghost c = clause@;
                        proof {
                            let j = choose|j: int| unit_at(m, c, j) && #[trigger] c[j] == literal;
                            lemma_assign_unit(t, m, self.decision_level, c, j);
                            lemma_trail_len_bound(t, m);
                        }
                        self.assign(literal.value, !literal.is_negated, Some(clause));
                        proof {
                            let j = choose|j: int| unit_at(m, c, j) && #[trigger] c[j] == literal;
                            let e = EntryView {
                                variable: c[j].value,
                                value: !c[j].is_negated,
                                decision_level: self.decision_level,
                                antecedent: Some(c),
                            };
                            assert(self.trail() =~= t.push(e));
                            assert(self.m@ == m.update(c[j].value as int, Some(!c[j].is_negated)));
                            lemma_trail_len_bound(self.trail(), self.m@);
                            assert forall|k: int| 0 <= k < old_len implies #[trigger] self.trail()[k] == old(self).trail()[k] by {
                                assert(self.trail()[k] == t[k]);
                                assert(before.trail()[k] == old(self).trail()[k]);
                            }
                            let v = c[j].value as int;
                            assert(m[v] is None);
                            assert(old(self).m@[v] is None) by {
                                if old(self).m@[v] is Some {
                                    assert(before.m@[v] == old(self).m@[v]);
                                }
                            }
                            assert forall|w: int| 0 <= w < old(self).m@.len() && (#[trigger] old(self).m@[w]) is Some implies self.m@[w] == old(self).m@[w] by {
                                assert(before.m@[w] == old(self).m@[w]);
                            }
                            assert forall|k: int| old_len <= k < self.assignments@.len() implies {
                                &&& (#[trigger] self.trail()[k]).decision_level == self.decision_level
                                &&& self.trail()[k].antecedent is Some
                                &&& reason_holds(self.trail(), k)
                                &&& self.in_formula(self.trail()[k].antecedent->0)
                                &&& old(self).m@[self.trail()[k].variable as int] is None
                            } by {
                                if k < t.len() {
                                    assert(before.trail()[k] == t[k]);
                                    assert(self.trail()[k] == t[k]);
                                    lemma_reason_extend(t, self.trail(), k);
                                    assert(before.in_formula(t[k].antecedent->0));
                                    let ci = choose|ci: int| 0 <= ci < before.formula@.len() && #[trigger] before.formula@[ci] == t[k].antecedent->0;
                                    assert(self.formula@[ci] == t[k].antecedent->0);
                                } else {
                                    assert(self.formula@[i as int] == c);
                                }
                            }
                            if levels_at_most(old(self).trail(), old(self).decision_level as int) {
                                assert(levels_at_most(t, self.decision_level as int));
                                assert forall|k: int| old_len <= k < self.assignments@.len() implies {
                                    &&& (#[trigger] self.trail()[k]).decision_level == self.decision_level
                                    &&& self.trail()[k].antecedent is Some
                                    &&& justified(self.trail(), k)
                                    &&& self.in_formula(self.trail()[k].antecedent->0)
                                } by {
                                    if k < t.len() {
                                        assert(before.trail()[k] == t[k]);
                                        assert(self.trail()[k] == t[k]);
                                        lemma_justified_extend(t, self.trail(), k);
                                        assert(before.in_formula(t[k].antecedent->0));
                                        let ci = choose|ci: int| 0 <= ci < before.formula@.len() && #[trigger] before.formula@[ci] == t[k].antecedent->0;
                                        assert(self.formula@[ci] == t[k].antecedent->0);
                                    } else {
                                        assert(self.formula@[i as int] == c);
                                    }
                                }
                            }
                        }
                        proof {
                            let j = choose|j: int| unit_at(m, c, j) && #[trigger] c[j] == literal;
                            lemma_unit_pos_is(m, c, j);
                            assert(!clause_falsified(m, c)) by {
                                assert(lit_status(m, c[j]) is None);
                            }
                            let s = pass_upto(f, lvl, pass_m, pass_t, i as nat);
                            assert(f[i as int] == c);
                            assert(pass_upto(f, lvl, pass_m, pass_t, (i + 1) as nat) == visit_clause(f, lvl, s, i as int));
                        }
                        propagation_finished = false;
                    },
                    ClauseStatus::Unsatisfied => {
                        assert(self.formula@[i as int] == clause@);
                        proof {
                            let s = pass_upto(f, lvl, pass_m, pass_t, i as nat);
                            assert(pass_upto(f, lvl, pass_m, pass_t, (i + 1) as nat) == visit_clause(f, lvl, s, i as int));
                            lemma_pass_stops(f, lvl, pass_m, pass_t, (i + 1) as nat, f.len());
                            assert(prop_rounds(f, lvl, m0, t0, rounds + 1) == pass_upto(f, lvl, pass_m, pass_t, f.len()));
                        }
                        return PropagationStatus::Conflict(clause);
                    },
                    ClauseStatus::Satisfied => {
                        proof {
                            let s = pass_upto(f, lvl, pass_m, pass_t, i as nat);
                            assert(pass_upto(f, lvl, pass_m, pass_t, (i + 1) as nat) == visit_clause(f, lvl, s, i as int));
                        }
                    },
                    ClauseStatus::Unresolved => {
                        proof {
                            let m = self.m@;
                            let c = clause@;
                            let (a, b) = choose|a: int, b: int|
                                0 <= a < c.len() && 0 <= b < c.len() && a != b && #[trigger] lit_status(m, c[a]) is None
                                    && #[trigger] lit_status(m, c[b]) is None;
                            assert(!clause_falsified(m, c)) by {
                                assert(lit_status(m, c[a]) is None);
                            }
                            assert forall|k: int| !unit_at(m, c, k) by {
                                if unit_at(m, c, k) {
                                    if k != a {
                                        assert(lit_status(m, c[a]) == Some(false));
                                    } else {
                                        assert(lit_status(m, c[b]) == Some(false));
                                    }
                                }
                            }
                            let s = pass_upto(f, lvl, pass_m, pass_t, i as nat);
                            assert(pass_upto(f, lvl, pass_m, pass_t, (i + 1) as nat) == visit_clause(f, lvl, s, i as int));
                        }
                    },
                }
                i += 1;
            }
            proof {
                rounds = rounds + 1;
                assert(prop_rounds(f, lvl, m0, t0, rounds) == pass_upto(f, lvl, pass_m, pass_t, f.len()));
            }
        }
        PropagationStatus::Unresolved
    }

    /// The level to jump back to after learning `c` at the current level: see
    /// [`is_jump_level`].
    fn backjump_level(&self, c: &Clause) -> (r: usize)
        requires
            self.decision_level > 0,
        ensures
            is_jump_level(self.trail(), c@, self.decision_level as int, r as int),
    {
        let ghost t = self.trail();
        let ghost cv = c@;
        let mut best: Option<usize> = None;
        let mut second: Option<usize> = None;
        let mut k: usize = 0;
        while k < self.assignments.len()
            invariant
                t == self.trail(),
                cv == c@,
                k <= t.len(),
                best is None <==> forall|j: int| 0 <= j < k ==> !#[trigger] clause_has_var(cv, t[j].variable),
                best is None ==> second is None,
                best matches Some(b) ==> (exists|j: int| 0 <= j < k && #[trigger] clause_has_var(cv, t[j].variable)
                    && t[j].decision_level == b) && forall|j: int|
                    0 <= j < k && #[trigger] clause_has_var(cv, t[j].variable) ==> t[j].decision_level <= b,
                second matches Some(s) ==> best is Some && s < best->0 && (exists|j: int| 0 <= j < k
                    && #[trigger] clause_has_var(cv, t[j].variable) && t[j].decision_level == s) && forall|j: int|
                    0 <= j < k && #[trigger] clause_has_var(cv, t[j].variable) && t[j].decision_level < best->0
                        ==> t[j].decision_level <= s,
                (second is None && best is Some) ==> forall|j: int|
                    0 <= j < k && #[trigger] clause_has_var(cv, t[j].variable) ==> t[j].decision_level == best->0,
            decreases t.len() - k,
        {
            let a = &self.assignments[k];
            assert(t[k as int] == a@);
            let mention = Self::clause_mentions(c, a.variable);
            let ghost best0 = best;
            let ghost second0 = second;
            proof {
                if let Some(b) = best0 {
                    let jb = choose|j: int| 0 <= j < k && #[trigger] clause_has_var(cv, t[j].variable) && t[j].decision_level == b;
                    assert(clause_has_var(cv, t[jb].variable));
                }
                if let Some(s) = second0 {
                    let js = choose|j: int| 0 <= j < k && #[trigger] clause_has_var(cv, t[j].variable) && t[j].decision_level == s;
                    assert(clause_has_var(cv, t[js].variable));
                }
            }
            if mention {
                let l = a.decision_level;
                match best {
                    None => {
                        best = Some(l);
                    },
                    Some(b) => {
                        if l > b {
                            second = Some(b);
                            best = Some(l);
                        } else if l < b {
                            match second {
                                None => {
                                    second = Some(l);
                                },
                                Some(s) => {
                                    if l > s {
                                        second = Some(l);
                                    }
                                },
                            }
                        }
                    },
                }
            }
            proof {
                assert(mention == clause_has_var(cv, t[k as int].variable));
                if let Some(b) = best0 {
                    let jb = choose|j: int| 0 <= j < k && #[trigger] clause_has_var(cv, t[j].variable) && t[j].decision_level == b;
                    assert(clause_has_var(cv, t[jb].variable));
                }
                if let Some(s) = second0 {
                    let js = choose|j: int| 0 <= j < k && #[trigger] clause_has_var(cv, t[j].variable) && t[j].decision_level == s;
                    assert(clause_has_var(cv, t[js].variable));
                }
            }
            k += 1;
        }
        match second {
            Some(s) => {
                proof {
                    let b = best->0;
                    let jb = choose|j: int| 0 <= j < k && #[trigger] clause_has_var(cv, t[j].variable) && t[j].decision_level == b;
                    let js = choose|j: int| 0 <= j < k && #[trigger] clause_has_var(cv, t[j].variable) && t[j].decision_level == s;
                    assert(clause_level(t, cv, b as int));
                    assert(clause_level(t, cv, s as int));
                    assert(levels_spread(t, cv));
                    assert forall|l1: int, l2: int|
                        #[trigger] clause_level(t, cv, l1) && #[trigger] clause_level(t, cv, l2) && l1 > s && l2 > s implies l1 == l2 by {
                        let k1 = choose|q: int| 0 <= q < t.len() && #[trigger] clause_has_var(cv, t[q].variable) && t[q].decision_level == l1;
                        let k2 = choose|q: int| 0 <= q < t.len() && #[trigger] clause_has_var(cv, t[q].variable) && t[q].decision_level == l2;
                        assert(l1 == b && l2 == b);
                    }
                }
                s
            },
            None => {
                proof {
                    assert(!levels_spread(t, cv)) by {
                        if levels_spread(t, cv) {
                            let (l1, l2) = choose|l1: int, l2: int| #[trigger] clause_level(t, cv, l1) && #[trigger] clause_level(t, cv, l2) && l1 != l2;
                            let k1 = choose|q: int| 0 <= q < t.len() && #[trigger] clause_has_var(cv, t[q].variable) && t[q].decision_level == l1;
                            let k2 = choose|q: int| 0 <= q < t.len() && #[trigger] clause_has_var(cv, t[q].variable) && t[q].decision_level == l2;
                        }
                    }
                }
                let lvl = self.decision_level;
                let mut hb: Option<usize> = None;
                let mut q: usize = 0;
                while q < self.assignments.len()
                    invariant
                        t == self.trail(),
                        lvl == self.decision_level,
                        q <= t.len(),
                        hb is None ==> forall|j: int| 0 <= j < q ==> #[trigger] t[j].decision_level >= lvl,
                        hb matches Some(h) ==> h < lvl && has_level(t, h as int) && forall|j: int|
                            0 <= j < q && #[trigger] t[j].decision_level < lvl ==> t[j].decision_level <= h,
                    decreases t.len() - q,
                {
                    let l = self.assignments[q].decision_level;
                    assert(t[q as int].decision_level == l);
                    if l < lvl {
                        match hb {
                            None => {
                                hb = Some(l);
                            },
                            Some(h) => {
                                if l > h {
                                    hb = Some(l);
                                }
                            },
                        }
                    }
                    q += 1;
                }
                match hb {
                    None => 0,
                    Some(h) => h,
                }
            },
        }
    }

    /// Whether some entry of the trail was forced at the current level on a variable of `c`.
    pub(crate) fn some_implied(&self, c: &Clause) -> (r: bool)
        ensures
            r == exists|k: int| implied_in(self.trail(), self.decision_level as int, c@, k),
    {
        let ghost t = self.trail();
        let ghost lvl = self.decision_level as int;
        let mut k: usize = 0;
        while k < self.assignments.len()
            invariant
                t == self.trail(),
                lvl == self.decision_level as int,
                k <= t.len(),
                forall|j: int| 0 <= j < k ==> !implied_in(t, lvl, c@, j),
            decreases t.len() - k,
        {
            let a = &self.assignments[k];
            assert(t[k as int] == a@);
            if a.decision_level == self.decision_level && a.antecedent.is_some() && Self::clause_mentions(c, a.variable) {
                assert(implied_in(t, lvl, c@, k as int));
                return true;
            }
            k += 1;
        }
        false
    }

    /// Whether variable `v` occurs in `c`.
    fn clause_mentions(c: &Clause, v: usize) -> (r: bool)
        ensures
            r == clause_has_var(c@, v),
    {
        let mut i: usize = 0;
        while i < c.literals.len()
            invariant
                i <= c@.len(),
                forall|j: int| 0 <= j < i ==> (#[trigger] c@[j]).value != v,
            decreases c@.len() - i,
        {
            if c.literals[i].value == v {
                assert(c@[i as int].value == v);
                return true;
            }
            i += 1;
        }
        false
    }

    /// The first position of the trail whose entry was forced at the current level
    /// on a variable of `c`.
    fn first_implied(&self, c: &Clause) -> (x: usize)
        requires
            exists|k: int| implied_in(self.trail(), self.decision_level as int, c@, k),
        ensures
            implied_in(self.trail(), self.decision_level as int, c@, x as int),
            forall|k: int| 0 <= k < x ==> !implied_in(self.trail(), self.decision_level as int, c@, k),
    {
        let ghost t = self.trail();
        let ghost lvl = self.decision_level as int;
        let mut k: usize = 0;
        while k < self.assignments.len()
            invariant
                t == self.trail(),
                lvl == self.decision_level as int,
                k <= t.len(),
                exists|j: int| implied_in(t, lvl, c@, j),
                forall|j: int| 0 <= j < k ==> !implied_in(t, lvl, c@, j),
            decreases t.len() - k,
        {
            let a = &self.assignments[k];
            assert(t[k as int] == a@);
            if a.decision_level == self.decision_level && a.antecedent.is_some() && Self::clause_mentions(c, a.variable) {
                return k;
            }
            k += 1;
        }
        proof {
            let j = choose|j: int| implied_in(t, lvl, c@, j);
        }
        k
    }

    /// The trail and the current level are fit for conflict analysis: the trail agrees
    /// with the assignment and stays at or below the current level, the current level
    /// has at most one decision, and every antecedent at the current level holds only
    /// literals of its own variable and literals falsified earlier.
    pub open spec fn analysis_ready(&self) -> bool {
        &&& trail_matches(self.trail(), self.m@)
        &&& levels_at_most(self.trail(), self.decision_level as int)
        &&& one_decision_at(self.trail(), self.decision_level as int)
        &&& antecedents_fall_earlier(self.trail(), self.decision_level as int)
    }

    /// The trail is as propagation leaves it: every entry forced at the current level
    /// holds the literal it makes true in its antecedent, and the conflict clause is
    /// falsified by the trail.
    pub open spec fn conflict_is_genuine(&self, c: Seq<Literal>) -> bool {
        &&& forall|k: int|
            0 <= k < self.trail().len() && #[trigger] self.trail()[k].decision_level == self.decision_level
                ==> justified(self.trail(), k)
        &&& forall|i: int|
            0 <= i < c.len() ==> falsified_by(
                self.trail(),
                self.trail().len() as int,
                self.decision_level as int,
                #[trigger] c[i],
            )
    }

    /// A clause with two literals at the current level holds a variable forced at
    /// that level: the level has one decision, and the clause repeats no literal.
    proof fn lemma_some_implied(&self, l: Seq<Literal>)
        requires
            self.analysis_ready(),
            l.no_duplicates(),
            false_or_forced(self.trail(), self.decision_level as int, l),
            count_at_level(self.trail(), self.decision_level as int, l) > 1,
        ensures
            exists|k: int| implied_in(self.trail(), self.decision_level as int, l, k),
    {
        let t = self.trail();
        let lvl = self.decision_level as int;
        lemma_count_two(t, lvl, l);
        let (i, j) = choose|i: int, j: int|
            0 <= i < j < l.len() && var_at_level(t, #[trigger] l[i].value, lvl) && var_at_level(
                t,
                #[trigger] l[j].value,
                lvl,
            );
        if !exists|k: int| implied_in(t, lvl, l, k) {
            let k1 = choose|k: int| 0 <= k < t.len() && #[trigger] t[k].variable == l[i].value && t[k].decision_level == lvl;
            let k2 = choose|k: int| 0 <= k < t.len() && #[trigger] t[k].variable == l[j].value && t[k].decision_level == lvl;
            assert(clause_has_var(l, t[k1].variable));
            assert(clause_has_var(l, t[k2].variable));
            assert(!implied_in(t, lvl, l, k1));
            assert(!implied_in(t, lvl, l, k2));
            assert(t[k1].antecedent is None && t[k2].antecedent is None);
            assert(k1 == k2);
            assert(!forced_at(t, lvl, l[i].value)) by {
                if forced_at(t, lvl, l[i].value) {
                    let k = choose|k: int| 0 <= k < t.len() && #[trigger] t[k].variable == l[i].value && t[k].decision_level == lvl && t[k].antecedent is Some;
                    assert(clause_has_var(l, t[k].variable));
                    assert(implied_in(t, lvl, l, k));
                }
            }
            assert(!forced_at(t, lvl, l[j].value)) by {
                if forced_at(t, lvl, l[j].value) {
                    let k = choose|k: int| 0 <= k < t.len() && #[trigger] t[k].variable == l[j].value && t[k].decision_level == lvl && t[k].antecedent is Some;
                    assert(clause_has_var(l, t[k].variable));
                    assert(implied_in(t, lvl, l, k));
                }
            }
            assert(falsified_by(t, t.len() as int, lvl, l[i]));
            assert(falsified_by(t, t.len() as int, lvl, l[j]));
            let f1 = choose|f: int| 0 <= f < t.len() && #[trigger] t[f].variable == l[i].value && t[f].value == l[i].is_negated && t[f].decision_level <= lvl;
            let f2 = choose|f: int| 0 <= f < t.len() && #[trigger] t[f].variable == l[j].value && t[f].value == l[j].is_negated && t[f].decision_level <= lvl;
            assert(f1 == k1) by {
                if f1 < k1 {
                    assert(t[f1].variable != t[k1].variable);
                } else if f1 > k1 {
                    assert(t[k1].variable != t[f1].variable);
                }
            }
            assert(f2 == k2) by {
                if f2 < k2 {
                    assert(t[f2].variable != t[k2].variable);
                } else if f2 > k2 {
                    assert(t[k2].variable != t[f2].variable);
                }
            }
            assert(l[i] == l[j]);
        }
    }

    /// Every literal of a clause fit for analysis names a variable of the assignment.
    proof fn lemma_learnt_in_range(&self, l: Seq<Literal>)
        requires
            self.analysis_ready(),
            false_or_forced(self.trail(), self.decision_level as int, l),
        ensures
            lits_below(l, self.m@.len() as int),
    {
        let t = self.trail();
        let lvl = self.decision_level as int;
        assert forall|i: int| 0 <= i < l.len() implies #[trigger] l[i].value < self.m@.len() by {
            if falsified_by(t, t.len() as int, lvl, l[i]) {
                let f = choose|f: int| 0 <= f < t.len() && #[trigger] t[f].variable == l[i].value && t[f].value == l[i].is_negated && t[f].decision_level <= lvl;
                assert(t[f].variable < self.m@.len());
            } else {
                assert(forced_at(t, lvl, l[i].value));
                let f = choose|f: int| 0 <= f < t.len() && #[trigger] t[f].variable == l[i].value && t[f].decision_level == lvl && t[f].antecedent is Some;
                assert(t[f].variable < self.m@.len());
            }
        }
    }

    /// One resolution step of conflict analysis keeps what the loop relies on and
    /// lowers its measure.
    proof fn lemma_resolution_step(
        &self,
        c0: Seq<Literal>,
        l0: Seq<Literal>,
        x: int,
        next: Seq<Literal>,
        genuine: bool,
    )
        requires
            self.analysis_ready(),
            genuine == self.conflict_is_genuine(c0),
            false_or_forced(self.trail(), self.decision_level as int, l0),
            drawn_from(self.trail(), self.decision_level as int, c0, l0),
            genuine ==> forall|i: int|
                0 <= i < l0.len() ==> falsified_by(
                    self.trail(),
                    self.trail().len() as int,
                    self.decision_level as int,
                    #[trigger] l0[i],
                ),
            genuine ==> derived_from(self.trail(), self.decision_level as int, c0, l0),
            count_at_level(self.trail(), self.decision_level as int, l0) > 1,
            implied_in(self.trail(), self.decision_level as int, l0, x),
            forall|k: int| 0 <= k < x ==> !implied_in(self.trail(), self.decision_level as int, l0, k),
            is_resolvent(l0, self.trail()[x].antecedent->0, self.trail()[x].variable, next),
        ensures
            next.no_duplicates(),
            false_or_forced(self.trail(), self.decision_level as int, next),
            drawn_from(self.trail(), self.decision_level as int, c0, next),
            genuine ==> forall|i: int|
                0 <= i < next.len() ==> falsified_by(
                    self.trail(),
                    self.trail().len() as int,
                    self.decision_level as int,
                    #[trigger] next[i],
                ),
            genuine ==> derived_from(self.trail(), self.decision_level as int, c0, next),
            genuine && l0.no_duplicates() ==> count_at_level(self.trail(), self.decision_level as int, next) >= 1,
            analysis_measure(self.trail(), self.decision_level as int, next, self.trail().len() as int)
                < analysis_measure(self.trail(), self.decision_level as int, l0, self.trail().len() as int),
    {
        let t = self.trail();
        let lvl = self.decision_level as int;
        let a = t[x].antecedent->0;
        let v = t[x].variable;
        // no repetition
        assert(next.no_duplicates()) by {
            assert forall|i: int, j: int| 0 <= i < next.len() && 0 <= j < next.len() && i != j implies next[i] != next[j] by {
                if i < j {
                    assert(lit_lt(next[i], next[j]));
                } else {
                    assert(lit_lt(next[j], next[i]));
                }
            }
        }
        // where each literal of the resolvent comes from
        assert forall|i: int| 0 <= i < next.len() implies (l0.contains(#[trigger] next[i]) || a.contains(next[i])) && next[i].value != v by {
            assert(next.contains(next[i]));
        }
        // antecedent literals other than `v` fall earlier
        assert forall|i: int| 0 <= i < a.len() && (#[trigger] a[i]).value != v implies falsified_by(t, x, lvl, a[i]) by {
            assert(t[x].decision_level == lvl && t[x].antecedent is Some);
        }
        assert forall|i: int| 0 <= i < next.len() implies falsified_by(t, t.len() as int, lvl, #[trigger] next[i]) || forced_at(t, lvl, next[i].value) by {
            if l0.contains(next[i]) {
                let j = choose|j: int| 0 <= j < l0.len() && l0[j] == next[i];
                assert(falsified_by(t, t.len() as int, lvl, l0[j]) || forced_at(t, lvl, l0[j].value));
            } else {
                let j = choose|j: int| 0 <= j < a.len() && a[j] == next[i];
                assert(falsified_by(t, x, lvl, a[j]));
                let f = choose|f: int| 0 <= f < x && #[trigger] t[f].variable == a[j].value && t[f].value == a[j].is_negated && t[f].decision_level <= lvl;
                assert(t[f].variable == next[i].value);
            }
        }
        assert forall|i: int| 0 <= i < next.len() implies c0.contains(#[trigger] next[i]) || exists|k: int|
            0 <= k < t.len() && t[k].decision_level == lvl && t[k].antecedent is Some
                && (#[trigger] t[k].antecedent->0).contains(next[i]) by {
            if l0.contains(next[i]) {
                let j = choose|j: int| 0 <= j < l0.len() && l0[j] == next[i];
                assert(c0.contains(l0[j]) || exists|k: int|
                    0 <= k < t.len() && t[k].decision_level == lvl && t[k].antecedent is Some
                        && (#[trigger] t[k].antecedent->0).contains(l0[j]));
            } else {
                assert(t[x].antecedent->0.contains(next[i]));
            }
        }
        // the measure
        assert forall|k: int| x < k < t.len() implies implied_in(t, lvl, l0, k) == implied_in(t, lvl, next, k) by {
            if t[k].decision_level == lvl && t[k].antecedent is Some {
                let w = t[k].variable;
                assert(w != v) by {
                    assert(t[x].variable != t[k].variable);
                }
                assert(!clause_has_var(a, w)) by {
                    if clause_has_var(a, w) {
                        let i = choose|i: int| 0 <= i < a.len() && #[trigger] a[i].value == w;
                        assert(falsified_by(t, x, lvl, a[i]));
                        let f = choose|f: int| 0 <= f < x && #[trigger] t[f].variable == a[i].value && t[f].value == a[i].is_negated && t[f].decision_level <= lvl;
                        assert(t[f].variable != t[k].variable);
                    }
                }
                if clause_has_var(l0, w) {
                    let i = choose|i: int| 0 <= i < l0.len() && #[trigger] l0[i].value == w;
                    assert(l0.contains(l0[i]));
                    assert(next.contains(l0[i]));
                    let j = choose|j: int| 0 <= j < next.len() && next[j] == l0[i];
                    assert(next[j].value == w);
                }
                if clause_has_var(next, w) {
                    let i = choose|i: int| 0 <= i < next.len() && #[trigger] next[i].value == w;
                    assert(next.contains(next[i]));
                    if a.contains(next[i]) {
                        let j = choose|j: int| 0 <= j < a.len() && a[j] == next[i];
                        assert(a[j].value == w);
                    } else {
                        let j = choose|j: int| 0 <= j < l0.len() && l0[j] == next[i];
                        assert(l0[j].value == w);
                    }
                }
            }
        }
        assert(!implied_in(t, lvl, next, x)) by {
            if clause_has_var(next, v) {
                let i = choose|i: int| 0 <= i < next.len() && #[trigger] next[i].value == v;
                assert(next.contains(next[i]));
            }
        }
        lemma_measure_decreases(t, lvl, l0, next, x);
        if genuine {
            // every literal of the resolvent is false
            assert forall|i: int| 0 <= i < next.len() implies falsified_by(t, t.len() as int, lvl, #[trigger] next[i]) by {
                if l0.contains(next[i]) {
                    let j = choose|j: int| 0 <= j < l0.len() && l0[j] == next[i];
                    assert(falsified_by(t, t.len() as int, lvl, l0[j]));
                } else {
                    let j = choose|j: int| 0 <= j < a.len() && a[j] == next[i];
                    assert(falsified_by(t, x, lvl, a[j]));
                    let f = choose|f: int| 0 <= f < x && #[trigger] t[f].variable == a[j].value && t[f].value == a[j].is_negated && t[f].decision_level <= lvl;
                    assert(t[f].variable == next[i].value);
                }
            }
            // the two clauses clash on `v`
            let pol = t[x].value;
            assert forall|i: int| 0 <= i < l0.len() && (#[trigger] l0[i]).value == v implies l0[i].is_negated == pol by {
                assert(falsified_by(t, t.len() as int, lvl, l0[i]));
                let f = choose|f: int| 0 <= f < t.len() && #[trigger] t[f].variable == l0[i].value && t[f].value == l0[i].is_negated && t[f].decision_level <= lvl;
                if f < x {
                    assert(t[f].variable != t[x].variable);
                } else if f > x {
                    assert(t[x].variable != t[f].variable);
                }
            }
            assert(justified(t, x));
            assert forall|i: int| 0 <= i < a.len() && (#[trigger] a[i]).value == v implies a[i].is_negated == !pol by {
                if a[i] != entry_lit(t[x]) {
                    assert(falsified_by(t, x, t[x].decision_level as int, a[i]));
                    let f = choose|f: int| 0 <= f < x && #[trigger] t[f].variable == a[i].value && t[f].value == a[i].is_negated && t[f].decision_level <= t[x].decision_level;
                    assert(t[f].variable != t[x].variable);
                }
            }
            assert forall|model: Seq<bool>| #[trigger] model_sat(model, c0) && antecedents_hold(model, t, lvl) implies model_sat(model, next) by {
                assert(model_sat(model, l0));
                assert(model_sat(model, a));
                lemma_resolution_sound(l0, a, v, next, pol, model);
            }
            // a literal at the current level survives
            if l0.no_duplicates() {
                lemma_count_two(t, lvl, l0);
                let (i, j) = choose|i: int, j: int|
                    0 <= i < j < l0.len() && var_at_level(t, #[trigger] l0[i].value, lvl) && var_at_level(
                        t,
                        #[trigger] l0[j].value,
                        lvl,
                    );
                let keep = if l0[i].value != v { i } else { j };
                assert(l0[keep].value != v) by {
                    if l0[i].value == v && l0[j].value == v {
                        assert(l0[i].is_negated == pol && l0[j].is_negated == pol);
                        assert(l0[i] == l0[j]);
                    }
                }
                assert(l0.contains(l0[keep]));
                assert(next.contains(l0[keep]));
                let p = choose|p: int| 0 <= p < next.len() && next[p] == l0[keep];
                lemma_count_pos(t, lvl, next, p);
            }
        }
    }

    /// Conflict analysis can start on `c` at level `lvl`: at most one of its literals
    /// is on a variable of that level, or one of its variables was forced at it.
    pub open spec fn analysis_can_start(t: Seq<EntryView>, lvl: int, c: Seq<Literal>) -> bool {
        count_at_level(t, lvl, c) <= 1 || exists|k: int| implied_in(t, lvl, c, k)
    }

    /// Conflict analysis. At level 0 there is nothing to learn: `(None, None)`.
    /// Otherwise the conflict clause is resolved with the antecedent of the first
    /// entry of the trail forced at the current level on one of its variables, until
    /// at most one of its literals is on a variable assigned at the current level;
    /// the result is that clause and the level to jump back to (see [`is_jump_level`]).
    pub fn conflict_analysis(&self, conflict_clause: Clause) -> (r: (Option<usize>, Option<Clause>))
        requires
            self.decision_level > 0 ==> self.analysis_ready(),
            self.decision_level > 0 ==> Self::analysis_can_start(self.trail(), self.decision_level as int, conflict_clause@),
            self.decision_level > 0 ==> false_or_forced(self.trail(), self.decision_level as int, conflict_clause@),
        ensures
            (self.decision_level == 0) == (r.0 is None),
            (self.decision_level == 0) == (r.1 is None),
            match r {
                (Some(lvl), Some(learnt)) => is_jump_level(self.trail(), learnt@, self.decision_level as int, lvl as int),
                _ => true,
            },
            r.1 matches Some(learnt) ==> {
                &&& exists|n: nat| learnt@ == #[trigger] analysis_steps(self.trail(), self.decision_level as int, conflict_clause@, n)
                &&& count_at_level(self.trail(), self.decision_level as int, learnt@) <= 1
                &&& learnt@.no_duplicates() || learnt@ == conflict_clause@
                &&& lits_below(learnt@, self.m@.len() as int)
                &&& drawn_from(self.trail(), self.decision_level as int, conflict_clause@, learnt@)
                &&& self.conflict_is_genuine(conflict_clause@) ==> {
                    &&& forall|i: int|
                        0 <= i < learnt@.len() ==> falsified_by(
                            self.trail(),
                            self.trail().len() as int,
                            self.decision_level as int,
                            #[trigger] learnt@[i],
                        )
                    &&& derived_from(self.trail(), self.decision_level as int, conflict_clause@, learnt@)
                    &&& conflict_clause@.no_duplicates() && count_at_level(self.trail(), self.decision_level as int, conflict_clause@) >= 1
                        ==> count_at_level(self.trail(), self.decision_level as int, learnt@) == 1
                }
            },
    {
        if self.decision_level == 0 {
            return (None, None);
        }
        let ghost t = self.trail();
        let ghost lvl = self.decision_level as int;
        let ghost c0 = conflict_clause@;
        let ghost genuine = self.conflict_is_genuine(c0);
        let mut learnt = conflict_clause;
        let ghost mut rounds: nat = 0;
        proof {
            assert forall|i: int| 0 <= i < c0.len() implies c0.contains(#[trigger] c0[i]) by {}
            assert(derived_from(t, lvl, c0, c0)) by {
                assert forall|model: Seq<bool>| #[trigger] model_sat(model, c0) && antecedents_hold(model, t, lvl) implies model_sat(model, c0) by {}
            }
        }
        while self.literals_at_current_level(&learnt) > 1
            invariant
                t == self.trail(),
                lvl == self.decision_level as int,
                self.analysis_ready(),
                genuine == self.conflict_is_genuine(c0),
                learnt@ == analysis_steps(t, lvl, c0, rounds),
                learnt@.no_duplicates() || (rounds == 0 && learnt@ == c0),
                Self::analysis_can_start(t, lvl, c0),
                false_or_forced(t, lvl, learnt@),
                drawn_from(t, lvl, c0, learnt@),
                genuine ==> forall|i: int|
                    0 <= i < learnt@.len() ==> falsified_by(t, t.len() as int, lvl, #[trigger] learnt@[i]),
                genuine ==> derived_from(t, lvl, c0, learnt@),
                genuine && c0.no_duplicates() && count_at_level(t, lvl, c0) >= 1 ==> count_at_level(t, lvl, learnt@) >= 1,
            decreases analysis_measure(t, lvl, learnt@, t.len() as int),
        {
            proof {
                if !learnt@.no_duplicates() {
                    assert(learnt@ == c0);
                    assert(count_at_level(t, lvl, c0) > 1);
                } else {
                    self.lemma_some_implied(learnt@);
                }
            }
            let x = self.first_implied(&learnt);
            let v = self.assignments[x].variable;
            let ante = match &self.assignments[x].antecedent {
                Some(a) => a.copy_clause(),
                None => Clause { literals: Vec::new() },
            };
            let ghost l0 = learnt@;
            assert(t[x as int].antecedent == Some(ante@));
            let next = self.resolution(learnt, ante, v);
            proof {
                self.lemma_resolution_step(c0, l0, x as int, next@, genuine);
                lemma_first_implied_is(t, lvl, l0, x as int);
                lemma_resolvent_is(l0, ante@, v, next@);
                rounds = rounds + 1;
                assert(analysis_steps(t, lvl, c0, rounds) == next@);
            }
            learnt = next;
        }
        proof {
            self.lemma_learnt_in_range(learnt@);
            assert(learnt@ == analysis_steps(t, lvl, c0, rounds));
        }
        let level = self.backjump_level(&learnt);
        (Some(level), Some(learnt))
    }

    /// Appends a learnt clause to the formula.
    pub fn add_learnt_clause(&mut self, learnt_clause: Clause)
        ensures
            final(self).formula.clauses@ == old(self).formula.clauses@.push(learnt_clause),
            final(self).formula@ == old(self).formula@.push(learnt_clause@),
            final(self).assignments@ == old(self).assignments@,
            final(self).m@ == old(self).m@,
            final(self).num_vars == old(self).num_vars,
            final(self).decision_level == old(self).decision_level,
    {
        self.formula.clauses.push(learnt_clause);
        assert(self.formula@ =~= old(self).formula@.push(learnt_clause@));
    }
}

} // verus!
