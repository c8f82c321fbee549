//! The data of a CNF problem: literals, clauses, formulas and trail entries.
use vstd::prelude::*;

verus! {

/// A literal of a CNF formula: a variable, possibly negated.
#[derive(Debug, Clone, Copy, PartialEq, Eq, Structural, Hash, PartialOrd, Ord)]
pub struct Literal {
    pub value: usize,
    pub is_negated: bool,
}

impl Literal {
    /// The literal of the same variable with the opposite sign.
    pub fn negate(&self) -> (r: Literal)
        ensures
            r.value == self.value,
            r.is_negated == !self.is_negated,
    {
        Literal { value: self.value, is_negated: !self.is_negated }
    }
}

/// The order of literals: by variable, the positive literal before the negative one.
pub open spec fn lit_lt(a: Literal, b: Literal) -> bool {
    a.value < b.value || (a.value == b.value && !a.is_negated && b.is_negated)
}

/// Executable form of [`lit_lt`].
pub(crate) fn literal_less(a: &Literal, b: &Literal) -> (r: bool)
    ensures
        r == lit_lt(*a, *b),
{
    a.value < b.value || (a.value == b.value && !a.is_negated && b.is_negated)
}

/// A disjunction of literals.
#[derive(Debug, Clone, PartialEq)]
pub struct Clause {
    pub literals: Vec<Literal>,
}

impl View for Clause {
    type V = Seq<Literal>;

    open spec fn view(&self) -> Seq<Literal> {
        self.literals@
    }
}

impl Clause {
    /// The number of literals of the clause.
    pub fn clause_len(&self) -> (r: usize)
        ensures
            r == self@.len(),
    {
        self.literals.len()
    }

    /// A clause with the same literals, in the same order.
    pub(crate) fn copy_clause(&self) -> (r: Clause)
        ensures
            r@ == self@,
    {
        let mut lits: Vec<Literal> = Vec::new();
        let mut i: usize = 0;
        while i < self.literals.len()
            invariant
                i <= self@.len(),
                lits@ == self@.subrange(0, i as int),
            decreases self@.len() - i,
        {
            lits.push(self.literals[i]);
            i += 1;
        }
        assert(lits@ =~= self@);
        Clause { literals: lits }
    }
}

/// A conjunction of clauses.
#[derive(Debug)]
pub struct Formula {
    pub clauses: Vec<Clause>,
}

/// The literals of each clause of a sequence of clauses.
pub open spec fn clauses_view(cs: Seq<Clause>) -> Seq<Seq<Literal>> {
    cs.map_values(|c: Clause| c@)
}

impl View for Formula {
    type V = Seq<Seq<Literal>>;

    open spec fn view(&self) -> Seq<Seq<Literal>> {
        clauses_view(self.clauses@)
    }
}

impl Formula {
    /// The number of clauses of the formula.
    pub fn formula_len(&self) -> (r: usize)
        ensures
            r == self@.len(),
    {
        self.clauses.len()
    }
}

/// A problem in conjunctive normal form, as a DIMACS file states it.
#[derive(Debug)]
pub struct Cnf {
    pub num_vars: usize,
    pub num_clauses: usize,
    pub formula: Formula,
}

/// The literal that a non-zero DIMACS integer stands for.
pub open spec fn literal_of_int(lit: i32) -> Literal {
    Literal { value: (if lit < 0 { -lit } else { lit as int }) as usize, is_negated: lit < 0 }
}

/// The clause that a list of DIMACS integers stands for.
pub open spec fn clause_of_ints(c: Seq<i32>) -> Seq<Literal> {
    c.map_values(|lit: i32| literal_of_int(lit))
}

/// `abs` of an `i32` overflows on `i32::MIN` alone.
pub open spec fn ints_have_abs(cs: Seq<Vec<i32>>) -> bool {
    forall|i: int, j: int| 0 <= i < cs.len() && 0 <= j < cs[i]@.len() ==> cs[i]@[j] != i32::MIN
}

/// The literal of a non-zero DIMACS integer.
pub(crate) fn literal_from_int(lit: i32) -> (r: Literal)
    requires
        lit != i32::MIN,
    ensures
        r == literal_of_int(lit),
{
    if lit < 0 {
        Literal { value: (0 - lit) as usize, is_negated: true }
    } else {
        Literal { value: lit as usize, is_negated: false }
    }
}

impl Cnf {
    /// Builds a problem from DIMACS integers: `k` stands for variable `k`,
    /// `-k` for its negation.
    pub fn new(num_vars: usize, num_clauses: usize, clauses: Vec<Vec<i32>>) -> (r: Self)
        requires
            ints_have_abs(clauses@),
        ensures
            r.num_vars == num_vars,
            r.num_clauses == num_clauses,
            r.formula@.len() == clauses@.len(),
            forall|i: int|
                0 <= i < clauses@.len() ==> #[trigger] r.formula@[i] == clause_of_ints(
                    clauses@[i]@,
                ),
    {
        let mut parsed: Vec<Clause> = Vec::new();
        let mut i: usize = 0;
        while i < clauses.len()
            invariant
                i <= clauses@.len(),
                ints_have_abs(clauses@),
                parsed@.len() == i,
                forall|k: int|
                    0 <= k < i ==> #[trigger] parsed@[k]@ == clause_of_ints(clauses@[k]@),
            decreases clauses@.len() - i,
        {
            let ints = &clauses[i];
            let mut lits: Vec<Literal> = Vec::new();
            let mut j: usize = 0;
            while j < ints.len()
                invariant
                    j <= ints@.len(),
                    ints == clauses@[i as int],
                    0 <= i < clauses@.len(),
                    ints_have_abs(clauses@),
                    lits@ == clause_of_ints(ints@.subrange(0, j as int)),
                decreases ints@.len() - j,
            {
                let l = literal_from_int(ints[j]);
                lits.push(l);
                assert(ints@.subrange(0, j + 1) =~= ints@.subrange(0, j as int).push(ints@[j as int]));
                assert(clause_of_ints(ints@.subrange(0, j + 1)) =~= clause_of_ints(
                    ints@.subrange(0, j as int),
                ).push(l));
                j += 1;
            }
            assert(ints@.subrange(0, ints@.len() as int) =~= ints@);
            parsed.push(Clause { literals: lits });
            i += 1;
        }
        let r = Cnf { num_vars, num_clauses, formula: Formula { clauses: parsed } };
        assert forall|k: int| 0 <= k < clauses@.len() implies #[trigger] r.formula@[k]
            == clause_of_ints(clauses@[k]@) by {
            assert(r.formula@[k] == parsed@[k]@);
        }
        r
    }
}

/// An entry of the trail: a variable, the value it was given, the decision
/// level at which it was given, and the clause that forced it (none for a decision).
#[derive(Debug, Clone, PartialEq)]
pub struct Assignment {
    pub variable: usize,
    pub value: bool,
    pub decision_level: usize,
    pub antecedent: Option<Clause>,
}

impl Assignment {
    /// Builds a trail entry from its parts.
    pub fn new(variable: usize, value: bool, decision_level: usize, antecedent: Option<Clause>) -> (r: Self)
        ensures
            r.variable == variable,
            r.value == value,
            r.decision_level == decision_level,
            r.antecedent == antecedent,
    {
        Assignment { variable, value, decision_level, antecedent }
    }
}

} // verus!
