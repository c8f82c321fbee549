//! The data of the simple CDCL framework: literals named by their variable,
//! clauses, formulas and trail entries, with their text.
use vstd::prelude::*;

use crate::text::{decimal, push_decimal};

verus! {

/// A literal: a variable, possibly negated.
#[derive(Debug, Clone, Copy, PartialEq, Eq, Structural)]
pub struct Literal {
    pub variable: usize,
    pub is_negated: bool,
}

/// The text of a literal: its variable, after `-` when negated.
pub open spec fn literal_text(l: Literal) -> Seq<char> {
    (if l.is_negated { seq!['-'] } else { seq![] }) + decimal(l.variable as nat)
}

/// The text of a clause: its literals joined by `∨`.
pub open spec fn clause_text(c: Seq<Literal>) -> Seq<char>
    decreases c.len(),
{
    if c.len() == 0 {
        seq![]
    } else if c.len() == 1 {
        literal_text(c[0])
    } else {
        clause_text(c.drop_last()) + seq!['∨'] + literal_text(c.last())
    }
}

/// The text of a formula: its clauses joined by ` ∧ `.
pub open spec fn formula_text(f: Seq<Seq<Literal>>) -> Seq<char>
    decreases f.len(),
{
    if f.len() == 0 {
        seq![]
    } else if f.len() == 1 {
        clause_text(f[0])
    } else {
        formula_text(f.drop_last()) + seq![' ', '∧', ' '] + clause_text(f.last())
    }
}

impl Literal {
    /// The literal of the same variable with the opposite sign.
    pub fn negation(&self) -> (r: Literal)
        ensures
            r.variable == self.variable,
            r.is_negated == !self.is_negated,
    {
        Literal { variable: self.variable, is_negated: !self.is_negated }
    }

    /// The text of the literal: its variable, after `-` when negated.
    pub fn to_string(&self) -> (r: String)
        ensures
            r@ == literal_text(*self),
    {
        let mut s = String::new();
        proof {
            reveal_strlit("-");
        }
        if self.is_negated {
            s.append("-");
        }
        push_decimal(&mut s, self.variable);
        assert(s@ =~= literal_text(*self));
        s
    }
}

/// A disjunction of literals.
#[derive(Debug, Clone)]
pub struct Clause {
    pub literals: Vec<Literal>,
}

impl Clause {
    /// The text of the clause: its literals joined by `∨`.
    pub fn to_string(&self) -> (r: String)
        ensures
            r@ == clause_text(self.literals@),
    {
        let mut s = String::new();
        let mut i: usize = 0;
        assert(s@ =~= clause_text(self.literals@.subrange(0, 0)));
        while i < self.literals.len()
            invariant
                i <= self.literals@.len(),
                s@ == clause_text(self.literals@.subrange(0, i as int)),
            decreases self.literals@.len() - i,
        {
            proof {
                reveal_strlit("∨");
            }
            if i > 0 {
                s.append("∨");
            }
            let t = self.literals[i].to_string();
            s.append(t.as_str());
            proof {
                let c1 = self.literals@.subrange(0, i + 1);
                assert(c1.drop_last() =~= self.literals@.subrange(0, i as int));
                assert(c1.last() == self.literals@[i as int]);
                if i == 0 {
                    assert(c1[0] == self.literals@[0]);
                }
            }
            i += 1;
            assert(s@ =~= clause_text(self.literals@.subrange(0, i as int)));
        }
        assert(self.literals@.subrange(0, self.literals@.len() as int) =~= self.literals@);
        s
    }
}

/// A conjunction of clauses.
#[derive(Debug)]
pub struct Formula {
    pub clauses: Vec<Clause>,
}

impl Formula {
    /// The literals of each clause.
    pub open spec fn clauses_literals(&self) -> Seq<Seq<Literal>> {
        self.clauses@.map_values(|c: Clause| c.literals@)
    }

    /// The text of the formula: its clauses joined by ` ∧ `.
    pub fn to_string(&self) -> (r: String)
        ensures
            r@ == formula_text(self.clauses_literals()),
    {
        let ghost f = self.clauses_literals();
        let mut s = String::new();
        let mut i: usize = 0;
        assert(s@ =~= formula_text(f.subrange(0, 0)));
        while i < self.clauses.len()
            invariant
                i <= self.clauses@.len(),
                f == self.clauses_literals(),
                s@ == formula_text(f.subrange(0, i as int)),
            decreases self.clauses@.len() - i,
        {
            proof {
                reveal_strlit(" ∧ ");
            }
            if i > 0 {
                s.append(" ∧ ");
            }
            let t = self.clauses[i].to_string();
            s.append(t.as_str());
            proof {
                let f1 = f.subrange(0, i + 1);
                assert(f1.drop_last() =~= f.subrange(0, i as int));
                assert(f1.last() == self.clauses@[i as int].literals@);
                if i == 0 {
                    assert(f1[0] == f[0]);
                }
            }
            i += 1;
            assert(s@ =~= formula_text(f.subrange(0, i as int)));
        }
        assert(f.subrange(0, f.len() as int) =~= f);
        s
    }
}

/// A trail entry: the level at which a variable was given a value.
#[derive(Debug)]
pub struct Assignment {
    pub decision_level: usize,
    pub variable: usize,
    pub value: bool,
}

} // verus!
