//! The command line's data and decisions: its arguments, its errors, the test of
//! the input's extension and the line that reports a model.
use vstd::prelude::*;

use crate::cnf::Assignment;
use crate::dimacs::ParserError;
use crate::text::{decimal, push_decimal};

verus! {

/// The arguments of the `solve` command.
pub struct SolveCommandArgs {
    /// The DIMACS input file to be solved
    pub problem_file: String,
}

/// The commands of the command line.
pub enum Command {
    Solve(SolveCommandArgs),
}

/// The command line.
pub struct Cli {
    pub command: Command,
}

/// Errors about the input and proof files.
#[derive(Debug, Clone, Copy, PartialEq, Eq, Structural)]
pub enum IoError {
    DifferentExtension,
    MissingExtension,
    FailedToCreateProofFile,
    FailedToWriteToProofFile,
}

/// The errors of the command line.
#[derive(Debug, Clone, Copy, PartialEq, Eq, Structural)]
pub enum AppError {
    Io(IoError),
    Parser(ParserError),
}

impl From<IoError> for AppError {
    fn from(e: IoError) -> (r: AppError) {
        AppError::Io(e)
    }
}

impl vstd::std_specs::convert::FromSpecImpl<IoError> for AppError {
    open spec fn obeys_from_spec() -> bool {
        true
    }

    open spec fn from_spec(e: IoError) -> AppError {
        AppError::Io(e)
    }
}

impl From<ParserError> for AppError {
    fn from(e: ParserError) -> (r: AppError) {
        AppError::Parser(e)
    }
}

impl vstd::std_specs::convert::FromSpecImpl<ParserError> for AppError {
    open spec fn obeys_from_spec() -> bool {
        true
    }

    open spec fn from_spec(e: ParserError) -> AppError {
        AppError::Parser(e)
    }
}

/// Accepts an input whose extension is `cnf`: `MissingExtension` without one,
/// `DifferentExtension` with another.
pub fn check_input_extension(extension: Option<&str>) -> (r: Result<(), IoError>)
    ensures
        match extension {
            None => r == Err::<(), IoError>(IoError::MissingExtension),
            Some(e) => if e@ == seq!['c', 'n', 'f'] {
                r == Ok::<(), IoError>(())
            } else {
                r == Err::<(), IoError>(IoError::DifferentExtension)
            },
        },
{
    match extension {
        None => Err(IoError::MissingExtension),
        Some(e) => {
            if e.unicode_len() == 3 && e.get_char(0) == 'c' && e.get_char(1) == 'n' && e.get_char(2) == 'f' {
                assert(e@ =~= seq!['c', 'n', 'f']);
                Ok(())
            } else {
                proof {
                    if e@ == seq!['c', 'n', 'f'] {
                        assert(e@[0] == 'c' && e@[1] == 'n' && e@[2] == 'f');
                    }
                }
                Err(IoError::DifferentExtension)
            }
        },
    }
}

/// A variable and its value.
pub open spec fn pair_of(a: Assignment) -> (usize, bool) {
    (a.variable, a.value)
}

/// Inserts `x` after every entry whose variable is not above its own.
pub open spec fn insert_by_variable(s: Seq<(usize, bool)>, x: (usize, bool)) -> Seq<(usize, bool)>
    decreases s.len(),
{
    if s.len() == 0 {
        seq![x]
    } else if s.last().0 <= x.0 {
        s.push(x)
    } else {
        insert_by_variable(s.drop_last(), x).push(s.last())
    }
}

/// The entries ordered by variable, entries of the same variable in their order:
/// a stable sort.
pub open spec fn sort_by_variable(s: Seq<(usize, bool)>) -> Seq<(usize, bool)>
    decreases s.len(),
{
    if s.len() == 0 {
        seq![]
    } else {
        insert_by_variable(sort_by_variable(s.drop_last()), s.last())
    }
}

/// The text of each entry, `-v ` when the value is true and `v ` when it is false,
/// one after the other.
pub open spec fn entries_text(s: Seq<(usize, bool)>) -> Seq<char>
    decreases s.len(),
{
    if s.len() == 0 {
        seq![]
    } else {
        entries_text(s.drop_last()) + (if s.last().1 { seq!['-'] } else { seq![] }) + decimal(s.last().0 as nat)
            + seq![' ']
    }
}

/// Inserting at the position after the last entry whose variable is not above that
/// of `x` is the insertion of the spec.
proof fn lemma_insert_position(s: Seq<(usize, bool)>, x: (usize, bool), p: int)
    requires
        0 <= p <= s.len(),
        forall|k: int| p <= k < s.len() ==> (#[trigger] s[k]).0 > x.0,
        p == 0 || s[p - 1].0 <= x.0,
    ensures
        insert_by_variable(s, x) == s.insert(p, x),
    decreases s.len() - p,
{
    if s.len() == 0 {
        assert(s.insert(p, x) =~= seq![x]);
    } else if p == s.len() {
        assert(s.last() == s[p - 1]);
        assert(s.insert(p, x) =~= s.push(x));
    } else {
        let d = s.drop_last();
        assert(s.last() == s[s.len() - 1]);
        assert forall|k: int| p <= k < d.len() implies (#[trigger] d[k]).0 > x.0 by {
            assert(d[k] == s[k]);
        }
        if p > 0 {
            assert(d[p - 1] == s[p - 1]);
        }
        lemma_insert_position(d, x, p);
        assert(d.insert(p, x).push(s.last()) =~= s.insert(p, x));
    }
}

/// The line that reports a model: its entries ordered by variable (a stable sort),
/// each written `-v ` when its value is true and `v ` when it is false.
pub fn assignment_line(model: &Vec<Assignment>) -> (r: String)
    ensures
        r@ == entries_text(sort_by_variable(model@.map_values(|a: Assignment| pair_of(a)))),
{
    let ghost pairs = model@.map_values(|a: Assignment| pair_of(a));
    let mut sorted: Vec<(usize, bool)> = Vec::new();
    let mut i: usize = 0;
    while i < model.len()
        invariant
            i <= model@.len(),
            pairs == model@.map_values(|a: Assignment| pair_of(a)),
            sorted@ == sort_by_variable(pairs.subrange(0, i as int)),
        decreases model@.len() - i,
    {
        let x = (model[i].variable, model[i].value);
        assert(x == pairs[i as int]);
        let mut p = sorted.len();
        while p > 0 && sorted[p - 1].0 > x.0
            invariant
                p <= sorted@.len(),
                forall|k: int| p <= k < sorted@.len() ==> (#[trigger] sorted@[k]).0 > x.0,
            decreases p,
        {
            p -= 1;
        }
        proof {
            lemma_insert_position(sorted@, x, p as int);
            let s1 = pairs.subrange(0, i + 1);
            assert(s1.drop_last() =~= pairs.subrange(0, i as int));
            assert(s1.last() == x);
        }
        sorted.insert(p, x);
        i += 1;
    }
    assert(pairs.subrange(0, model@.len() as int) =~= pairs);
    let mut out = String::new();
    let mut k: usize = 0;
    proof {
        reveal_strlit("-");
        reveal_strlit(" ");
    }
    assert(out@ =~= entries_text(sorted@.subrange(0, 0)));
    while k < sorted.len()
        invariant
            k <= sorted@.len(),
            out@ == entries_text(sorted@.subrange(0, k as int)),
        decreases sorted@.len() - k,
    {
        let (v, val) = sorted[k];
        let ghost before = out@;
        if val {
            out.append("-");
        }
        push_decimal(&mut out, v);
        out.append(" ");
        proof {
            reveal_strlit("-");
            reveal_strlit(" ");
            let s1 = sorted@.subrange(0, k + 1);
            assert(s1.drop_last() =~= sorted@.subrange(0, k as int));
            assert(s1.last() == (v, val));
            assert(out@ =~= entries_text(s1));
        }
        k += 1;
    }
    assert(sorted@.subrange(0, sorted@.len() as int) =~= sorted@);
    out
}

} // verus!
