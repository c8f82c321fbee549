//! Reading a DIMACS instance for the simple CDCL framework, token by token.
//!
//! A line whose first token is neither `p` nor `c` holds integers, `0` closing the
//! current clause; a `p` line gives the variable and clause counts as its third
//! and fourth tokens; a `c` line is a comment. A blank line, a token that is not an
//! integer, or a `p` line without two counts cannot be read.
use vstd::prelude::*;

use crate::types::{Clause, Formula, Literal};
use crate::text::{is_white_space, white_space, is_digit, digits_value, all_digits, read_numeral};

verus! {

/// The tokens of `s` from position `i` on: the maximal runs of characters that are
/// not white space.
pub open spec fn tokens_from(s: Seq<char>, i: int) -> Seq<Seq<char>>
    decreases s.len() - i, 1int,
{
    if i < 0 || i >= s.len() {
        seq![]
    } else if is_white_space(s[i]) {
        tokens_from(s, i + 1)
    } else {
        let k = token_end(s, i);
        if i < k <= s.len() {
            seq![s.subrange(i, k)] + tokens_from(s, k)
        } else {
            seq![]
        }
    }
}

/// The end of the token that starts at `i`.
pub open spec fn token_end(s: Seq<char>, i: int) -> int
    decreases s.len() - i,
{
    if 0 <= i < s.len() && !is_white_space(s[i]) {
        token_end(s, i + 1)
    } else {
        i
    }
}

/// The tokens of a line.
pub open spec fn tokens(s: Seq<char>) -> Seq<Seq<char>> {
    tokens_from(s, 0)
}

/// A signed 32-bit integer as `str::parse` reads it: an optional `+` or `-`, then
/// digits only, at least one; `None` otherwise or when it does not fit.
pub open spec fn parse_i32(t: Seq<char>) -> Option<i32> {
    let start = if t.len() > 0 && (t[0] == '+' || t[0] == '-') { 1int } else { 0int };
    let v = digits_value(t, start, t.len() as int);
    if t.len() == start || !all_digits(t, start, t.len() as int) {
        None
    } else if t[0] == '-' {
        if v <= 0x8000_0000 { Some((0 - v) as i32) } else { None }
    } else {
        if v <= 0x7fff_ffff { Some(v as i32) } else { None }
    }
}

/// An unsigned size as `str::parse` reads it: an optional `+`, then digits only,
/// at least one; `None` otherwise or when it does not fit.
pub open spec fn parse_count(t: Seq<char>) -> Option<usize> {
    let start = if t.len() > 0 && t[0] == '+' { 1int } else { 0int };
    let v = digits_value(t, start, t.len() as int);
    if t.len() == start || !all_digits(t, start, t.len() as int) || v > usize::MAX {
        None
    } else {
        Some(v as usize)
    }
}

/// The literal of a non-zero integer of a clause line.
pub open spec fn literal_of(v: i32) -> Literal {
    Literal { variable: (if v < 0 { -v } else { v as int }) as usize, is_negated: v < 0 }
}

/// What reading has found: the counts, the closed clauses and the open one.
pub struct InstanceView {
    pub variables: usize,
    pub clause_count: usize,
    pub clauses: Seq<Seq<Literal>>,
    pub current: Seq<Literal>,
}

/// Reads the integer tokens of a clause line, in order.
pub open spec fn read_clause_tokens(st: InstanceView, toks: Seq<Seq<char>>) -> Option<InstanceView>
    decreases toks.len(),
{
    if toks.len() == 0 {
        Some(st)
    } else {
        match read_clause_tokens(st, toks.drop_last()) {
            None => None,
            Some(st1) => match parse_i32(toks.last()) {
                None => None,
                Some(v) => if v == 0 {
                    Some(InstanceView { clauses: st1.clauses.push(st1.current), current: seq![], ..st1 })
                } else {
                    Some(InstanceView { current: st1.current.push(literal_of(v)), ..st1 })
                },
            },
        }
    }
}

/// Reads one line; `None` where the line cannot be read.
pub open spec fn read_line(st: InstanceView, line: Seq<char>) -> Option<InstanceView> {
    let toks = tokens(line);
    if toks.len() == 0 {
        None
    } else if toks[0] != seq!['p'] && toks[0] != seq!['c'] {
        read_clause_tokens(st, toks)
    } else if toks[0] == seq!['p'] {
        if toks.len() < 4 {
            None
        } else {
            match (parse_count(toks[2]), parse_count(toks[3])) {
                (Some(v), Some(c)) => Some(InstanceView { variables: v, clause_count: c, ..st }),
                _ => None,
            }
        }
    } else {
        Some(st)
    }
}

/// Reads the lines in order; `None` as soon as one cannot be read.
pub open spec fn read_lines(lines: Seq<Seq<char>>) -> Option<InstanceView>
    decreases lines.len(),
{
    if lines.len() == 0 {
        Some(InstanceView { variables: 0, clause_count: 0, clauses: seq![], current: seq![] })
    } else {
        match read_lines(lines.drop_last()) {
            None => None,
            Some(st) => read_line(st, lines.last()),
        }
    }
}

/// The lines of a file, each as its characters.
pub open spec fn lines_chars(lines: Seq<Vec<char>>) -> Seq<Seq<char>> {
    lines.map_values(|l: Vec<char>| l@)
}

/// Every line can be read.
pub open spec fn instance_readable(lines: Seq<Vec<char>>) -> bool {
    read_lines(lines_chars(lines)) is Some
}

/// The tokens of a line.
fn split_tokens(s: &Vec<char>) -> (r: Vec<Vec<char>>)
    ensures
        r@.map_values(|t: Vec<char>| t@) == tokens(s@),
{
    let mut out: Vec<Vec<char>> = Vec::new();
    let mut i: usize = 0;
    let ghost target = tokens(s@);
    assert(out@.map_values(|t: Vec<char>| t@) =~= Seq::<Seq<char>>::empty());
    while i < s.len()
        invariant
            i <= s@.len(),
            target == tokens(s@),
            out@.map_values(|t: Vec<char>| t@) + tokens_from(s@, i as int) == target,
        decreases s@.len() - i, 1int,
    {
        if white_space(s[i]) {
            i += 1;
        } else {
            let mut k = i;
            while k < s.len() && !white_space(s[k])
                invariant
                    i <= k <= s@.len(),
                    token_end(s@, i as int) == token_end(s@, k as int),
                decreases s@.len() - k,
            {
                k += 1;
            }
            let mut tok: Vec<char> = Vec::new();
            let mut j = i;
            while j < k
                invariant
                    i <= j <= k,
                    k <= s@.len(),
                    tok@ == s@.subrange(i as int, j as int),
                decreases k - j,
            {
                tok.push(s[j]);
                j += 1;
                assert(tok@ =~= s@.subrange(i as int, j as int));
            }
            let ghost before = out@.map_values(|t: Vec<char>| t@);
            assert(tokens_from(s@, i as int) == seq![s@.subrange(i as int, k as int)] + tokens_from(s@, k as int));
            out.push(tok);
            assert(out@.map_values(|t: Vec<char>| t@) =~= before.push(s@.subrange(i as int, k as int)));
            assert(before + (seq![s@.subrange(i as int, k as int)] + tokens_from(s@, k as int)) =~= before.push(s@.subrange(i as int, k as int)) + tokens_from(s@, k as int));
            i = k;
        }
    }
    assert(tokens_from(s@, i as int) =~= Seq::<Seq<char>>::empty());
    assert(out@.map_values(|t: Vec<char>| t@) + Seq::<Seq<char>>::empty() =~= out@.map_values(|t: Vec<char>| t@));
    out
}

/// Whether `t[i..]` holds only digits.
fn only_digits(t: &Vec<char>, i: usize) -> (r: bool)
    requires
        i <= t@.len(),
    ensures
        r == all_digits(t@, i as int, t@.len() as int),
{
    let mut k = i;
    while k < t.len()
        invariant
            i <= k <= t@.len(),
            all_digits(t@, i as int, k as int),
        decreases t@.len() - k,
    {
        if !('0' <= t[k] && t[k] <= '9') {
            assert(!is_digit(t@[k as int]));
            return false;
        }
        k += 1;
    }
    true
}

/// Reads a signed 32-bit integer token.
fn parse_i32_token(t: &Vec<char>) -> (r: Option<i32>)
    ensures
        r == parse_i32(t@),
{
    let start: usize = if t.len() > 0 && (t[0] == '+' || t[0] == '-') { 1 } else { 0 };
    if t.len() == start || !only_digits(t, start) {
        return None;
    }
    if t[0] == '-' {
        match read_numeral(t, start, t.len(), 0x8000_0000) {
            None => None,
            Some(v) => Some((0 - (v as i64)) as i32),
        }
    } else {
        match read_numeral(t, start, t.len(), 0x7fff_ffff) {
            None => None,
            Some(v) => Some(v as i32),
        }
    }
}

/// Reads an unsigned count token.
fn parse_count_token(t: &Vec<char>) -> (r: Option<usize>)
    ensures
        r == parse_count(t@),
{
    let start: usize = if t.len() > 0 && t[0] == '+' { 1 } else { 0 };
    if t.len() == start || !only_digits(t, start) {
        return None;
    }
    match read_numeral(t, start, t.len(), usize::MAX as u64) {
        None => None,
        Some(v) => Some(v as usize),
    }
}

/// Whether a token is the one character `c`.
fn token_is(t: &Vec<char>, c: char) -> (r: bool)
    ensures
        r == (t@ == seq![c]),
{
    let r = t.len() == 1 && t[0] == c;
    proof {
        if t@ == seq![c] {
            assert(t@[0] == c);
        }
        if r {
            assert(t@ =~= seq![c]);
        }
    }
    r
}

/// What reading has found, as values.
struct InstanceState {
    variables: usize,
    clause_count: usize,
    clauses: Vec<Clause>,
    current: Vec<Literal>,
}

impl InstanceState {
    spec fn view(&self) -> InstanceView {
        InstanceView {
            variables: self.variables,
            clause_count: self.clause_count,
            clauses: self.clauses@.map_values(|c: Clause| c.literals@),
            current: self.current@,
        }
    }
}

/// Reads the lines in order; `None` as soon as one cannot be read.
fn read_instance(lines: &Vec<Vec<char>>) -> (r: Option<(usize, usize, Formula)>)
    ensures
        match read_lines(lines_chars(lines@)) {
            None => r is None,
            Some(st) => r matches Some((v, c, f)) && v == st.variables && c == st.clause_count
                && f.clauses_literals() == st.clauses,
        },
{
    let mut st = InstanceState { variables: 0, clause_count: 0, clauses: Vec::new(), current: Vec::new() };
    assert(st.view().clauses =~= Seq::<Seq<Literal>>::empty());
    assert(st.view().current =~= Seq::<Literal>::empty());
    let ghost lv = lines_chars(lines@);
    assert(lv.subrange(0, 0) =~= Seq::<Seq<char>>::empty());
    let mut i: usize = 0;
    while i < lines.len()
        invariant
            i <= lines@.len(),
            lv == lines_chars(lines@),
            read_lines(lv.subrange(0, i as int)) == Some(st.view()),
        decreases lines@.len() - i,
    {
        proof {
            let s1 = lv.subrange(0, i + 1);
            assert(s1.drop_last() =~= lv.subrange(0, i as int));
            assert(s1.last() == lines@[i as int]@);
        }
        let toks = split_tokens(&lines[i]);
        let ghost tv = toks@.map_values(|t: Vec<char>| t@);
        if toks.len() == 0 {
            proof {
                lemma_unreadable_stays(lv, i + 1);
            }
            return None;
        }
        assert(tv[0] == toks@[0]@);
        if !token_is(&toks[0], 'p') && !token_is(&toks[0], 'c') {
            let ghost st0 = st.view();
            assert(tv == tokens(lv[i as int]));
            assert(read_line(st0, lv[i as int]) == read_clause_tokens(st0, tv));
            let mut j: usize = 0;
            assert(tv.subrange(0, 0) =~= Seq::<Seq<char>>::empty());
            while j < toks.len()
                invariant
                    j <= toks@.len(),
                    tv == toks@.map_values(|t: Vec<char>| t@),
                    read_clause_tokens(st0, tv.subrange(0, j as int)) == Some(st.view()),
                    i < lines@.len(),
                    lv == lines_chars(lines@),
                    read_lines(lv.subrange(0, i as int)) == Some(st0),
                    read_line(st0, lv[i as int]) == read_clause_tokens(st0, tv),
                    lv.subrange(0, i + 1).drop_last() == lv.subrange(0, i as int),
                    lv.subrange(0, i + 1).last() == lv[i as int],
                decreases toks@.len() - j,
            {
                proof {
                    let s1 = tv.subrange(0, j + 1);
                    assert(s1.drop_last() =~= tv.subrange(0, j as int));
                    assert(s1.last() == toks@[j as int]@);
                }
                match parse_i32_token(&toks[j]) {
                    None => {
                        proof {
                            lemma_clause_tokens_fail(st0, tv, j + 1);
                            lemma_unreadable_stays(lv, i + 1);
                        }
                        return None;
                    },
                    Some(v) => {
                        let ghost before = st.view();
                        if v == 0 {
                            let mut closed: Vec<Literal> = Vec::new();
                            std::mem::swap(&mut closed, &mut st.current);
                            st.clauses.push(Clause { literals: closed });
                            assert(st.view().clauses =~= before.clauses.push(before.current));
                            assert(st.view().current =~= Seq::<Literal>::empty());
                        } else {
                            let var: usize = if v < 0 { (0 - (v as i64)) as usize } else { v as usize };
                            st.current.push(Literal { variable: var, is_negated: v < 0 });
                            assert(st.view().current =~= before.current.push(literal_of(v)));
                        }
                    },
                }
                j += 1;
            }
            assert(tv.subrange(0, toks@.len() as int) =~= tv);
        } else if token_is(&toks[0], 'p') {
            if toks.len() < 4 {
                proof {
                    lemma_unreadable_stays(lv, i + 1);
                }
                return None;
            }
            assert(tv[2] == toks@[2]@ && tv[3] == toks@[3]@);
            let v = parse_count_token(&toks[2]);
            let c = parse_count_token(&toks[3]);
            match (v, c) {
                (Some(v), Some(c)) => {
                    st.variables = v;
                    st.clause_count = c;
                },
                _ => {
                    proof {
                        lemma_unreadable_stays(lv, i + 1);
                    }
                    return None;
                },
            }
        }
        i += 1;
    }
    assert(lv.subrange(0, lines@.len() as int) =~= lv);
    let f = Formula { clauses: st.clauses };
    Some((st.variables, st.clause_count, f))
}

/// A line that cannot be read stops the reading of all the lines.
proof fn lemma_unreadable_stays(lines: Seq<Seq<char>>, i: int)
    requires
        0 <= i <= lines.len(),
        read_lines(lines.subrange(0, i)) is None,
    ensures
        read_lines(lines) is None,
    decreases lines.len() - i,
{
    if i == lines.len() {
        assert(lines.subrange(0, i) =~= lines);
    } else {
        let s1 = lines.subrange(0, i + 1);
        assert(s1.drop_last() =~= lines.subrange(0, i));
        lemma_unreadable_stays(lines, i + 1);
    }
}

/// A token that is not an integer stops the reading of the line.
proof fn lemma_clause_tokens_fail(st: InstanceView, toks: Seq<Seq<char>>, j: int)
    requires
        0 <= j <= toks.len(),
        read_clause_tokens(st, toks.subrange(0, j)) is None,
    ensures
        read_clause_tokens(st, toks) is None,
    decreases toks.len() - j,
{
    if j == toks.len() {
        assert(toks.subrange(0, j) =~= toks);
    } else {
        let s1 = toks.subrange(0, j + 1);
        assert(s1.drop_last() =~= toks.subrange(0, j));
        lemma_clause_tokens_fail(st, toks, j + 1);
    }
}

/// Whether every line can be read.
pub fn instance_is_readable(lines: &Vec<Vec<char>>) -> (r: bool)
    ensures
        r == instance_readable(lines@),
{
    read_instance(lines).is_some()
}

/// Reads an instance given as its lines: the variable count, the clause count of
/// the header, and the closed clauses (an unclosed last clause is dropped).
pub fn parse_instance(lines: &Vec<Vec<char>>) -> (r: (usize, usize, Formula))
    requires
        instance_readable(lines@),
    ensures
        r.0 == read_lines(lines_chars(lines@))->0.variables,
        r.1 == read_lines(lines_chars(lines@))->0.clause_count,
        r.2.clauses_literals() == read_lines(lines_chars(lines@))->0.clauses,
{
    match read_instance(lines) {
        Some(r) => r,
        None => (0, 0, Formula { clauses: Vec::new() }),
    }
}

} // verus!
