//! Reading a problem in DIMACS CNF form, line by line.
//!
//! Each line is trimmed of white space. Empty lines and lines that start with `c`
//! are comments. A line that starts with `p` is the header `p cnf <vars> <clauses>`
//! (what follows the clause count is not read). Any other line holds integers
//! separated by spaces, tabs, carriage returns or line feeds; reading stops at the
//! first separator not followed by an integer. A `0` ends the current clause.
use vstd::prelude::*;

use crate::cnf::{Cnf, clause_of_ints};
use crate::text::{is_white_space, white_space, is_digit, digits_value, all_digits, read_numeral};

verus! {

/// The errors of reading a DIMACS file.
#[derive(Debug, Clone, Copy, PartialEq, Eq, Structural)]
pub enum ParserError {
    FailedToOpenFile,
    FailedToRecoverLine,
    UnterminatedClause,
    InvalidHeader,
    InvalidClause,
}

/// A space, a tab, a carriage return or a line feed.
pub open spec fn is_multispace(c: char) -> bool {
    c == ' ' || c == '\t' || c == '\r' || c == '\n'
}

/// The end of the run of separators that starts at `i`.
pub open spec fn multispace_end(s: Seq<char>, i: int) -> int
    decreases s.len() - i,
{
    if 0 <= i < s.len() && is_multispace(s[i]) {
        multispace_end(s, i + 1)
    } else {
        i
    }
}

/// The end of the run of digits that starts at `i`.
pub open spec fn digits_end(s: Seq<char>, i: int) -> int
    decreases s.len() - i,
{
    if 0 <= i < s.len() && is_digit(s[i]) {
        digits_end(s, i + 1)
    } else {
        i
    }
}

/// A run of digits from `i` to `j` that ends the text or stops before a character
/// that is not a digit is the run that starts at `i`.
pub proof fn lemma_digits_end_run(s: Seq<char>, i: int, j: int)
    requires
        0 <= i <= j <= s.len(),
        all_digits(s, i, j),
        j == s.len() || !is_digit(s[j]),
    ensures
        digits_end(s, i) == j,
    decreases j - i,
{
    if i < j {
        lemma_digits_end_run(s, i + 1, j);
    }
}

/// A signed 32-bit integer read at `i`: an optional `+` or `-`, then at least one
/// digit, as many as follow; `None` without a digit or when the value does not
/// fit. The position after the last digit comes with the value.
pub open spec fn int_at(s: Seq<char>, i: int) -> Option<(i32, int)> {
    let neg = 0 <= i < s.len() && s[i] == '-';
    let k = if 0 <= i < s.len() && (s[i] == '-' || s[i] == '+') { i + 1 } else { i };
    let e = digits_end(s, k);
    let v = digits_value(s, k, e);
    if e == k {
        None
    } else if neg {
        if v <= 0x8000_0000 { Some(((0 - v) as i32, e)) } else { None }
    } else {
        if v <= 0x7fff_ffff { Some((v as i32, e)) } else { None }
    }
}

/// The integers that follow position `i`, each after a run of separators, up to
/// the first run not followed by an integer.
pub open spec fn ints_after(s: Seq<char>, i: int) -> Seq<i32>
    decreases s.len() - i,
{
    let j = multispace_end(s, i);
    if j <= i || i < 0 {
        seq![]
    } else {
        match int_at(s, j) {
            None => seq![],
            Some((v, k)) => if i < k <= s.len() {
                seq![v] + ints_after(s, k)
            } else {
                seq![]
            },
        }
    }
}

/// The integers of a clause line: one at the start, then those that follow.
pub open spec fn clause_ints(s: Seq<char>) -> Option<Seq<i32>> {
    match int_at(s, 0) {
        None => None,
        Some((v, k)) => Some(seq![v] + ints_after(s, k)),
    }
}

/// A decimal numeral of at least one digit at `i` whose value fits in `usize`,
/// with the position after it.
pub open spec fn usize_at(s: Seq<char>, i: int) -> Option<(usize, int)> {
    let e = digits_end(s, i);
    if e == i || digits_value(s, i, e) > usize::MAX {
        None
    } else {
        Some((digits_value(s, i, e) as usize, e))
    }
}

/// The counts of a header line `p cnf <vars> <clauses>`.
pub open spec fn header_counts(s: Seq<char>) -> Option<(usize, usize)> {
    let j1 = multispace_end(s, 1);
    let j2 = multispace_end(s, j1 + 3);
    if s.len() >= 1 && s[0] == 'p' && j1 > 1 && j1 + 3 <= s.len() && s[j1] == 'c' && s[j1 + 1] == 'n' && s[j1 + 2]
        == 'f' && j2 > j1 + 3 {
        match usize_at(s, j2) {
            None => None,
            Some((vars, d1)) => {
                let j3 = multispace_end(s, d1);
                if j3 > d1 {
                    match usize_at(s, j3) {
                        None => None,
                        Some((clauses, d2)) => Some((vars, clauses)),
                    }
                } else {
                    None
                }
            },
        }
    } else {
        None
    }
}

/// `s` without its leading white space.
pub open spec fn trim_start(s: Seq<char>) -> Seq<char>
    decreases s.len(),
{
    if s.len() > 0 && is_white_space(s[0]) {
        trim_start(s.drop_first())
    } else {
        s
    }
}

/// `s` without its trailing white space.
pub open spec fn trim_end(s: Seq<char>) -> Seq<char>
    decreases s.len(),
{
    if s.len() > 0 && is_white_space(s.last()) {
        trim_end(s.drop_last())
    } else {
        s
    }
}

/// `s` without its leading and trailing white space.
pub open spec fn trim(s: Seq<char>) -> Seq<char> {
    trim_end(trim_start(s))
}

/// What reading the lines so far has found.
pub struct ScanView {
    pub num_vars: Option<usize>,
    pub num_clauses: Option<usize>,
    pub clauses: Seq<Seq<i32>>,
    pub current: Seq<i32>,
}

/// Adds the integers of a clause line: `0` closes the current clause.
pub open spec fn add_ints(st: ScanView, ints: Seq<i32>) -> ScanView
    decreases ints.len(),
{
    if ints.len() == 0 {
        st
    } else {
        let st1 = add_ints(st, ints.drop_last());
        if ints.last() == 0 {
            ScanView { clauses: st1.clauses.push(st1.current), current: seq![], ..st1 }
        } else {
            ScanView { current: st1.current.push(ints.last()), ..st1 }
        }
    }
}

/// Reads one line.
pub open spec fn scan_line(st: ScanView, line: Seq<char>) -> Result<ScanView, ParserError> {
    let t = trim(line);
    if t.len() == 0 || t[0] == 'c' {
        Ok(st)
    } else if t[0] == 'p' {
        match header_counts(t) {
            None => Err(ParserError::InvalidHeader),
            Some((v, c)) => Ok(ScanView { num_vars: Some(v), num_clauses: Some(c), ..st }),
        }
    } else {
        match clause_ints(t) {
            None => Err(ParserError::InvalidClause),
            Some(ints) => Ok(add_ints(st, ints)),
        }
    }
}

/// Reads the lines in order, stopping at the first error.
pub open spec fn scan_lines(lines: Seq<Seq<char>>) -> Result<ScanView, ParserError>
    decreases lines.len(),
{
    if lines.len() == 0 {
        Ok(ScanView { num_vars: None, num_clauses: None, clauses: seq![], current: seq![] })
    } else {
        match scan_lines(lines.drop_last()) {
            Err(e) => Err(e),
            Ok(st) => scan_line(st, lines.last()),
        }
    }
}

/// The lines of a file, each as its characters.
pub open spec fn lines_view(lines: Seq<Vec<char>>) -> Seq<Seq<char>> {
    lines.map_values(|l: Vec<char>| l@)
}

/// What reading the lines of a DIMACS file has found: the counts of the header,
/// if one was read, the closed clauses and the clause still open.
pub struct CnfScan {
    pub num_vars: Option<usize>,
    pub num_clauses: Option<usize>,
    pub clauses: Vec<Vec<i32>>,
    pub current: Vec<i32>,
}

impl View for CnfScan {
    type V = ScanView;

    open spec fn view(&self) -> ScanView {
        ScanView {
            num_vars: self.num_vars,
            num_clauses: self.num_clauses,
            clauses: self.clauses@.map_values(|c: Vec<i32>| c@),
            current: self.current@,
        }
    }
}

/// The end of the run of separators at `i`.
fn skip_multispace(s: &Vec<char>, i: usize) -> (j: usize)
    requires
        i <= s@.len(),
    ensures
        j as int == multispace_end(s@, i as int),
        i <= j <= s@.len(),
{
    let mut j = i;
    while j < s.len() && (s[j] == ' ' || s[j] == '\t' || s[j] == '\r' || s[j] == '\n')
        invariant
            i <= j <= s@.len(),
            multispace_end(s@, i as int) == multispace_end(s@, j as int),
        decreases s@.len() - j,
    {
        j += 1;
    }
    j
}

/// The end of the run of digits at `i`.
fn skip_digits(s: &Vec<char>, i: usize) -> (j: usize)
    requires
        i <= s@.len(),
    ensures
        j as int == digits_end(s@, i as int),
        i <= j <= s@.len(),
        all_digits(s@, i as int, j as int),
{
    let mut j = i;
    while j < s.len() && '0' <= s[j] && s[j] <= '9'
        invariant
            i <= j <= s@.len(),
            digits_end(s@, i as int) == digits_end(s@, j as int),
            all_digits(s@, i as int, j as int),
        decreases s@.len() - j,
    {
        j += 1;
    }
    j
}

/// Reads a signed 32-bit integer at `i`.
fn read_int(s: &Vec<char>, i: usize) -> (r: Option<(i32, usize)>)
    requires
        i <= s@.len(),
    ensures
        match r {
            None => int_at(s@, i as int) is None,
            Some((v, k)) => int_at(s@, i as int) == Some((v, k as int)) && i < k <= s@.len(),
        },
{
    let neg = i < s.len() && s[i] == '-';
    let k = if i < s.len() && (s[i] == '-' || s[i] == '+') { i + 1 } else { i };
    let e = skip_digits(s, k);
    if e == k {
        return None;
    }
    if neg {
        match read_numeral(s, k, e, 0x8000_0000) {
            None => None,
            Some(v) => {
                let r = (0 - (v as i64)) as i32;
                Some((r, e))
            },
        }
    } else {
        match read_numeral(s, k, e, 0x7fff_ffff) {
            None => None,
            Some(v) => Some((v as i32, e)),
        }
    }
}

/// Reads the integers of a clause line.
fn parse_clause_lits(s: &Vec<char>) -> (r: Option<Vec<i32>>)
    ensures
        match r {
            None => clause_ints(s@) is None,
            Some(v) => clause_ints(s@) == Some(v@),
        },
{
    let (first, k0) = match read_int(s, 0) {
        None => return None,
        Some(p) => p,
    };
    let ghost target = seq![first] + ints_after(s@, k0 as int);
    assert(clause_ints(s@) == Some(target));
    let mut out: Vec<i32> = Vec::new();
    out.push(first);
    let mut pos = k0;
    assert(out@ =~= seq![first]);
    while pos < s.len()
        invariant
            pos <= s@.len(),
            out@ + ints_after(s@, pos as int) == target,
            clause_ints(s@) == Some(target),
        decreases s@.len() - pos,
    {
        let j = skip_multispace(s, pos);
        if j == pos {
            assert(ints_after(s@, pos as int) =~= Seq::<i32>::empty());
            assert(out@ + Seq::<i32>::empty() =~= out@);
            return Some(out);
        }
        match read_int(s, j) {
            None => {
                assert(ints_after(s@, pos as int) =~= Seq::<i32>::empty());
                assert(out@ + Seq::<i32>::empty() =~= out@);
                return Some(out);
            },
            Some((v, k)) => {
                assert(ints_after(s@, pos as int) == seq![v] + ints_after(s@, k as int));
                let ghost before = out@;
                out.push(v);
                assert(before + (seq![v] + ints_after(s@, k as int)) =~= out@ + ints_after(s@, k as int));
                pos = k;
            },
        }
    }
    assert(ints_after(s@, pos as int) =~= Seq::<i32>::empty());
    assert(out@ + Seq::<i32>::empty() =~= out@);
    Some(out)
}

/// Reads a `usize` numeral at `i`.
fn parse_usize(s: &Vec<char>, i: usize) -> (r: Option<(usize, usize)>)
    requires
        i <= s@.len(),
    ensures
        match r {
            None => usize_at(s@, i as int) is None,
            Some((v, k)) => usize_at(s@, i as int) == Some((v, k as int)) && k <= s@.len(),
        },
{
    let e = skip_digits(s, i);
    if e == i {
        return None;
    }
    match read_numeral(s, i, e, usize::MAX as u64) {
        None => None,
        Some(v) => Some((v as usize, e)),
    }
}

/// Reads the counts of a header line.
fn parse_header_line(s: &Vec<char>) -> (r: Option<(usize, usize)>)
    requires
        s@.len() >= 1,
        s@[0] == 'p',
    ensures
        r == header_counts(s@),
{
    let j1 = skip_multispace(s, 1);
    if !(j1 > 1 && j1 < s.len() && s.len() - j1 >= 3 && s[j1] == 'c' && s[j1 + 1] == 'n' && s[j1 + 2] == 'f') {
        return None;
    }
    let j2 = skip_multispace(s, j1 + 3);
    if j2 == j1 + 3 {
        return None;
    }
    let (vars, d1) = match parse_usize(s, j2) {
        None => return None,
        Some(p) => p,
    };
    let j3 = skip_multispace(s, d1);
    if j3 == d1 {
        return None;
    }
    match parse_usize(s, j3) {
        None => None,
        Some((clauses, _)) => Some((vars, clauses)),
    }
}

/// Removes the leading white space: the result equals `s` from position `a` on.
proof fn lemma_trim_start(s: Seq<char>, a: int)
    requires
        0 <= a <= s.len(),
        forall|k: int| 0 <= k < a ==> is_white_space(#[trigger] s[k]),
        a == s.len() || !is_white_space(s[a]),
    ensures
        trim_start(s) == s.subrange(a, s.len() as int),
    decreases a,
{
    if a == 0 {
        assert(s.subrange(0, s.len() as int) =~= s);
    } else {
        let d = s.drop_first();
        assert forall|k: int| 0 <= k < a - 1 implies is_white_space(#[trigger] d[k]) by {
            assert(d[k] == s[k + 1]);
        }
        if a < s.len() {
            assert(d[a - 1] == s[a]);
        }
        lemma_trim_start(d, a - 1);
        assert(d.subrange(a - 1, d.len() as int) =~= s.subrange(a, s.len() as int));
    }
}

/// Removes the trailing white space: the result equals `s` up to position `b`.
proof fn lemma_trim_end(s: Seq<char>, b: int)
    requires
        0 <= b <= s.len(),
        forall|k: int| b <= k < s.len() ==> is_white_space(#[trigger] s[k]),
        b == 0 || !is_white_space(s[b - 1]),
    ensures
        trim_end(s) == s.subrange(0, b),
    decreases s.len() - b,
{
    if b == s.len() {
        if s.len() > 0 {
            assert(s.last() == s[b - 1]);
        }
        assert(s.subrange(0, b) =~= s);
    } else {
        let d = s.drop_last();
        assert(s.last() == s[s.len() - 1]);
        assert forall|k: int| b <= k < d.len() implies is_white_space(#[trigger] d[k]) by {
            assert(d[k] == s[k]);
        }
        if b > 0 {
            assert(d[b - 1] == s[b - 1]);
        }
        lemma_trim_end(d, b);
        assert(d.subrange(0, b) =~= s.subrange(0, b));
    }
}

/// A line without its leading and trailing white space.
pub fn trim_line(s: &Vec<char>) -> (r: Vec<char>)
    ensures
        r@ == trim(s@),
{
    let mut a: usize = 0;
    while a < s.len() && white_space(s[a])
        invariant
            a <= s@.len(),
            forall|k: int| 0 <= k < a ==> is_white_space(#[trigger] s@[k]),
        decreases s@.len() - a,
    {
        a += 1;
    }
    proof {
        lemma_trim_start(s@, a as int);
    }
    let mut b: usize = s.len();
    while b > a && white_space(s[b - 1])
        invariant
            a <= b <= s@.len(),
            forall|k: int| b <= k < s@.len() ==> is_white_space(#[trigger] s@[k]),
        decreases b,
    {
        b -= 1;
    }
    let ghost mid = s@.subrange(a as int, s@.len() as int);
    proof {
        assert forall|k: int| b - a <= k < mid.len() implies is_white_space(#[trigger] mid[k]) by {
            assert(mid[k] == s@[a + k]);
        }
        if b > a {
            assert(mid[b - a - 1] == s@[b - 1]);
        }
        lemma_trim_end(mid, (b - a) as int);
    }
    let mut out: Vec<char> = Vec::new();
    let mut k: usize = a;
    while k < b
        invariant
            a <= k <= b,
            b <= s@.len(),
            out@ == s@.subrange(a as int, k as int),
        decreases b - k,
    {
        out.push(s[k]);
        k += 1;
        assert(out@ =~= s@.subrange(a as int, k as int));
    }
    assert(mid.subrange(0, (b - a) as int) =~= s@.subrange(a as int, b as int));
    out
}

/// Adds the integers of a clause line to what was read.
fn add_clause_ints(sc: &mut CnfScan, ints: &Vec<i32>)
    ensures
        final(sc)@ == add_ints(old(sc)@, ints@),
{
    let ghost st0 = sc@;
    let mut i: usize = 0;
    while i < ints.len()
        invariant
            i <= ints@.len(),
            sc@ == add_ints(st0, ints@.subrange(0, i as int)),
        decreases ints@.len() - i,
    {
        let v = ints[i];
        let ghost before = sc@;
        proof {
            let s1 = ints@.subrange(0, i + 1);
            assert(s1.drop_last() =~= ints@.subrange(0, i as int));
            assert(s1.last() == v);
        }
        if v == 0 {
            let mut closed: Vec<i32> = Vec::new();
            std::mem::swap(&mut closed, &mut sc.current);
            sc.clauses.push(closed);
            assert(sc@.clauses =~= before.clauses.push(before.current));
            assert(sc@.current =~= Seq::<i32>::empty());
        } else {
            sc.current.push(v);
        }
        i += 1;
    }
    assert(ints@.subrange(0, ints@.len() as int) =~= ints@);
}

/// An error stays an error as more lines are read.
proof fn lemma_scan_error_stays(lines: Seq<Seq<char>>, i: int, e: ParserError)
    requires
        0 <= i <= lines.len(),
        scan_lines(lines.subrange(0, i)) == Err::<ScanView, ParserError>(e),
    ensures
        scan_lines(lines) == Err::<ScanView, ParserError>(e),
    decreases lines.len() - i,
{
    if i == lines.len() {
        assert(lines.subrange(0, i) =~= lines);
    } else {
        let s1 = lines.subrange(0, i + 1);
        assert(s1.drop_last() =~= lines.subrange(0, i));
        lemma_scan_error_stays(lines, i + 1, e);
    }
}

/// Reads the lines of a DIMACS file in order, stopping at the first line that is
/// neither a comment, a valid header nor a valid clause line.
pub fn scan_cnf_lines(lines: &Vec<Vec<char>>) -> (r: Result<CnfScan, ParserError>)
    ensures
        match r {
            Ok(sc) => scan_lines(lines_view(lines@)) == Ok::<ScanView, ParserError>(sc@),
            Err(e) => scan_lines(lines_view(lines@)) == Err::<ScanView, ParserError>(e),
        },
{
    let mut sc = CnfScan { num_vars: None, num_clauses: None, clauses: Vec::new(), current: Vec::new() };
    let mut i: usize = 0;
    assert(sc@.clauses =~= Seq::<Seq<i32>>::empty());
    assert(sc@.current =~= Seq::<i32>::empty());
    assert(lines_view(lines@).subrange(0, 0) =~= Seq::<Seq<char>>::empty());
    while i < lines.len()
        invariant
            i <= lines@.len(),
            scan_lines(lines_view(lines@).subrange(0, i as int)) == Ok::<ScanView, ParserError>(sc@),
        decreases lines@.len() - i,
    {
        let ghost lv = lines_view(lines@);
        proof {
            let s1 = lv.subrange(0, i + 1);
            assert(s1.drop_last() =~= lv.subrange(0, i as int));
            assert(s1.last() == lines@[i as int]@);
        }
        let t = trim_line(&lines[i]);
        if t.len() == 0 || t[0] == 'c' {
        } else if t[0] == 'p' {
            match parse_header_line(&t) {
                None => {
                    proof {
                        lemma_scan_error_stays(lv, i + 1, ParserError::InvalidHeader);
                    }
                    return Err(ParserError::InvalidHeader);
                },
                Some((v, c)) => {
                    sc.num_vars = Some(v);
                    sc.num_clauses = Some(c);
                },
            }
        } else {
            match parse_clause_lits(&t) {
                None => {
                    proof {
                        lemma_scan_error_stays(lv, i + 1, ParserError::InvalidClause);
                    }
                    return Err(ParserError::InvalidClause);
                },
                Some(ints) => {
                    add_clause_ints(&mut sc, &ints);
                },
            }
        }
        i += 1;
    }
    assert(lines_view(lines@).subrange(0, lines@.len() as int) =~= lines_view(lines@));
    Ok(sc)
}

/// No integer read is `i32::MIN`, the one whose absolute value does not fit.
pub open spec fn no_min_int(cs: Seq<Seq<i32>>) -> bool {
    forall|i: int, j: int| 0 <= i < cs.len() && 0 <= j < cs[i].len() ==> #[trigger] cs[i][j] != i32::MIN
}

/// Reading ends in an error, in an open clause, or with a header and no `i32::MIN`:
/// on the other inputs the end of reading fails.
pub open spec fn cnf_readable(lines: Seq<Seq<char>>) -> bool {
    match scan_lines(lines) {
        Err(_) => true,
        Ok(st) => st.current.len() > 0 || (st.num_vars is Some && st.num_clauses is Some && no_min_int(st.clauses)),
    }
}

/// The problem that what was read states: an error if a clause is still open.
pub fn cnf_from_scan(scan: CnfScan) -> (r: Result<Cnf, ParserError>)
    requires
        scan@.current.len() > 0 || (scan.num_vars is Some && scan.num_clauses is Some && no_min_int(scan@.clauses)),
    ensures
        scan@.current.len() > 0 ==> r == Err::<Cnf, ParserError>(ParserError::UnterminatedClause),
        scan@.current.len() == 0 ==> (r matches Ok(cnf) && cnf.num_vars == scan.num_vars->0
            && cnf.num_clauses == scan.num_clauses->0 && cnf.formula@.len() == scan@.clauses.len()
            && forall|i: int| 0 <= i < scan@.clauses.len() ==> #[trigger] cnf.formula@[i] == clause_of_ints(scan@.clauses[i])),
{
    if scan.current.len() > 0 {
        return Err(ParserError::UnterminatedClause);
    }
    let nv = scan.num_vars.unwrap();
    let nc = scan.num_clauses.unwrap();
    let ghost cv = scan@.clauses;
    assert forall|i: int, j: int| 0 <= i < scan.clauses@.len() && 0 <= j < scan.clauses@[i]@.len() implies scan.clauses@[i]@[j] != i32::MIN by {
        assert(cv[i] == scan.clauses@[i]@);
    }
    let cnf = Cnf::new(nv, nc, scan.clauses);
    assert forall|i: int| 0 <= i < cv.len() implies #[trigger] cnf.formula@[i] == clause_of_ints(cv[i]) by {
        assert(cv[i] == scan.clauses@[i]@);
    }
    Ok(cnf)
}

/// Reads a DIMACS file given as its lines: the header gives the counts, each `0`
/// closes a clause. Errors: `InvalidHeader` or `InvalidClause` for the first line
/// that is neither a comment nor valid, then `UnterminatedClause` if the last clause
/// is not closed.
pub fn parse_cnf(lines: &Vec<Vec<char>>) -> (r: Result<Cnf, ParserError>)
    requires
        cnf_readable(lines_view(lines@)),
    ensures
        match scan_lines(lines_view(lines@)) {
            Err(e) => r == Err::<Cnf, ParserError>(e),
            Ok(st) => if st.current.len() > 0 {
                r == Err::<Cnf, ParserError>(ParserError::UnterminatedClause)
            } else {
                r matches Ok(cnf) && cnf.num_vars == st.num_vars->0 && cnf.num_clauses == st.num_clauses->0
                    && cnf.formula@.len() == st.clauses.len() && forall|i: int|
                    0 <= i < st.clauses.len() ==> #[trigger] cnf.formula@[i] == clause_of_ints(st.clauses[i])
            },
        },
{
    let scan = scan_cnf_lines(lines)?;
    cnf_from_scan(scan)
}

} // verus!
