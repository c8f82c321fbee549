//! Laws of reading: the numerals and literals that the readers take are read back
//! as the numbers and literals they stand for, and the model line is ordered.
use vstd::prelude::*;

use crate::cnf::{literal_of_int, clause_of_ints};
use crate::dimacs::{
    ParserError, ScanView, int_at, usize_at, header_counts, multispace_end, ints_after, clause_ints, trim,
    trim_start, trim_end, add_ints, scan_line, scan_lines, lemma_digits_end_run,
};
use crate::cli::{insert_by_variable, sort_by_variable};
use crate::instance::{
    InstanceView, parse_i32, parse_count, literal_of, tokens, tokens_from, token_end, read_clause_tokens,
    read_line, read_lines,
};
use crate::text::{decimal, signed_decimal, is_digit, is_white_space, lemma_decimal_at, lemma_decimal_first};

verus! {

/// The integer a literal of the problem stands for: its variable, negated when the
/// literal is.
pub open spec fn literal_int(l: crate::cnf::Literal) -> int {
    if l.is_negated { -(l.value as int) } else { l.value as int }
}

/// The integer a literal of the simple framework stands for.
pub open spec fn framework_literal_int(l: crate::types::Literal) -> int {
    if l.is_negated { -(l.variable as int) } else { l.variable as int }
}

/// A DIMACS integer is read whole: where the numeral of `n` (with `-` when it is
/// negative) stands in a line, not followed by a digit, reading an integer there
/// gives `n` and the position after the numeral.
pub proof fn law_int_read_back(s: Seq<char>, i: int, n: i32)
    requires
        0 <= i,
        i + signed_decimal(n as int).len() <= s.len(),
        s.subrange(i, i + signed_decimal(n as int).len()) == signed_decimal(n as int),
        i + signed_decimal(n as int).len() == s.len() || !is_digit(s[i + signed_decimal(n as int).len()]),
    ensures
        int_at(s, i) == Some((n, i + signed_decimal(n as int).len())),
{
    let d = signed_decimal(n as int);
    let e = i + d.len();
    if n < 0 {
        let a = (-n) as nat;
        let num = decimal(a);
        assert(d == seq!['-'] + num);
        assert(s[i] == d[0]);
        assert(s.subrange(i + 1, e) =~= d.subrange(1, d.len() as int));
        assert(d.subrange(1, d.len() as int) =~= num);
        lemma_decimal_at(s, i + 1, a);
        lemma_digits_end_run(s, i + 1, e);
    } else {
        let num = decimal(n as nat);
        lemma_decimal_first(n as nat);
        assert(s[i] == d[0]);
        lemma_decimal_at(s, i, n as nat);
        lemma_digits_end_run(s, i, e);
    }
}

/// A count is read whole: where the numeral of `n` stands in a line, not followed by
/// a digit, reading a count there gives `n` and the position after the numeral.
pub proof fn law_count_read_back(s: Seq<char>, i: int, n: usize)
    requires
        0 <= i,
        i + decimal(n as nat).len() <= s.len(),
        s.subrange(i, i + decimal(n as nat).len()) == decimal(n as nat),
        i + decimal(n as nat).len() == s.len() || !is_digit(s[i + decimal(n as nat).len()]),
    ensures
        usize_at(s, i) == Some((n, i + decimal(n as nat).len())),
{
    let e = i + decimal(n as nat).len();
    lemma_decimal_at(s, i, n as nat);
    lemma_digits_end_run(s, i, e);
}

/// An integer token is read whole: the numeral of `n` (with `-` when it is negative)
/// is read as `n`.
pub proof fn law_token_read_back(n: i32)
    ensures
        parse_i32(signed_decimal(n as int)) == Some(n),
{
    let d = signed_decimal(n as int);
    if n < 0 {
        let a = (-n) as nat;
        assert(d == seq!['-'] + decimal(a));
        assert(d.subrange(1, d.len() as int) =~= decimal(a));
        lemma_decimal_at(d, 1, a);
    } else {
        lemma_decimal_first(n as nat);
        assert(d.subrange(0, d.len() as int) =~= d);
        lemma_decimal_at(d, 0, n as nat);
    }
}

/// A count token is read whole: the numeral of `n` is read as `n`.
pub proof fn law_count_token_read_back(n: usize)
    ensures
        parse_count(decimal(n as nat)) == Some(n),
{
    let d = decimal(n as nat);
    lemma_decimal_first(n as nat);
    assert(d.subrange(0, d.len() as int) =~= d);
    lemma_decimal_at(d, 0, n as nat);
}

/// The literal of a DIMACS integer `k` stands for `k`: its variable is the absolute
/// value of `k`, negated exactly when `k` is negative.
pub proof fn law_literal_of_int(k: i32)
    ensures
        literal_int(literal_of_int(k)) == k,
        literal_of_int(k).value as int == (if k < 0 { -k } else { k as int }),
        literal_of_int(k).is_negated == (k < 0),
{
}

/// The clause of a list of DIMACS integers has one literal for each, standing for it.
pub proof fn law_clause_of_ints(c: Seq<i32>)
    ensures
        clause_of_ints(c).len() == c.len(),
        forall|i: int| 0 <= i < c.len() ==> literal_int(#[trigger] clause_of_ints(c)[i]) == c[i],
{
    assert forall|i: int| 0 <= i < c.len() implies literal_int(#[trigger] clause_of_ints(c)[i]) == c[i] by {
        law_literal_of_int(c[i]);
    }
}

/// The literal of an integer token `k` of the simple framework stands for `k`.
pub proof fn law_literal_of(k: i32)
    ensures
        framework_literal_int(literal_of(k)) == k,
        literal_of(k).variable as int == (if k < 0 { -k } else { k as int }),
        literal_of(k).is_negated == (k < 0),
{
}

/// The header line `p cnf <v> <c>`.
pub open spec fn header_line(v: usize, c: usize) -> Seq<char> {
    seq!['p', ' ', 'c', 'n', 'f', ' '] + decimal(v as nat) + seq![' '] + decimal(c as nat)
}

/// The counts of a header are read whole: `p cnf <v> <c>` gives `v` and `c`.
pub proof fn law_header_read_back(v: usize, c: usize)
    ensures
        header_counts(header_line(v, c)) == Some((v, c)),
{
    let dv = decimal(v as nat);
    let dc = decimal(c as nat);
    let s = header_line(v, c);
    let p = seq!['p', ' ', 'c', 'n', 'f', ' '];
    let d1: int = 6 + dv.len() as int;
    assert(s.len() == d1 + 1 + dc.len());
    assert forall|k: int| 0 <= k < 6 implies s[k] == p[k] by {}
    assert forall|k: int| 0 <= k < dv.len() implies s[6 + k] == dv[k] by {}
    assert(s[d1] == ' ');
    assert forall|k: int| 0 <= k < dc.len() implies s[d1 + 1 + k] == dc[k] by {}
    lemma_decimal_first(v as nat);
    lemma_decimal_first(c as nat);
    assert(s[6] == dv[0]);
    assert(s[d1 + 1] == dc[0]);
    // the separators
    assert(multispace_end(s, 2) == 2);
    assert(multispace_end(s, 1) == 2);
    assert(multispace_end(s, 6) == 6);
    assert(multispace_end(s, 5) == 6);
    assert(multispace_end(s, d1 + 1) == d1 + 1);
    assert(multispace_end(s, d1) == d1 + 1);
    // the numerals
    assert(s.subrange(6, d1) =~= dv);
    law_count_read_back(s, 6, v);
    assert(s.subrange(d1 + 1, s.len() as int) =~= dc);
    law_count_read_back(s, d1 + 1, c);
}

/// The model line is ordered by variable and holds each entry of the model once:
/// the entries that [`sort_by_variable`] gives are in non-decreasing order of
/// variable and are the model's entries, each as often as in the model.
pub proof fn law_sort_by_variable(s: Seq<(usize, bool)>)
    ensures
        forall|i: int, j: int|
            0 <= i < j < sort_by_variable(s).len() ==> (#[trigger] sort_by_variable(s)[i]).0
                <= (#[trigger] sort_by_variable(s)[j]).0,
        sort_by_variable(s).to_multiset() == s.to_multiset(),
    decreases s.len(),
{
    if s.len() == 0 {
        assert(sort_by_variable(s) =~= s);
    } else {
        let d = s.drop_last();
        law_sort_by_variable(d);
        lemma_insert_sorted(sort_by_variable(d), s.last());
        vstd::seq_lib::to_multiset_build(d, s.last());
        assert(d.push(s.last()) =~= s);
    }
}

/// Inserting into an ordered list keeps it ordered and adds the entry once.
proof fn lemma_insert_sorted(s: Seq<(usize, bool)>, x: (usize, bool))
    requires
        forall|i: int, j: int| 0 <= i < j < s.len() ==> (#[trigger] s[i]).0 <= (#[trigger] s[j]).0,
    ensures
        forall|i: int, j: int|
            0 <= i < j < insert_by_variable(s, x).len() ==> (#[trigger] insert_by_variable(s, x)[i]).0
                <= (#[trigger] insert_by_variable(s, x)[j]).0,
        insert_by_variable(s, x).to_multiset() == s.to_multiset().insert(x),
        insert_by_variable(s, x).len() == s.len() + 1,
        forall|i: int| 0 <= i < insert_by_variable(s, x).len() ==> #[trigger] insert_by_variable(s, x)[i]
            == x || exists|k: int| 0 <= k < s.len() && s[k] == insert_by_variable(s, x)[i],
    decreases s.len(),
{
    broadcast use vstd::multiset::group_multiset_axioms;
    let r = insert_by_variable(s, x);
    if s.len() == 0 {
        assert(r =~= seq![x]);
        vstd::seq_lib::to_multiset_build(s, x);
        assert(seq![x] =~= s.push(x));
    } else if s.last().0 <= x.0 {
        vstd::seq_lib::to_multiset_build(s, x);
        assert forall|i: int, j: int| 0 <= i < j < r.len() implies (#[trigger] r[i]).0 <= (#[trigger] r[j]).0 by {
            if j == s.len() {
                assert(s[i].0 <= s[s.len() - 1].0 || i == s.len() - 1);
            }
        }
    } else {
        let d = s.drop_last();
        let y = s.last();
        assert forall|i: int, j: int| 0 <= i < j < d.len() implies (#[trigger] d[i]).0 <= (#[trigger] d[j]).0 by {
            assert(d[i] == s[i] && d[j] == s[j]);
        }
        lemma_insert_sorted(d, x);
        let r0 = insert_by_variable(d, x);
        assert(r == r0.push(y));
        vstd::seq_lib::to_multiset_build(r0, y);
        vstd::seq_lib::to_multiset_build(d, y);
        assert(d.push(y) =~= s);
        assert(r.to_multiset() =~= s.to_multiset().insert(x));
        assert forall|i: int, j: int| 0 <= i < j < r.len() implies (#[trigger] r[i]).0 <= (#[trigger] r[j]).0 by {
            if j == r0.len() {
                assert(r[i] == r0[i]);
                if r0[i] != x {
                    let k = choose|k: int| 0 <= k < d.len() && d[k] == r0[i];
                    assert(d[k] == s[k]);
                    assert(s[k].0 <= s[s.len() - 1].0);
                }
            } else {
                assert(r[i] == r0[i] && r[j] == r0[j]);
            }
        }
        assert forall|i: int| 0 <= i < r.len() implies #[trigger] r[i] == x || exists|k: int|
            0 <= k < s.len() && s[k] == r[i] by {
            if i < r0.len() {
                assert(r[i] == r0[i]);
                if r0[i] != x {
                    let k = choose|k: int| 0 <= k < d.len() && d[k] == r0[i];
                    assert(s[k] == d[k]);
                }
            }
        }
    }
}

/// The numerals of `ns`, each after one space.
pub open spec fn spaced_ints(ns: Seq<i32>) -> Seq<char>
    decreases ns.len(),
{
    if ns.len() == 0 {
        seq![]
    } else {
        seq![' '] + signed_decimal(ns[0] as int) + spaced_ints(ns.drop_first())
    }
}

/// A clause line: the numerals of `ns` separated by single spaces.
pub open spec fn ints_line(ns: Seq<i32>) -> Seq<char> {
    signed_decimal(ns[0] as int) + spaced_ints(ns.drop_first())
}

/// The numeral of an integer starts with `-` or a digit.
proof fn lemma_signed_first(n: i32)
    ensures
        signed_decimal(n as int).len() >= 1,
        signed_decimal(n as int)[0] == '-' || is_digit(signed_decimal(n as int)[0]),
{
    if n < 0 {
        lemma_decimal_first((-n) as nat);
    } else {
        lemma_decimal_first(n as nat);
    }
}

/// The integers that follow a position are those written after it, one space before each.
proof fn lemma_ints_after_spaced(s: Seq<char>, i: int, ns: Seq<i32>)
    requires
        0 <= i <= s.len(),
        s.subrange(i, s.len() as int) == spaced_ints(ns),
    ensures
        ints_after(s, i) == ns,
    decreases ns.len(),
{
    let t = spaced_ints(ns);
    assert(s.subrange(i, s.len() as int).len() == s.len() - i);
    assert forall|k: int| 0 <= k < t.len() implies s[i + k] == #[trigger] t[k] by {
        assert(s.subrange(i, s.len() as int)[k] == s[i + k]);
    }
    if ns.len() == 0 {
        assert(i == s.len());
        assert(multispace_end(s, i) == i);
        assert(ints_after(s, i) =~= ns);
    } else {
        let d = signed_decimal(ns[0] as int);
        let rest = spaced_ints(ns.drop_first());
        assert(t == seq![' '] + d + rest);
        assert(t.len() == 1 + d.len() + rest.len());
        assert(s.len() == i + t.len());
        lemma_signed_first(ns[0]);
        let e = i + 1 + d.len();
        assert(s[i + 0] == t[0]);
        assert(s[i + 1] == t[1]);
        assert(t[1] == d[0]);
        assert(multispace_end(s, i + 1) == i + 1);
        assert(multispace_end(s, i) == i + 1);
        assert forall|k: int| 0 <= k < d.len() implies s.subrange(i + 1, e)[k] == d[k] by {
            assert(s[i + (1 + k)] == t[1 + k]);
        }
        assert(s.subrange(i + 1, e) =~= d);
        if rest.len() > 0 {
            lemma_rest_first(ns.drop_first());
            assert(s[i + (1 + d.len() as int)] == t[1 + d.len() as int]);
            assert(s[e] == rest[0]);
        }
        assert(e == s.len() || !is_digit(s[e]));
        law_int_read_back(s, i + 1, ns[0]);
        assert forall|k: int| 0 <= k < rest.len() implies s.subrange(e, s.len() as int)[k] == rest[k] by {
            assert(s[i + (1 + d.len() as int + k)] == t[1 + d.len() as int + k]);
        }
        assert(s.subrange(e, s.len() as int) =~= rest);
        lemma_ints_after_spaced(s, e, ns.drop_first());
        assert(ints_after(s, i) =~= seq![ns[0]] + ns.drop_first());
        assert(seq![ns[0]] + ns.drop_first() =~= ns);
    }
}

/// Written integers after the first start with a space.
proof fn lemma_rest_first(ns: Seq<i32>)
    requires
        ns.len() > 0,
    ensures
        spaced_ints(ns)[0] == ' ',
{
}

/// A clause line is read whole: the numerals of `ns` separated by single spaces
/// give back `ns`, every integer in full.
pub proof fn law_clause_line_read_back(ns: Seq<i32>)
    requires
        ns.len() >= 1,
    ensures
        clause_ints(ints_line(ns)) == Some(ns),
{
    let s = ints_line(ns);
    let d = signed_decimal(ns[0] as int);
    let rest = spaced_ints(ns.drop_first());
    lemma_signed_first(ns[0]);
    assert(s.subrange(0, d.len() as int) =~= d);
    if rest.len() > 0 {
        lemma_rest_first(ns.drop_first());
        assert(s[d.len() as int] == rest[0]);
    }
    law_int_read_back(s, 0, ns[0]);
    assert(s.subrange(d.len() as int, s.len() as int) =~= rest);
    lemma_ints_after_spaced(s, d.len() as int, ns.drop_first());
    assert(seq![ns[0]] + ns.drop_first() =~= ns);
}

/// The last character of a decimal numeral is a digit.
proof fn lemma_decimal_last(v: nat)
    ensures
        decimal(v).len() >= 1,
        is_digit(decimal(v).last()),
    decreases v,
{
    if v < 10 {
        crate::text::lemma_digit_char(v);
    } else {
        crate::text::lemma_digit_char(v % 10);
        lemma_decimal_first(v / 10);
    }
}

/// The last character of written integers, one space before each, is the last
/// character of the last numeral.
proof fn lemma_spaced_last(ns: Seq<i32>)
    requires
        ns.len() > 0,
    ensures
        spaced_ints(ns).len() >= 1,
        spaced_ints(ns).last() == signed_decimal(ns.last() as int).last(),
    decreases ns.len(),
{
    lemma_signed_first(ns[0]);
    let rest = ns.drop_first();
    if rest.len() == 0 {
        assert(spaced_ints(rest) =~= Seq::<char>::empty());
        assert(ns.last() == ns[0]);
    } else {
        lemma_spaced_last(rest);
        assert(rest.last() == ns.last());
    }
}

/// A line with no white space at either end is its own trimming.
proof fn lemma_trim_plain(s: Seq<char>)
    requires
        s.len() > 0,
        !is_white_space(s[0]),
        !is_white_space(s.last()),
    ensures
        trim(s) == s,
{
    assert(trim_start(s) == s);
    assert(trim_end(s) == s);
}

/// Adding integers none of which is 0 extends the open clause by them.
proof fn lemma_add_nonzero(st: ScanView, c: Seq<i32>)
    requires
        forall|i: int| 0 <= i < c.len() ==> #[trigger] c[i] != 0,
    ensures
        add_ints(st, c) == (ScanView { current: st.current + c, ..st }),
    decreases c.len(),
{
    if c.len() == 0 {
        assert(st.current + c =~= st.current);
    } else {
        let d = c.drop_last();
        assert forall|i: int| 0 <= i < d.len() implies #[trigger] d[i] != 0 by {
            assert(d[i] == c[i]);
        }
        lemma_add_nonzero(st, d);
        assert(c.last() == c[c.len() - 1]);
        assert(st.current + d.push(c.last()) =~= st.current + c);
        assert(d.push(c.last()) =~= c);
    }
}

/// The lines of a DIMACS file: the header `p cnf <v> <c>`, then each clause on a
/// line of its own, closed by `0`.
pub open spec fn dimacs_lines(v: usize, c: usize, cls: Seq<Seq<i32>>) -> Seq<Seq<char>> {
    seq![header_line(v, c)] + cls.map_values(|cl: Seq<i32>| ints_line(cl.push(0)))
}

/// A DIMACS file is read whole: the header gives its counts and each clause line
/// gives back its clause, every literal in full, with nothing left open.
pub proof fn law_dimacs_read_back(v: usize, c: usize, cls: Seq<Seq<i32>>)
    requires
        forall|i: int, j: int| 0 <= i < cls.len() && 0 <= j < cls[i].len() ==> #[trigger] cls[i][j] != 0,
    ensures
        scan_lines(dimacs_lines(v, c, cls)) == Ok::<ScanView, ParserError>(
            ScanView { num_vars: Some(v), num_clauses: Some(c), clauses: cls, current: seq![] },
        ),
    decreases cls.len(),
{
    let lines = dimacs_lines(v, c, cls);
    if cls.len() == 0 {
        let h = header_line(v, c);
        assert(lines =~= seq![h]);
        assert(lines.drop_last() =~= Seq::<Seq<char>>::empty());
        law_header_read_back(v, c);
        lemma_decimal_last(c as nat);
        assert(h.last() == decimal(c as nat).last());
        lemma_trim_plain(h);
        assert(cls =~= Seq::<Seq<i32>>::empty());
        assert(h[0] == 'p');
        assert(scan_lines(lines.drop_last()) == Ok::<ScanView, ParserError>(
            ScanView { num_vars: None, num_clauses: None, clauses: seq![], current: seq![] },
        ));
        assert(lines.last() == h);
    } else {
        let d = cls.drop_last();
        let cl = cls.last();
        assert forall|i: int, j: int| 0 <= i < d.len() && 0 <= j < d[i].len() implies #[trigger] d[i][j] != 0 by {
            assert(d[i] == cls[i]);
        }
        law_dimacs_read_back(v, c, d);
        assert(lines.drop_last() =~= dimacs_lines(v, c, d));
        let ns = cl.push(0);
        let line = ints_line(ns);
        assert(lines.last() == line);
        // the line is its own trimming and is a clause line
        lemma_signed_first(ns[0]);
        assert(line[0] == signed_decimal(ns[0] as int)[0]);
        let rest = spaced_ints(ns.drop_first());
        if rest.len() > 0 {
            lemma_spaced_last(ns.drop_first());
            assert(ns.drop_first().last() == 0);
            assert(line.last() == rest.last());
        } else {
            assert(ns.len() == 1);
            assert(line.last() == signed_decimal(ns[0] as int).last());
        }
        assert(signed_decimal(0) == decimal(0));
        assert(line.last() == '0');
        lemma_trim_plain(line);
        law_clause_line_read_back(ns);
        // the integers close the clause
        let st = ScanView { num_vars: Some(v), num_clauses: Some(c), clauses: d, current: seq![] };
        assert forall|i: int| 0 <= i < cl.len() implies #[trigger] cl[i] != 0 by {
            assert(cl[i] == cls[cls.len() - 1][i]);
        }
        lemma_add_nonzero(st, cl);
        assert(ns.drop_last() =~= cl);
        assert(seq![] + cl =~= cl);
        assert(d.push(cl) =~= cls);
        assert(line[0] != 'c' && line[0] != 'p');
        assert(scan_line(st, line) == Ok::<ScanView, ParserError>(add_ints(st, ns)));
        assert(add_ints(st, ns) == (ScanView { clauses: d.push(cl), current: seq![], ..st }));
    }
}

/// The characters of a numeral are digits, after a `-` at its start when negative.
proof fn lemma_signed_chars(n: i32)
    ensures
        forall|k: int| 0 <= k < signed_decimal(n as int).len() ==> !is_white_space(#[trigger] signed_decimal(n as int)[k]),
{
    let d = signed_decimal(n as int);
    if n < 0 {
        let num = decimal((-n) as nat);
        assert(d == seq!['-'] + num);
        assert(num.subrange(0, num.len() as int) =~= num);
        lemma_decimal_at(num, 0, (-n) as nat);
        assert forall|k: int| 0 <= k < d.len() implies !is_white_space(#[trigger] d[k]) by {
            if k > 0 {
                assert(d[k] == num[k - 1]);
                assert(is_digit(num[k - 1]));
            }
        }
    } else {
        assert(d.subrange(0, d.len() as int) =~= d);
        lemma_decimal_at(d, 0, n as nat);
        assert forall|k: int| 0 <= k < d.len() implies !is_white_space(#[trigger] d[k]) by {
            assert(is_digit(d[k]));
        }
    }
}

/// A run of characters that are not white space, ending the text or stopping
/// before white space, is the token that starts where it starts.
proof fn lemma_token_end_run(s: Seq<char>, i: int, j: int)
    requires
        0 <= i <= j <= s.len(),
        forall|k: int| i <= k < j ==> !is_white_space(#[trigger] s[k]),
        j == s.len() || is_white_space(s[j]),
    ensures
        token_end(s, i) == j,
    decreases j - i,
{
    if i < j {
        lemma_token_end_run(s, i + 1, j);
    }
}

/// The numerals of a list of integers.
pub open spec fn numerals(ns: Seq<i32>) -> Seq<Seq<char>> {
    ns.map_values(|n: i32| signed_decimal(n as int))
}

/// The tokens after a position are the numerals written there, one space before each.
proof fn lemma_tokens_spaced(s: Seq<char>, i: int, ns: Seq<i32>)
    requires
        0 <= i <= s.len(),
        s.subrange(i, s.len() as int) == spaced_ints(ns),
    ensures
        tokens_from(s, i) == numerals(ns),
    decreases ns.len(),
{
    let t = spaced_ints(ns);
    assert(s.subrange(i, s.len() as int).len() == s.len() - i);
    assert forall|k: int| 0 <= k < t.len() implies s[i + k] == #[trigger] t[k] by {
        assert(s.subrange(i, s.len() as int)[k] == s[i + k]);
    }
    if ns.len() == 0 {
        assert(i == s.len());
        assert(numerals(ns) =~= Seq::<Seq<char>>::empty());
    } else {
        let d = signed_decimal(ns[0] as int);
        let rest = spaced_ints(ns.drop_first());
        assert(t == seq![' '] + d + rest);
        assert(t.len() == 1 + d.len() + rest.len());
        lemma_signed_first(ns[0]);
        lemma_signed_chars(ns[0]);
        let e = i + 1 + d.len();
        assert(s[i + 0] == t[0]);
        assert forall|k: int| i + 1 <= k < e implies !is_white_space(#[trigger] s[k]) by {
            assert(s[i + (k - i)] == t[k - i]);
            assert(t[k - i] == d[k - i - 1]);
        }
        if rest.len() > 0 {
            lemma_rest_first(ns.drop_first());
            assert(s[i + (1 + d.len() as int)] == t[1 + d.len() as int]);
        }
        lemma_token_end_run(s, i + 1, e);
        assert forall|k: int| 0 <= k < d.len() implies s.subrange(i + 1, e)[k] == d[k] by {
            assert(s[i + (1 + k)] == t[1 + k]);
        }
        assert(s.subrange(i + 1, e) =~= d);
        assert forall|k: int| 0 <= k < rest.len() implies s.subrange(e, s.len() as int)[k] == rest[k] by {
            assert(s[i + (1 + d.len() as int + k)] == t[1 + d.len() as int + k]);
        }
        assert(s.subrange(e, s.len() as int) =~= rest);
        lemma_tokens_spaced(s, e, ns.drop_first());
        assert(tokens_from(s, i) == tokens_from(s, i + 1));
        assert(numerals(ns) =~= seq![d] + numerals(ns.drop_first()));
    }
}

/// The tokens of a clause line are the numerals of its integers.
pub proof fn law_clause_line_tokens(ns: Seq<i32>)
    requires
        ns.len() >= 1,
    ensures
        tokens(ints_line(ns)) == numerals(ns),
{
    let s = ints_line(ns);
    let d = signed_decimal(ns[0] as int);
    let rest = spaced_ints(ns.drop_first());
    lemma_signed_first(ns[0]);
    lemma_signed_chars(ns[0]);
    assert forall|k: int| 0 <= k < d.len() implies s[k] == d[k] by {}
    assert forall|k: int| 0 <= k < d.len() implies !is_white_space(#[trigger] s[k]) by {
        assert(s[k] == d[k]);
    }
    if rest.len() > 0 {
        lemma_rest_first(ns.drop_first());
        assert(s[d.len() as int] == rest[0]);
    }
    lemma_token_end_run(s, 0, d.len() as int);
    assert(s.subrange(0, d.len() as int) =~= d);
    assert(s.subrange(d.len() as int, s.len() as int) =~= rest);
    lemma_tokens_spaced(s, d.len() as int, ns.drop_first());
    assert(numerals(ns) =~= seq![d] + numerals(ns.drop_first()));
}

/// The clause of the simple framework that a list of integers stands for.
pub open spec fn framework_clause(cl: Seq<i32>) -> Seq<crate::types::Literal> {
    cl.map_values(|k: i32| literal_of(k))
}

/// Reading the numerals of integers none of which is 0 extends the open clause by
/// their literals.
proof fn lemma_read_nonzero(st: InstanceView, cl: Seq<i32>)
    requires
        forall|i: int| 0 <= i < cl.len() ==> #[trigger] cl[i] != 0,
    ensures
        read_clause_tokens(st, numerals(cl)) == Some(InstanceView { current: st.current + framework_clause(cl), ..st }),
    decreases cl.len(),
{
    if cl.len() == 0 {
        assert(numerals(cl) =~= Seq::<Seq<char>>::empty());
        assert(st.current + framework_clause(cl) =~= st.current);
    } else {
        let d = cl.drop_last();
        assert forall|i: int| 0 <= i < d.len() implies #[trigger] d[i] != 0 by {
            assert(d[i] == cl[i]);
        }
        lemma_read_nonzero(st, d);
        assert(numerals(cl).drop_last() =~= numerals(d));
        assert(numerals(cl).last() == signed_decimal(cl.last() as int));
        law_token_read_back(cl.last());
        assert(cl.last() == cl[cl.len() - 1]);
        assert(st.current + framework_clause(d).push(literal_of(cl.last())) =~= st.current + framework_clause(cl));
    }
}

/// Reading a clause line whose integers end in `0` closes the open clause with the
/// literals of the integers before it.
pub proof fn law_clause_tokens_read_back(st: InstanceView, cl: Seq<i32>)
    requires
        forall|i: int| 0 <= i < cl.len() ==> #[trigger] cl[i] != 0,
    ensures
        read_clause_tokens(st, numerals(cl.push(0))) == Some(
            InstanceView { clauses: st.clauses.push(st.current + framework_clause(cl)), current: seq![], ..st },
        ),
{
    let ns = cl.push(0);
    lemma_read_nonzero(st, cl);
    assert(numerals(ns).drop_last() =~= numerals(cl));
    assert(numerals(ns).last() == signed_decimal(0));
    law_token_read_back(0);
}

/// The tokens of the header line `p cnf <v> <c>`.
proof fn lemma_header_tokens(v: usize, c: usize)
    ensures
        tokens(header_line(v, c)) == seq![seq!['p'], seq!['c', 'n', 'f'], decimal(v as nat), decimal(c as nat)],
{
    let dv = decimal(v as nat);
    let dc = decimal(c as nat);
    let s = header_line(v, c);
    let d1: int = 6 + dv.len() as int;
    assert(s.len() == d1 + 1 + dc.len());
    assert(dv.subrange(0, dv.len() as int) =~= dv);
    lemma_decimal_at(dv, 0, v as nat);
    assert(dc.subrange(0, dc.len() as int) =~= dc);
    lemma_decimal_at(dc, 0, c as nat);
    assert forall|k: int| 6 <= k < d1 implies !is_white_space(#[trigger] s[k]) by {
        assert(s[k] == dv[k - 6]);
        assert(is_digit(dv[k - 6]));
    }
    assert forall|k: int| d1 + 1 <= k < s.len() implies !is_white_space(#[trigger] s[k]) by {
        assert(s[k] == dc[k - d1 - 1]);
        assert(is_digit(dc[k - d1 - 1]));
    }
    assert(s[0] == 'p' && s[1] == ' ' && s[2] == 'c' && s[3] == 'n' && s[4] == 'f' && s[5] == ' ' && s[d1] == ' ');
    lemma_token_end_run(s, 0, 1);
    lemma_token_end_run(s, 2, 5);
    lemma_token_end_run(s, 6, d1);
    lemma_token_end_run(s, d1 + 1, s.len() as int);
    assert(s.subrange(0, 1) =~= seq!['p']);
    assert(s.subrange(2, 5) =~= seq!['c', 'n', 'f']);
    assert(s.subrange(6, d1) =~= dv);
    assert(s.subrange(d1 + 1, s.len() as int) =~= dc);
    assert(tokens_from(s, s.len() as int) =~= Seq::<Seq<char>>::empty());
    assert(tokens_from(s, d1 + 1) =~= seq![dc]);
    assert(tokens_from(s, d1) == tokens_from(s, d1 + 1));
    assert(tokens_from(s, 6) =~= seq![dv, dc]);
    assert(tokens_from(s, 5) == tokens_from(s, 6));
    assert(tokens_from(s, 2) =~= seq![seq!['c', 'n', 'f'], dv, dc]);
    assert(tokens_from(s, 1) == tokens_from(s, 2));
    assert(tokens_from(s, 0) =~= seq![seq!['p'], seq!['c', 'n', 'f'], dv, dc]);
}

/// An instance is read whole: reading the lines of a DIMACS file token by token gives
/// its counts and, for each clause, the literals of its integers in full.
pub proof fn law_instance_read_back(v: usize, c: usize, cls: Seq<Seq<i32>>)
    requires
        forall|i: int, j: int| 0 <= i < cls.len() && 0 <= j < cls[i].len() ==> #[trigger] cls[i][j] != 0,
    ensures
        read_lines(dimacs_lines(v, c, cls)) == Some(
            InstanceView {
                variables: v,
                clause_count: c,
                clauses: cls.map_values(|cl: Seq<i32>| framework_clause(cl)),
                current: seq![],
            },
        ),
    decreases cls.len(),
{
    let lines = dimacs_lines(v, c, cls);
    if cls.len() == 0 {
        let h = header_line(v, c);
        assert(lines =~= seq![h]);
        assert(lines.drop_last() =~= Seq::<Seq<char>>::empty());
        lemma_header_tokens(v, c);
        law_count_token_read_back(v);
        law_count_token_read_back(c);
        assert(seq!['p'] != seq!['c']) by {
            assert(seq!['p'][0] != seq!['c'][0]);
        }
        assert(lines.last() == h);
        assert(cls.map_values(|cl: Seq<i32>| framework_clause(cl)) =~= Seq::<Seq<crate::types::Literal>>::empty());
        let init = InstanceView { variables: 0, clause_count: 0, clauses: seq![], current: seq![] };
        assert(read_lines(lines.drop_last()) == Some(init));
        let toks = tokens(h);
        assert(toks.len() == 4);
        assert(toks[0] == seq!['p']);
        assert(toks[2] == decimal(v as nat));
        assert(toks[3] == decimal(c as nat));
        assert(read_line(init, h) == Some(InstanceView { variables: v, clause_count: c, ..init }));
    } else {
        let d = cls.drop_last();
        let cl = cls.last();
        assert forall|i: int, j: int| 0 <= i < d.len() && 0 <= j < d[i].len() implies #[trigger] d[i][j] != 0 by {
            assert(d[i] == cls[i]);
        }
        law_instance_read_back(v, c, d);
        assert(lines.drop_last() =~= dimacs_lines(v, c, d));
        let ns = cl.push(0);
        let line = ints_line(ns);
        assert(lines.last() == line);
        law_clause_line_tokens(ns);
        lemma_signed_first(ns[0]);
        let t0 = numerals(ns)[0];
        assert(t0 == signed_decimal(ns[0] as int));
        assert(t0 != seq!['p']) by {
            assert(t0[0] != 'p');
        }
        assert(t0 != seq!['c']) by {
            assert(t0[0] != 'c');
        }
        assert forall|i: int| 0 <= i < cl.len() implies #[trigger] cl[i] != 0 by {
            assert(cl[i] == cls[cls.len() - 1][i]);
        }
        let st = InstanceView {
            variables: v,
            clause_count: c,
            clauses: d.map_values(|x: Seq<i32>| framework_clause(x)),
            current: seq![],
        };
        law_clause_tokens_read_back(st, cl);
        assert(numerals(ns).len() >= 1);
        assert(read_line(st, line) == read_clause_tokens(st, numerals(ns)));
        assert(seq![] + framework_clause(cl) =~= framework_clause(cl));
        assert(d.map_values(|x: Seq<i32>| framework_clause(x)).push(framework_clause(cl))
            =~= cls.map_values(|x: Seq<i32>| framework_clause(x)));
    }
}

/// White space before a text that does not start with white space is trimmed away.
proof fn lemma_trim_start_pad(a: Seq<char>, s: Seq<char>)
    requires
        forall|k: int| 0 <= k < a.len() ==> is_white_space(#[trigger] a[k]),
        s.len() > 0,
        !is_white_space(s[0]),
    ensures
        trim_start(a + s) == s,
    decreases a.len(),
{
    if a.len() == 0 {
        assert(a + s =~= s);
    } else {
        assert((a + s)[0] == a[0]);
        assert((a + s).drop_first() =~= a.drop_first() + s);
        assert forall|k: int| 0 <= k < a.drop_first().len() implies is_white_space(#[trigger] a.drop_first()[k]) by {
            assert(a.drop_first()[k] == a[k + 1]);
        }
        lemma_trim_start_pad(a.drop_first(), s);
    }
}

/// White space after a text that does not end with white space is trimmed away.
proof fn lemma_trim_end_pad(s: Seq<char>, b: Seq<char>)
    requires
        forall|k: int| 0 <= k < b.len() ==> is_white_space(#[trigger] b[k]),
        s.len() > 0,
        !is_white_space(s.last()),
    ensures
        trim_end(s + b) == s,
    decreases b.len(),
{
    if b.len() == 0 {
        assert(s + b =~= s);
    } else {
        assert((s + b).last() == b.last());
        assert(b.last() == b[b.len() - 1]);
        assert((s + b).drop_last() =~= s + b.drop_last());
        assert forall|k: int| 0 <= k < b.drop_last().len() implies is_white_space(#[trigger] b.drop_last()[k]) by {
            assert(b.drop_last()[k] == b[k]);
        }
        lemma_trim_end_pad(s, b.drop_last());
    }
}

/// Trimming removes exactly the white space around a text: a text that neither starts
/// nor ends with white space, with white space before and after it, trims to itself.
pub proof fn law_trim_removes_padding(a: Seq<char>, s: Seq<char>, b: Seq<char>)
    requires
        forall|k: int| 0 <= k < a.len() ==> is_white_space(#[trigger] a[k]),
        forall|k: int| 0 <= k < b.len() ==> is_white_space(#[trigger] b[k]),
        s.len() > 0,
        !is_white_space(s[0]),
        !is_white_space(s.last()),
    ensures
        trim(a + s + b) == s,
{
    assert((s + b)[0] == s[0]);
    lemma_trim_start_pad(a, s + b);
    assert(a + s + b =~= a + (s + b));
    lemma_trim_end_pad(s, b);
}

} // verus!
