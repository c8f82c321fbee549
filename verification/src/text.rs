//! Characters and decimal numerals: white space, digits and their values.
use vstd::prelude::*;

verus! {

/// The characters with the Unicode `White_Space` property.
pub open spec fn is_white_space(c: char) -> bool {
    ||| ('\u{9}' <= c && c <= '\u{d}')
    ||| c == ' '
    ||| c == '\u{85}'
    ||| c == '\u{a0}'
    ||| c == '\u{1680}'
    ||| ('\u{2000}' <= c && c <= '\u{200a}')
    ||| c == '\u{2028}'
    ||| c == '\u{2029}'
    ||| c == '\u{202f}'
    ||| c == '\u{205f}'
    ||| c == '\u{3000}'
}

/// Executable form of [`is_white_space`].
pub(crate) fn white_space(c: char) -> (r: bool)
    ensures
        r == is_white_space(c),
{
    ('\u{9}' <= c && c <= '\u{d}') || c == ' ' || c == '\u{85}' || c == '\u{a0}' || c == '\u{1680}'
        || ('\u{2000}' <= c && c <= '\u{200a}') || c == '\u{2028}' || c == '\u{2029}' || c == '\u{202f}'
        || c == '\u{205f}' || c == '\u{3000}'
}

/// An ASCII decimal digit.
pub open spec fn is_digit(c: char) -> bool {
    '0' <= c && c <= '9'
}

/// The value of an ASCII decimal digit.
pub open spec fn digit_value(c: char) -> nat {
    (c as int - '0' as int) as nat
}

/// The value of the decimal numeral `s[i..j]`, whose characters are digits.
pub open spec fn digits_value(s: Seq<char>, i: int, j: int) -> nat
    decreases j - i,
{
    if j <= i {
        0
    } else {
        10 * digits_value(s, i, j - 1) + digit_value(s[j - 1])
    }
}

/// Every character of `s[i..j]` is a digit.
pub open spec fn all_digits(s: Seq<char>, i: int, j: int) -> bool {
    forall|k: int| i <= k < j ==> is_digit(#[trigger] s[k])
}

/// A longer numeral has a value at least as large.
pub proof fn lemma_digits_value_mono(s: Seq<char>, i: int, j: int, k: int)
    requires
        i <= j <= k,
        all_digits(s, i, k),
    ensures
        digits_value(s, i, j) <= digits_value(s, i, k),
    decreases k - j,
{
    if j < k {
        lemma_digits_value_mono(s, i, j, k - 1);
    }
}

/// Reads the decimal numeral `s[i..j]` (digits only), or `None` when its value is above `bound`.
pub(crate) fn read_numeral(s: &Vec<char>, i: usize, j: usize, bound: u64) -> (r: Option<u64>)
    requires
        i <= j <= s@.len(),
        all_digits(s@, i as int, j as int),
        bound >= 9,
    ensures
        match r {
            Some(v) => v == digits_value(s@, i as int, j as int) && v <= bound,
            None => digits_value(s@, i as int, j as int) > bound,
        },
{
    let mut v: u64 = 0;
    let mut k: usize = i;
    while k < j
        invariant
            i <= k <= j,
            j <= s@.len(),
            all_digits(s@, i as int, j as int),
            bound >= 9,
            v == digits_value(s@, i as int, k as int),
            v <= bound,
        decreases j - k,
    {
        let c = s[k];
        assert(is_digit(s@[k as int]));
        let d = (c as u32 - '0' as u32) as u64;
        assert(d == digit_value(s@[k as int]));
        if v > (bound - d) / 10 {
            proof {
                assert(10 * v + d > bound) by (nonlinear_arith)
                    requires
                        v > (bound - d) / 10,
                        d <= 9,
                        bound >= 9,
                ;
                lemma_digits_value_mono(s@, i as int, k + 1, j as int);
            }
            return None;
        }
        proof {
            assert(10 * v + d <= bound) by (nonlinear_arith)
                requires
                    v <= (bound - d) / 10,
                    d <= 9,
                    bound >= 9,
            ;
        }
        v = 10 * v + d;
        k += 1;
    }
    Some(v)
}

/// The character of a decimal digit.
pub open spec fn digit_char(d: nat) -> char {
    if d == 0 { '0' }
    else if d == 1 { '1' }
    else if d == 2 { '2' }
    else if d == 3 { '3' }
    else if d == 4 { '4' }
    else if d == 5 { '5' }
    else if d == 6 { '6' }
    else if d == 7 { '7' }
    else if d == 8 { '8' }
    else { '9' }
}

/// The decimal numeral of `v`, without leading zeros.
pub open spec fn decimal(v: nat) -> Seq<char>
    decreases v,
{
    if v < 10 {
        seq![digit_char(v)]
    } else {
        decimal(v / 10).push(digit_char(v % 10))
    }
}

/// The one-character string of a decimal digit.
fn digit_str(d: usize) -> (r: &'static str)
    requires
        d < 10,
    ensures
        r@ == seq![digit_char(d as nat)],
{
    proof {
        reveal_strlit("0");
        reveal_strlit("1");
        reveal_strlit("2");
        reveal_strlit("3");
        reveal_strlit("4");
        reveal_strlit("5");
        reveal_strlit("6");
        reveal_strlit("7");
        reveal_strlit("8");
        reveal_strlit("9");
    }
    if d == 0 { "0" }
    else if d == 1 { "1" }
    else if d == 2 { "2" }
    else if d == 3 { "3" }
    else if d == 4 { "4" }
    else if d == 5 { "5" }
    else if d == 6 { "6" }
    else if d == 7 { "7" }
    else if d == 8 { "8" }
    else { "9" }
}

/// Appends the decimal numeral of `v`.
pub(crate) fn push_decimal(s: &mut String, v: usize)
    ensures
        final(s)@ == old(s)@ + decimal(v as nat),
    decreases v,
{
    if v >= 10 {
        push_decimal(s, v / 10);
    }
    let d = digit_str(v % 10);
    s.append(d);
    proof {
        if v >= 10 {
            assert(decimal(v as nat) == decimal((v / 10) as nat).push(digit_char((v % 10) as nat)));
        }
    }
    assert(s@ =~= old(s)@ + decimal(v as nat)) by {
        if v < 10 {
            assert(decimal(v as nat) == seq![digit_char(v as nat)]);
        }
    }
}

/// The numeral of an integer: `-` before the numeral of its absolute value when it
/// is negative.
pub open spec fn signed_decimal(n: int) -> Seq<char> {
    if n < 0 {
        seq!['-'] + decimal((-n) as nat)
    } else {
        decimal(n as nat)
    }
}

/// The character of a digit is a digit, of that value.
pub proof fn lemma_digit_char(d: nat)
    requires
        d < 10,
    ensures
        is_digit(digit_char(d)),
        digit_value(digit_char(d)) == d,
{
}

/// The decimal numeral of `v`, wherever it stands in a text, is a run of at least
/// one digit whose value is `v`.
pub proof fn lemma_decimal_at(s: Seq<char>, i: int, v: nat)
    requires
        0 <= i,
        i + decimal(v).len() <= s.len(),
        s.subrange(i, i + decimal(v).len()) == decimal(v),
    ensures
        decimal(v).len() >= 1,
        all_digits(s, i, i + decimal(v).len()),
        digits_value(s, i, i + decimal(v).len()) == v,
    decreases v,
{
    let d = decimal(v);
    let n = d.len() as int;
    if v < 10 {
        lemma_digit_char(v);
        assert(s[i] == s.subrange(i, i + n)[0]);
        assert(digits_value(s, i, i) == 0);
    } else {
        let d0 = decimal(v / 10);
        let n0 = d0.len() as int;
        assert(d == d0.push(digit_char(v % 10)));
        assert(s.subrange(i, i + n0) =~= s.subrange(i, i + n).subrange(0, n0));
        assert(d.subrange(0, n0) =~= d0);
        lemma_decimal_at(s, i, v / 10);
        lemma_digit_char(v % 10);
        assert(s[i + n0] == s.subrange(i, i + n)[n0]);
        assert(s[i + n0] == digit_char(v % 10));
        assert(all_digits(s, i, i + n)) by {
            assert forall|k: int| i <= k < i + n implies is_digit(#[trigger] s[k]) by {
                if k < i + n0 {
                    assert(all_digits(s, i, i + n0));
                }
            }
        }
        assert(digits_value(s, i, i + n) == 10 * digits_value(s, i, i + n0) + digit_value(s[i + n0]));
    }
}

/// The decimal numeral of `v` begins with a digit.
pub proof fn lemma_decimal_first(v: nat)
    ensures
        decimal(v).len() >= 1,
        is_digit(decimal(v)[0]),
    decreases v,
{
    if v < 10 {
        lemma_digit_char(v);
    } else {
        lemma_decimal_first(v / 10);
        assert(decimal(v)[0] == decimal(v / 10)[0]);
    }
}

} // verus!
