//! Building strings: repeated characters, spaces, appended strings, and
//! numbers written with `_` between groups of three digits.

use vstd::prelude::*;
use crate::text::{decimal, decimal_string, chars_of, push_char};

verus! {

/// `n` copies of `c` (none when `n` is not positive).
pub open spec fn copies(c: char, n: int) -> Seq<char> {
    Seq::new(if n > 0 {
        n as nat
    } else {
        0
    }, |k: int| c)
}

/// `s` followed by `i` copies of `c`.
pub fn add_chars_n(s: String, c: char, i: i32) -> (r: String)
    ensures
        r@ == s@ + copies(c, i as int),
{
    let mut s = s;
    add_chars_n2(&mut s, c, i);
    s
}

/// Appends `i` copies of `c`.
pub fn add_chars_n2(ref_to_s: &mut String, c: char, i: i32)
    ensures
        final(ref_to_s)@ == old(ref_to_s)@ + copies(c, i as int),
{
    let mut j: i32 = 0;
    while j < i
        invariant
            0 <= j,
            i > 0 ==> j <= i,
            i <= 0 ==> j == 0,
            ref_to_s@ == old(ref_to_s)@ + copies(c, j as int),
        decreases i - j,
    {
        push_char(ref_to_s, c);
        j = j + 1;
        assert(ref_to_s@ =~= old(ref_to_s)@ + copies(c, j as int));
    }
    assert(copies(c, j as int) =~= copies(c, i as int));
}

/// `s` followed by `n` spaces.
pub fn add_space(s: String, n: i32) -> (r: String)
    ensures
        r@ == s@ + copies(' ', n as int),
{
    add_chars_n(s, ' ', n)
}

/// `s` followed by `s2`.
pub fn add_str(s: String, s2: String) -> (r: String)
    ensures
        r@ == s@ + s2@,
{
    let mut s = s;
    s.append(s2.as_str());
    s
}

/// Appending copies in two goes is appending them in one.
pub proof fn copies_add(c: char, a: int, b: int)
    requires
        a >= 0,
        b >= 0,
    ensures
        copies(c, a) + copies(c, b) == copies(c, a + b),
{
    assert(copies(c, a) + copies(c, b) =~= copies(c, a + b));
}

/// The first `m` digits of `d` (the digits of a number with `d.len()`
/// digits), each followed by `_` where a group of three digits ends and more
/// digits follow.
pub open spec fn grouped(d: Seq<char>, m: int) -> Seq<char>
    decreases m,
{
    if m <= 0 {
        seq![]
    } else {
        grouped(d, m - 1) + seq![d[m - 1]] + if m < d.len() && (d.len() - m) % 3 == 0 {
            seq!['_']
        } else {
            seq![]
        }
    }
}

/// How many digits the number written as `d` has up to its last non-zero
/// digit.
pub open spec fn significant_len(d: Seq<char>) -> int
    decreases d.len(),
{
    if d.len() == 0 {
        0
    } else if d.last() != '0' {
        d.len() as int
    } else {
        significant_len(d.drop_last())
    }
}

/// What `add_integer` appends: nothing for a number that is not positive;
/// otherwise its digits in groups of three, up to its last non-zero digit
/// (the writing stops once the digits left are all zeros).
pub open spec fn integer_text(i: int) -> Seq<char> {
    if i <= 0 {
        seq![]
    } else {
        let d = decimal(i as nat);
        grouped(d, significant_len(d))
    }
}

/// Appends the first `m` digits of `d` with their group separators.
fn push_grouped(s: &mut String, d: &Vec<char>, m: usize)
    requires
        m <= d@.len(),
    ensures
        final(s)@ == old(s)@ + grouped(d@, m as int),
{
    let n = d.len();
    let mut j: usize = 0;
    while j < m
        invariant
            j <= m <= n,
            n == d@.len(),
            s@ == old(s)@ + grouped(d@, j as int),
        decreases m - j,
    {
        push_char(s, d[j]);
        j = j + 1;
        if j < n && (n - j) % 3 == 0 {
            push_char(s, '_');
        }
        assert(s@ =~= old(s)@ + grouped(d@, j as int));
    }
}

/// `s` followed by `i` written with `_` between groups of three digits, as
/// `integer_text` describes.
pub fn add_integer(s: String, i: i32) -> (r: String)
    ensures
        r@ == s@ + integer_text(i as int),
{
    let mut s = s;
    if i <= 0 {
        assert(s@ =~= s@ + integer_text(i as int));
        return s;
    }
    let d = chars_of(decimal_string(i as u64).as_str());
    let mut m: usize = d.len();
    assert(d@.take(d@.len() as int) =~= d@);
    while m > 0 && d[m - 1] == '0'
        invariant
            m <= d@.len(),
            significant_len(d@) == significant_len(d@.take(m as int)),
        decreases m,
    {
        assert(d@.take(m as int).drop_last() =~= d@.take(m - 1));
        m = m - 1;
    }
    assert(d@.take(m as int).len() == m);
    push_grouped(&mut s, &d, m);
    s
}

/// The digit character of a value from 0 to 9.
fn digit(v: i32) -> (c: char)
    requires
        0 <= v <= 9,
    ensures
        c == crate::text::digit_char(v as int),
{
    ((v as u8) + 48u8) as char
}

/// What `add_float` writes for the whole part: an extra `0` when it is 0,
/// then all its digits in groups of three. A negative whole part (only a
/// multiple of 10 can be written) gives the single digit of its last place,
/// `0`: the number of digits is counted from a value below 10.
pub open spec fn whole_text(integer: int) -> Seq<char> {
    if integer < 0 {
        seq!['0']
    } else {
        let d = decimal(integer as nat);
        (if integer == 0 {
            seq!['0']
        } else {
            seq![]
        }) + grouped(d, d.len() as int)
    }
}

/// What `add_float` appends for a number whose whole part is `integer` and
/// whose fraction, rounded to thousandths, is `thousandths`: the whole part
/// as `whole_text` writes it, a point, and the last three digits of
/// `thousandths`.
pub open spec fn float_text(integer: int, thousandths: int) -> Seq<char> {
    whole_text(integer) + seq![
        '.',
        crate::text::digit_char((thousandths / 100) % 10),
        crate::text::digit_char((thousandths / 10) % 10),
        crate::text::digit_char(thousandths % 10),
    ]
}

/// The part of `add_float` that writes digits: `s` followed by the number
/// whose whole part is `integer` and whose fraction in thousandths is
/// `thousandths`. A negative whole part that is not a multiple of 10, or a
/// negative fraction that is not a multiple of 1000, would turn a digit into
/// a byte out of range.
pub fn add_float_digits(s: String, integer: i32, thousandths: i32) -> (r: String)
    requires
        integer >= 0 || integer % 10 == 0,
        thousandths >= 0 || thousandths % 1000 == 0,
    ensures
        r@ == s@ + float_text(integer as int, thousandths as int),
{
    let mut s = s;
    let ghost start = s@;
    if integer < 0 {
        push_char(&mut s, '0');
    } else {
        if integer == 0 {
            push_char(&mut s, '0');
        }
        let d = chars_of(decimal_string(integer as u64).as_str());
        push_grouped(&mut s, &d, d.len());
    }
    assert(s@ =~= start + whole_text(integer as int));
    push_char(&mut s, '.');
    if thousandths >= 0 {
        push_char(&mut s, digit((thousandths / 100) % 10));
        push_char(&mut s, digit((thousandths / 10) % 10));
        push_char(&mut s, digit(thousandths % 10));
    } else {
        proof {
            let t = thousandths as int;
            let q = t / 1000;
            assert(t == q * 1000) by (nonlinear_arith)
                requires
                    t % 1000 == 0,
                    q == t / 1000,
            ;
            assert(t / 100 == q * 10) by (nonlinear_arith)
                requires
                    t == q * 1000,
            ;
            assert(t / 10 == q * 100) by (nonlinear_arith)
                requires
                    t == q * 1000,
            ;
            assert((q * 10) % 10 == 0) by (nonlinear_arith);
            assert((q * 100) % 10 == 0) by (nonlinear_arith);
            assert((q * 1000) % 10 == 0) by (nonlinear_arith);
        }
        push_char(&mut s, '0');
        push_char(&mut s, '0');
        push_char(&mut s, '0');
    }
    assert(s@ =~= start + float_text(integer as int, thousandths as int));
    s
}

} // verus!
