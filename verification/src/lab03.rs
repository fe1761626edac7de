//! Small checked computations: the next prime, overflow-checked arithmetic,
//! and classification of ASCII bytes.

use vstd::prelude::*;
use crate::text::{decimal, push_decimal, push_char};

verus! {

/// No `d` with `2 <= d < y` divides `y` (true of 0, 1 and the primes).
pub open spec fn no_divisor_below(y: int) -> bool {
    forall|d: int| 2 <= d < y ==> #[trigger] (y % d) != 0
}

/// The first `z >= y` below `u16::MAX` that has no divisor in `2..z`, if any.
pub open spec fn first_candidate_from(y: int) -> Option<int>
    decreases u16::MAX - y,
{
    if y >= u16::MAX || y < 0 {
        None
    } else if no_divisor_below(y) {
        Some(y)
    } else {
        first_candidate_from(y + 1)
    }
}

/// What `next_prime(x)` finds: the first candidate after `x`.
pub open spec fn next_prime_spec(x: int) -> Option<int> {
    first_candidate_from(x + 1)
}

/// Searches upwards from `x + 1`, testing every candidate by trial division,
/// and gives up at `u16::MAX`.
pub fn next_prime(x: u16) -> (r: Option<u16>)
    requires
        x < u16::MAX,
    ensures
        r matches Some(y) ==> next_prime_spec(x as int) == Some(y as int),
        r is None ==> next_prime_spec(x as int) is None,
{
    let mut y: u16 = x + 1;
    while y < u16::MAX
        invariant
            x < y,
            next_prime_spec(x as int) == first_candidate_from(y as int),
        decreases u16::MAX - y,
    {
        let mut ok = true;
        let mut d: u16 = 2;
        while d < y
            invariant
                2 <= d,
                d <= y || (y < 2 && d == 2),
                ok <==> forall|e: int| 2 <= e < d ==> #[trigger] ((y as int) % e) != 0,
            decreases y - d,
        {
            if y % d == 0 {
                ok = false;
            }
            d = d + 1;
        }
        if ok {
            return Some(y);
        }
        proof {
            let e = choose|e: int| 2 <= e < d && !(#[trigger] ((y as int) % e) != 0);
            assert(y >= 2);
            assert(d <= y);
            assert(2 <= e < y);
            assert((y as int) % e == 0);
            assert(!no_divisor_below(y as int));
        }
        y = y + 1;
    }
    None
}

proof fn lemma_first_candidate(y: int, z: int)
    requires
        y >= 0,
        first_candidate_from(y) == Some(z),
    ensures
        y <= z < u16::MAX,
        no_divisor_below(z),
        forall|w: int| y <= w < z ==> !#[trigger] no_divisor_below(w),
    decreases u16::MAX - y,
{
    if y < u16::MAX && !no_divisor_below(y) {
        lemma_first_candidate(y + 1, z);
    }
}

/// The result of `next_prime`, when there is one, lies after the argument,
/// is prime whenever it is at least 2, and no number between the argument
/// and the result is prime.
pub proof fn next_prime_is_least_prime(x: int, y: int)
    requires
        x >= 0,
        next_prime_spec(x) == Some(y),
    ensures
        x < y < u16::MAX,
        y >= 2 ==> crate::lab01::is_prime(y),
        forall|z: int| x < z < y ==> !crate::lab01::is_prime(z),
{
    lemma_first_candidate(x + 1, y);
    assert forall|z: int| x < z < y implies !crate::lab01::is_prime(z) by {
        assert(!no_divisor_below(z));
    }
}

/// `r` is the chain of results of `next_prime` from `x`: each number is
/// `next_prime` of the one before it (of `x` for the first), and after the
/// last one `next_prime` finds nothing.
pub open spec fn prime_chain(x: int, r: Seq<u16>) -> bool {
    &&& forall|i: int| 0 <= i < r.len() ==> next_prime_spec(if i == 0 { x } else { r[i - 1] as int }) == Some(#[trigger] r[i] as int)
    &&& next_prime_spec(if r.len() == 0 { x } else { r.last() as int }) is None
}

/// Every result of `next_prime` from `x` on, following each number found.
pub fn primes_after(x: u16) -> (r: Vec<u16>)
    requires
        x < u16::MAX,
    ensures
        prime_chain(x as int, r@),
{
    let mut out: Vec<u16> = Vec::new();
    let mut cur: u16 = x;
    loop
        invariant
            x <= cur < u16::MAX,
            cur as int == if out@.len() == 0 { x as int } else { out@.last() as int },
            forall|i: int| 0 <= i < out@.len() ==> next_prime_spec(if i == 0 { x as int } else { out@[i - 1] as int }) == Some(#[trigger] out@[i] as int),
        decreases u16::MAX - cur,
    {
        match next_prime(cur) {
            Some(y) => {
                proof {
                    next_prime_is_least_prime(cur as int, y as int);
                }
                let ghost before = out@;
                out.push(y);
                assert forall|i: int| 0 <= i < out@.len() implies next_prime_spec(if i == 0 { x as int } else { out@[i - 1] as int }) == Some(#[trigger] out@[i] as int) by {
                    if i < before.len() {
                        assert(out@[i] == before[i]);
                        if i > 0 {
                            assert(out@[i - 1] == before[i - 1]);
                        }
                    }
                }
                cur = y;
            },
            None => {
                return out;
            },
        }
    }
}

/// The sum, which must stay below `u32::MAX` (the program stops
/// otherwise).
pub fn addition(x: u32, y: u32) -> (r: u32)
    requires
        x + y < u32::MAX,
    ensures
        r == x + y,
{
    x + y
}

/// The product, which must stay below `u32::MAX` (the program stops
/// otherwise).
pub fn multiplication(x: u32, y: u32) -> (r: u32)
    requires
        x * y < u32::MAX,
    ensures
        r == x * y,
{
    proof {
        assert(0 <= x * y) by (nonlinear_arith);
    }
    x * y
}

/// The message of a failed checked operation.
pub open spec fn overflow_message() -> Seq<char> {
    "!!!!the value doesnt fit in an u32!!!!"@
}

/// The sum, or an error message when it is not below `u32::MAX`.
pub fn addition_r(x: u32, y: u32) -> (r: Result<u32, &'static str>)
    ensures
        x + y < u32::MAX ==> r == Ok::<u32, &'static str>((x + y) as u32),
        x + y >= u32::MAX ==> (r matches Err(e) && e@ == overflow_message()),
{
    if (x as u64 + y as u64) < u32::MAX as u64 {
        Ok(x + y)
    } else {
        Err("!!!!the value doesnt fit in an u32!!!!")
    }
}

/// The product, or an error message when it is not below `u32::MAX`.
pub fn multiplication_r(x: u32, y: u32) -> (r: Result<u32, &'static str>)
    ensures
        x * y < u32::MAX ==> r == Ok::<u32, &'static str>((x * y) as u32),
        x * y >= u32::MAX ==> (r matches Err(e) && e@ == overflow_message()),
{
    proof {
        assert(0 <= x * y <= u32::MAX * u32::MAX) by (nonlinear_arith);
    }
    if (x as u64 * y as u64) < u32::MAX as u64 {
        Ok(x * y)
    } else {
        Err("!!!!the value doesnt fit in an u32!!!!")
    }
}

/// Why a byte was refused.
#[derive(Clone, Copy, Debug, PartialEq, Eq, Structural)]
pub enum ErrorChar {
    NonAscii,
    NonDigit,
    NonBase16Digit,
    NonLetter,
    NonPrintable,
}

impl ErrorChar {
    /// The line that describes the error.
    pub fn message(&self) -> (m: &'static str)
        ensures
            m@ == match *self {
                ErrorChar::NonAscii => "char not Ascii"@,
                ErrorChar::NonDigit => "char not digit"@,
                ErrorChar::NonBase16Digit => "char not a base 16 digit"@,
                ErrorChar::NonLetter => "char not letter"@,
                ErrorChar::NonPrintable => "char not printable"@,
            },
    {
        match self {
            ErrorChar::NonAscii => "char not Ascii",
            ErrorChar::NonDigit => "char not digit",
            ErrorChar::NonBase16Digit => "char not a base 16 digit",
            ErrorChar::NonLetter => "char not letter",
            ErrorChar::NonPrintable => "char not printable",
        }
    }
}

/// An ASCII letter.
pub open spec fn is_ascii_letter(c: u8) -> bool {
    (65 <= c <= 90) || (97 <= c <= 122)
}

/// The upper-case form of an ASCII byte (other bytes unchanged).
pub open spec fn ascii_upper(c: u8) -> u8 {
    if 97 <= c <= 122 {
        (c - 32) as u8
    } else {
        c
    }
}

/// The lower-case form of an ASCII byte (other bytes unchanged).
pub open spec fn ascii_lower(c: u8) -> u8 {
    if 65 <= c <= 90 {
        (c + 32) as u8
    } else {
        c
    }
}

/// The upper-case letter, or `NonLetter`.
pub fn to_uppercase(c: u8) -> (r: Result<u8, ErrorChar>)
    ensures
        is_ascii_letter(c) ==> r == Ok::<u8, ErrorChar>(ascii_upper(c)),
        !is_ascii_letter(c) ==> r == Err::<u8, ErrorChar>(ErrorChar::NonLetter),
{
    if (65 <= c && c <= 90) || (97 <= c && c <= 122) {
        if 97 <= c {
            Ok(c - 32)
        } else {
            Ok(c)
        }
    } else {
        Err(ErrorChar::NonLetter)
    }
}

/// The lower-case letter, or `NonLetter`.
pub fn to_lowercase(c: u8) -> (r: Result<u8, ErrorChar>)
    ensures
        is_ascii_letter(c) ==> r == Ok::<u8, ErrorChar>(ascii_lower(c)),
        !is_ascii_letter(c) ==> r == Err::<u8, ErrorChar>(ErrorChar::NonLetter),
{
    if (65 <= c && c <= 90) || (97 <= c && c <= 122) {
        if c <= 90 {
            Ok(c + 32)
        } else {
            Ok(c)
        }
    } else {
        Err(ErrorChar::NonLetter)
    }
}

/// Changing the case of a letter twice lands on the second case, whatever
/// case the letter had.
pub proof fn case_conversion_law(c: u8)
    requires
        is_ascii_letter(c),
    ensures
        is_ascii_letter(ascii_upper(c)),
        is_ascii_letter(ascii_lower(c)),
        ascii_lower(ascii_upper(c)) == ascii_lower(c),
        ascii_upper(ascii_lower(c)) == ascii_upper(c),
{
}

/// A control character: below 32, or 127.
pub open spec fn is_ascii_control(c: u8) -> bool {
    c < 32 || c == 127
}

/// What printing a byte writes: the unit value's debug form, a space, and the
/// byte's decimal value; control characters are refused.
pub fn print_char_text(c: u8) -> (r: Result<String, ErrorChar>)
    ensures
        !is_ascii_control(c) ==> (r matches Ok(s) && s@ == "() "@ + decimal(c as nat)),
        is_ascii_control(c) ==> r == Err::<String, ErrorChar>(ErrorChar::NonPrintable),
{
    if !(c < 32 || c == 127) {
        let mut s = String::new();
        push_char(&mut s, '(');
        push_char(&mut s, ')');
        push_char(&mut s, ' ');
        push_decimal(&mut s, c as u64);
        proof {
            reveal_strlit("() ");
            assert(s@ =~= "() "@ + decimal(c as nat));
        }
        Ok(s)
    } else {
        Err(ErrorChar::NonPrintable)
    }
}

/// The value of a decimal digit byte; a non-ASCII byte and a non-digit are
/// refused with different errors.
pub open spec fn digit_result(c: u8) -> Result<u8, ErrorChar> {
    if c >= 128 {
        Err(ErrorChar::NonAscii)
    } else if 48 <= c <= 57 {
        Ok((c - 48) as u8)
    } else {
        Err(ErrorChar::NonDigit)
    }
}

/// The value of a hexadecimal digit byte (either case of letter).
pub open spec fn hex_digit_result(c: u8) -> Result<u8, ErrorChar> {
    if c >= 128 {
        Err(ErrorChar::NonAscii)
    } else if 48 <= c <= 57 {
        Ok((c - 48) as u8)
    } else if 97 <= c <= 102 {
        Ok((c - 87) as u8)
    } else if 65 <= c <= 70 {
        Ok((c - 55) as u8)
    } else {
        Err(ErrorChar::NonBase16Digit)
    }
}

/// The value of a decimal digit.
pub fn char_to_number(c: u8) -> (r: Result<u8, ErrorChar>)
    ensures
        r == digit_result(c),
{
    if c < 128 {
        if 48 <= c && c <= 57 {
            Ok(c - 48)
        } else {
            Err(ErrorChar::NonDigit)
        }
    } else {
        Err(ErrorChar::NonAscii)
    }
}

/// The value of a hexadecimal digit.
pub fn char_to_number_hex(c: u8) -> (r: Result<u8, ErrorChar>)
    ensures
        r == hex_digit_result(c),
{
    if !(c < 128) {
        return Err(ErrorChar::NonAscii);
    }
    if 48 <= c && c <= 57 {
        Ok(c - 48)
    } else if 97 <= c && c <= 102 {
        Ok(10 + (c - 97))
    } else if 65 <= c && c <= 70 {
        Ok(10 + (c - 65))
    } else {
        Err(ErrorChar::NonBase16Digit)
    }
}

/// Every decimal digit is read to the same value as a hexadecimal digit, and
/// every hexadecimal value is below 16.
pub proof fn hex_extends_decimal(c: u8)
    ensures
        digit_result(c) is Ok ==> hex_digit_result(c) == digit_result(c),
        hex_digit_result(c) matches Ok(v) ==> v < 16,
        digit_result(c) matches Ok(v) ==> v < 10,
{
}

/// The hexadecimal digits in order of value: `0` to `9`, then `a` to `f`.
pub open spec fn hex_digit_chars() -> Seq<char> {
    seq!['0', '1', '2', '3', '4', '5', '6', '7', '8', '9', 'a', 'b', 'c', 'd', 'e', 'f']
}

/// The upper-case hexadecimal letters, `A` to `F`.
pub open spec fn hex_upper_letters() -> Seq<char> {
    seq!['A', 'B', 'C', 'D', 'E', 'F']
}

/// What a hexadecimal digit reads as: the sixteen characters `0` to `9` and
/// `a` to `f` read as 0 to 15 in that order, `A` to `F` read as 10 to 15, a
/// byte from 128 up is not ASCII, and every other byte is refused as no
/// base-16 digit.
pub proof fn hex_digit_values(c: u8)
    ensures
        forall|i: int| 0 <= i < 16 ==> hex_digit_result((#[trigger] hex_digit_chars()[i]) as u8) == Ok::<u8, ErrorChar>(i as u8),
        forall|i: int| 0 <= i < 6 ==> hex_digit_result((#[trigger] hex_upper_letters()[i]) as u8) == Ok::<u8, ErrorChar>((10 + i) as u8),
        c >= 128 ==> hex_digit_result(c) == Err::<u8, ErrorChar>(ErrorChar::NonAscii),
        c < 128 && !hex_digit_chars().contains(c as char) && !hex_upper_letters().contains(c as char)
            ==> hex_digit_result(c) == Err::<u8, ErrorChar>(ErrorChar::NonBase16Digit),
{
    let low = hex_digit_chars();
    let up = hex_upper_letters();
    assert forall|i: int| 0 <= i < 16 implies hex_digit_result((#[trigger] low[i]) as u8) == Ok::<u8, ErrorChar>(i as u8) by {
        assert(low[i] as u32 == if i < 10 { 48 + i } else { 87 + i });
    }
    assert forall|i: int| 0 <= i < 6 implies hex_digit_result((#[trigger] up[i]) as u8) == Ok::<u8, ErrorChar>((10 + i) as u8) by {
        assert(up[i] as u32 == 65 + i);
    }
    if c < 128 && !low.contains(c as char) && !up.contains(c as char) {
        if 48 <= c <= 57 {
            assert(low[c - 48] == c as char);
        } else if 97 <= c <= 102 {
            assert(low[c - 87] == c as char);
        } else if 65 <= c <= 70 {
            assert(up[c - 65] == c as char);
        }
    }
}

} // verus!
