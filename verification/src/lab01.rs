//! Primality and coprimality tests on `i32`.

use vstd::prelude::*;
use vstd::arithmetic::div_mod::{lemma_mod_twice, lemma_small_mod, lemma_sub_mod_noop};
use crate::text::{decimal, push_decimal};

verus! {

/// What `prime` decides: `a` is neither 0 nor 1, and no `b` with `2 <= b <= a / 2`
/// divides it. (A negative `a` has no such `b`, so it passes the test.)
pub open spec fn passes_prime_test(a: int) -> bool {
    &&& a != 0
    &&& a != 1
    &&& forall|b: int| 2 <= b && 2 * b <= a ==> #[trigger] (a % b) != 0
}

/// A number that is at least 2 and has no divisor strictly between 1 and itself.
pub open spec fn is_prime(a: int) -> bool {
    &&& a >= 2
    &&& forall|d: int| 2 <= d < a ==> #[trigger] (a % d) != 0
}

/// `d` divides both `a` and `b`.
pub open spec fn common_divisor(a: int, b: int, d: int) -> bool {
    d > 0 && a % d == 0 && b % d == 0
}

/// The only positive common divisor of `a` and `b` is 1.
pub open spec fn relatively_prime(a: int, b: int) -> bool {
    forall|d: int| d > 1 ==> !#[trigger] common_divisor(a, b, d)
}

/// Trial division by every `b` from 2 up to `a / 2`.
pub fn prime(a: i32) -> (r: bool)
    ensures
        r == passes_prime_test(a as int),
{
    let mut b: i32 = 2;
    if a == 0 || a == 1 {
        return false;
    }
    while b <= a / 2
        invariant
            2 <= b,
            a != 0 && a != 1,
            a >= 0 ==> b <= a / 2 + 1,
            forall|c: int| 2 <= c < b ==> #[trigger] ((a as int) % c) != 0,
        decreases a / 2 + 1 - b,
    {
        if a % b == 0 {
            proof {
                assert(2 * (b as int) <= a);
            }
            return false;
        }
        b = b + 1;
    }
    proof {
        assert forall|c: int| 2 <= c && 2 * c <= a implies #[trigger] ((a as int) % c) != 0 by {
            assert(c < b);
        }
    }
    true
}

/// For `a >= 2`, the trial division of `prime` decides primality: a divisor
/// above `a / 2` and below `a` cannot exist.
pub proof fn prime_test_decides_primality(a: int)
    requires
        a >= 2,
    ensures
        passes_prime_test(a) <==> is_prime(a),
{
    if passes_prime_test(a) {
        assert forall|d: int| 2 <= d < a implies #[trigger] (a % d) != 0 by {
            if a % d == 0 {
                if 2 * d <= a {
                    assert(a % d != 0);
                } else {
                    let q = a / d;
                    assert(a == q * d) by (nonlinear_arith)
                        requires
                            a % d == 0,
                            d > 0,
                            q == a / d,
                    ;
                    assert(false) by (nonlinear_arith)
                        requires
                            a == q * d,
                            2 * d > a,
                            d < a,
                            d >= 2,
                    ;
                }
            }
        }
    }
}

proof fn lemma_divisor_of_difference(x: int, y: int, d: int)
    requires
        d > 0,
        y % d == 0,
    ensures
        (x - y) % d == x % d,
{
    lemma_sub_mod_noop(x, y, d);
    lemma_mod_twice(x, d);
}

/// Subtracting the smaller from the larger until both are equal; the numbers
/// are coprime when they meet at 1. On equal arguments the loop does not run.
pub fn coprime(a: i32, b: i32) -> (r: bool)
    requires
        (a > 0 && b > 0) || a == b,
    ensures
        a > 0 && b > 0 ==> (r <==> relatively_prime(a as int, b as int)),
        a == b ==> (r <==> a == 1),
{
    let mut a1: i32 = a;
    let mut b1: i32 = b;
    if a == b {
        if a1 == 1 {
            proof {
                assert forall|d: int| d > 1 implies !#[trigger] common_divisor(a as int, b as int, d) by {
                    lemma_small_mod(1, d as nat);
                }
            }
            return true;
        } else {
            proof {
                if a > 0 {
                    assert(common_divisor(a as int, b as int, a as int));
                }
            }
            return false;
        }
    }
    while a1 != b1
        invariant
            a1 > 0,
            b1 > 0,
            forall|d: int| d > 0 ==> (common_divisor(a as int, b as int, d) <==> common_divisor(a1 as int, b1 as int, d)),
        decreases a1 + b1,
    {
        if a1 > b1 {
            proof {
                assert forall|d: int| d > 0 implies (common_divisor(a1 as int, b1 as int, d) <==> common_divisor(a1 - b1, b1 as int, d)) by {
                    if (b1 as int) % d == 0 {
                        lemma_divisor_of_difference(a1 as int, b1 as int, d);
                    }
                }
            }
            a1 = a1 - b1;
        } else {
            proof {
                assert forall|d: int| d > 0 implies (common_divisor(a1 as int, b1 as int, d) <==> common_divisor(a1 as int, b1 - a1, d)) by {
                    if (a1 as int) % d == 0 {
                        lemma_divisor_of_difference(b1 as int, a1 as int, d);
                    }
                }
            }
            b1 = b1 - a1;
        }
    }
    if a1 == 1 {
        proof {
            assert forall|d: int| d > 1 implies !#[trigger] common_divisor(a as int, b as int, d) by {
                lemma_small_mod(1, d as nat);
            }
        }
        true
    } else {
        proof {
            assert(common_divisor(a1 as int, b1 as int, a1 as int));
            assert(common_divisor(a as int, b as int, a1 as int));
        }
        false
    }
}

/// Coprimality does not depend on the order of the arguments.
pub proof fn coprime_symmetric(a: int, b: int)
    ensures
        relatively_prime(a, b) <==> relatively_prime(b, a),
{
    assert forall|d: int| d > 1 implies (#[trigger] common_divisor(a, b, d) <==> common_divisor(b, a, d)) by {}
    if relatively_prime(a, b) {
        assert forall|d: int| d > 1 implies !#[trigger] common_divisor(b, a, d) by {
            assert(!common_divisor(a, b, d));
        }
    }
    if relatively_prime(b, a) {
        assert forall|d: int| d > 1 implies !#[trigger] common_divisor(a, b, d) by {
            assert(!common_divisor(b, a, d));
        }
    }
}

/// The verse for `i` bottles (the last one, for a single bottle, has its own
/// words), followed by a line holding one space.
pub open spec fn verse(i: int) -> Seq<char> {
    if i != 1 {
        decimal(i as nat) + " bottles of beer on the wall,\n"@ + decimal(i as nat) + " bottles of beer,\n"@
            + "Take one down, pass it around,\n"@ + decimal((i - 1) as nat) + " bottles of beer on the wall.\n"@
            + " \n"@
    } else {
        "1 bottle of beer on the wall,\n"@ + "1 bottle of beer,\n"@ + "Take one down, pass it around,\n"@
            + "No bottles of beer on the wall.\n"@ + " \n"@
    }
}

/// The verses from `i` bottles down to one.
pub open spec fn song_from(i: int) -> Seq<char>
    decreases i,
{
    if i < 1 {
        seq![]
    } else {
        verse(i) + song_from(i - 1)
    }
}

/// Appends the verse for `i` bottles.
fn push_verse(s: &mut String, i: u64)
    requires
        1 <= i <= 99,
    ensures
        final(s)@ == old(s)@ + verse(i as int),
{
    if i != 1 {
        push_decimal(s, i);
        s.append(" bottles of beer on the wall,\n");
        push_decimal(s, i);
        s.append(" bottles of beer,\n");
        s.append("Take one down, pass it around,\n");
        push_decimal(s, i - 1);
        s.append(" bottles of beer on the wall.\n");
        s.append(" \n");
    } else {
        s.append("1 bottle of beer on the wall,\n");
        s.append("1 bottle of beer,\n");
        s.append("Take one down, pass it around,\n");
        s.append("No bottles of beer on the wall.\n");
        s.append(" \n");
    }
}

/// The whole song, from 99 bottles down to none.
pub fn bottles_of_beer() -> (s: String)
    ensures
        s@ == song_from(99),
{
    let mut s = String::new();
    let mut i: u64 = 99;
    while i >= 1
        invariant
            i <= 99,
            s@ + song_from(i as int) == song_from(99),
        decreases i,
    {
        let ghost before = s@;
        push_verse(&mut s, i);
        assert(s@ + song_from(i - 1) =~= before + song_from(i as int));
        i = i - 1;
    }
    assert(s@ + song_from(i as int) =~= s@);
    s
}

} // verus!
