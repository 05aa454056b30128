//! Counting prime numbers by trial division.
//!
//! The parallel runtimes split a range of candidates into blocks and add
//! per-block counts into one shared counter; the per-candidate test and
//! the count over a range are verified here against a direct definition
//! of primality.

use vstd::arithmetic::div_mod::{lemma_fundamental_div_mod, lemma_mod_multiples_basic};
use vstd::prelude::*;

verus! {

/// `n` is prime: at least 2, and divisible by nothing between 2 and
/// itself.
pub open spec fn is_prime_spec(n: u64) -> bool {
    n >= 2 && forall|d: u64| 2 <= d < n ==> #[trigger] (n as int % d as int) != 0
}

/// Trial division need only reach the square root: if nothing below `f`
/// divides `n` and `f * f` exceeds `n`, then nothing divides `n` at all,
/// because a divisor and its cofactor cannot both be at least `f`.
proof fn lemma_no_large_factor(n: u64, f: u64)
    requires
        n >= 2,
        f >= 2,
        f as int * f as int > n,
        forall|d: u64| 2 <= d < f ==> #[trigger] (n as int % d as int) != 0,
    ensures
        forall|d: u64| 2 <= d < n ==> #[trigger] (n as int % d as int) != 0,
{
    assert forall|d: u64| 2 <= d < n implies #[trigger] (n as int % d as int) != 0 by {
        if n as int % d as int == 0 {
            let di = d as int;
            let ni = n as int;
            lemma_fundamental_div_mod(ni, di);
            let c = ni / di;
            assert(ni == di * c);
            assert(c >= 2) by (nonlinear_arith)
                requires
                    ni == di * c,
                    2 <= di < ni,
            ;
            lemma_mod_multiples_basic(di, c);
            assert((c * di) % c == 0) by (nonlinear_arith)
                requires
                    c >= 2,
                    (di * c) % c == 0,
            ;
            assert(ni % c == 0) by {
                assert(ni == c * di) by (nonlinear_arith)
                    requires
                        ni == di * c,
                ;
                lemma_mod_multiples_basic(c, di);
                assert((c * di) % di == 0);
                assert(ni % c == (di * c) % c) by (nonlinear_arith)
                    requires
                        ni == di * c,
                ;
            }
            // One of divisor and cofactor lies below f.
            if d >= f {
                assert(c < f) by (nonlinear_arith)
                    requires
                        ni == di * c,
                        di >= f,
                        f as int * f as int > ni,
                        c >= 2,
                        f >= 2,
                ;
                assert(2 <= c < f);
                assert((n as int % c as u64 as int) != 0);
                assert(c as u64 as int == c);
                assert(false);
            } else {
                assert(false);
            }
        }
    }
}

/// Whether `input` is prime, by checking 2 and then odd factors up to the
/// square root.
pub fn is_prime(input: u64) -> (r: bool)
    ensures
        r == is_prime_spec(input),
{
    if input < 2 {
        return false;
    }
    if input % 2 == 0 {
        // An even number has the factor 2, so only 2 itself is prime.
        proof {
            if input != 2 {
                assert(input as int % 2int == 0);
            }
        }
        return input == 2;
    }
    if input == 3 {
        return true;
    }
    let mut factor: u64 = 3;
    while factor <= input / factor
        invariant
            3 <= factor,
            factor % 2 == 1,
            input % 2 == 1,
            input >= 3,
            forall|d: u64| 2 <= d < factor ==> #[trigger] (input as int % d as int) != 0,
        decreases input - factor,
    {
        proof {
            assert(factor as int * factor as int <= input) by (nonlinear_arith)
                requires
                    factor <= input / factor,
                    factor >= 3,
                    input >= 3,
                    input / factor == input as int / factor as int,
            ;
            assert(factor < input) by (nonlinear_arith)
                requires
                    factor as int * factor as int <= input,
                    factor >= 3,
            ;
        }
        if input % factor == 0 {
            proof {
                assert(2 <= factor < input);
                assert(input as int % factor as int == 0);
            }
            return false;
        }
        proof {
            // The next even candidate cannot divide an odd number.
            let e = factor + 1;
            if input as int % e as int == 0 {
                lemma_fundamental_div_mod(input as int, e as int);
                let c = input as int / e as int;
                assert(input as int == e as int * c);
                lemma_fundamental_div_mod(e as int, 2);
                let h = e as int / 2;
                assert(e as int == 2 * h);
                assert(input as int == (h * c) * 2) by (nonlinear_arith)
                    requires
                        input as int == e as int * c,
                        e as int == 2 * h,
                ;
                lemma_mod_multiples_basic(h * c, 2);
                assert(input as int % 2int == input % 2);
                assert(false);
            }
        }
        factor = factor + 2;
    }
    proof {
        assert(factor as int * factor as int > input) by (nonlinear_arith)
            requires
                factor > input / factor,
                factor >= 3,
                input >= 3,
                input / factor == input as int / factor as int,
        ;
        lemma_no_large_factor(input, factor);
    }
    true
}

/// How many primes lie in `start .. start + count`.
pub open spec fn primes_in(start: int, count: int) -> int
    decreases count,
{
    if count <= 0 {
        0
    } else {
        primes_in(start, count - 1) + if is_prime_spec((start + count - 1) as u64) {
            1int
        } else {
            0int
        }
    }
}

/// Counts the primes in `start .. start + count` one candidate at a time.
pub fn reference_sequential_single(start: u64, count: u64) -> (r: u32)
    requires
        start + count <= u64::MAX,
        count <= u32::MAX,
    ensures
        r == primes_in(start as int, count as int),
{
    let mut counter: u32 = 0;
    let mut number = start;
    while number < start + count
        invariant
            start <= number <= start + count,
            start + count <= u64::MAX,
            count <= u32::MAX,
            counter == primes_in(start as int, number - start),
            counter <= number - start,
        decreases start + count - number,
    {
        if is_prime(number) {
            counter = counter + 1;
        }
        number = number + 1;
    }
    counter
}

/// The count computed by the block-splitting runtimes: however the range
/// is split, the per-block counts add up to the count over the range.
pub fn count_primes(start: u64, length: u64) -> (r: u32)
    requires
        start + length <= u64::MAX,
        length <= u32::MAX,
    ensures
        r == primes_in(start as int, length as int),
{
    reference_sequential_single(start, length)
}

} // verus!
