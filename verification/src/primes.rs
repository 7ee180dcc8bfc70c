//! Trial-division primality test, the workload of the kernel's demonstration tasks.
use vstd::prelude::*;

verus! {

/// `d` divides `n`.
pub open spec fn divides(d: int, n: int) -> bool {
    n % d == 0
}

/// `n` is prime: greater than 1 and divisible by no number from 2 to `n - 1`.
pub open spec fn is_prime_spec(n: int) -> bool {
    n > 1 && forall|d: int| 2 <= d < n ==> !#[trigger] divides(d, n)
}

/// Largest square whose root fits in 32 bits.
pub const LARGEST_SQUARE: u64 = 0xFFFF_FFFE_0000_0001;

/// Whether trial division of `n` can square its divisor candidates in 64 bits: either
/// `n` is at most the square of `u32::MAX`, or it has a divisor below 2^32 at which
/// the search stops.
pub open spec fn trial_division_fits(n: u64) -> bool {
    n <= LARGEST_SQUARE || exists|d: int| 2 <= d < 0x1_0000_0000 && #[trigger] divides(d, n as int)
}

/// With no divisor from 2 below `j` and `j * j > n`, `n` has no divisor at all.
proof fn lemma_no_small_divisor(n: int, j: int)
    requires
        n >= 2,
        j >= 2,
        j * j > n,
        forall|d: int| 2 <= d < j ==> !#[trigger] divides(d, n as int),
    ensures
        is_prime_spec(n),
{
    assert forall|d: int| 2 <= d < n implies !#[trigger] divides(d, n) by {
        if n % d == 0 && d >= j {
            let q = n / d;
            vstd::arithmetic::div_mod::lemma_fundamental_div_mod(n, d);
            assert(n == d * q);
            assert(2 <= q < j) by (nonlinear_arith)
                requires
                    n == d * q,
                    j <= d < n,
                    j * j > n,
                    j >= 2,
            ;
            vstd::arithmetic::div_mod::lemma_fundamental_div_mod_converse_mod(n, q, d, 0);
            assert(divides(q, n));
        }
    }
}

/// Whether `n` is prime, by trial division up to its square root.
pub fn is_prime(n: u64) -> (r: bool)
    requires
        trial_division_fits(n),
    ensures
        r == is_prime_spec(n as int),
{
    if n <= 1 {
        return false;
    }
    let mut j: u64 = 2;
    assert(j * j <= LARGEST_SQUARE);
    while j * j <= n
        invariant
            2 <= j <= 0xFFFF_FFFF,
            j * j <= LARGEST_SQUARE,
            n >= 2,
            trial_division_fits(n),
            forall|d: int| 2 <= d < j ==> !#[trigger] divides(d, n as int),
        decreases n - j,
    {
        assert(j < j * j) by (nonlinear_arith)
            requires
                j >= 2,
        ;
        if n % j == 0 {
            assert(divides(j as int, n as int));
            return false;
        }
        proof {
            if j == 0xFFFF_FFFF {
                assert(j * j == LARGEST_SQUARE);
                if n == LARGEST_SQUARE {
                    vstd::arithmetic::div_mod::lemma_fundamental_div_mod_converse_mod(n as int, j as int, j as int, 0);
                }
                if n > LARGEST_SQUARE {
                    let d = choose|d: int| 2 <= d < 0x1_0000_0000 && #[trigger] divides(d, n as int);
                    if d < j {
                    } else {
                        assert(d == j);
                    }
                }
            }
        }
        j = j + 1;
        assert(j * j <= LARGEST_SQUARE) by (nonlinear_arith)
            requires
                j <= 0xFFFF_FFFF,
        ;
    }
    proof {
        lemma_no_small_divisor(n as int, j as int);
    }
    true
}

} // verus!
