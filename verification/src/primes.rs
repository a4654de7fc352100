//! Primality for the line-oriented JSON prime-check collaborator.
//!
//! The service itself lives outside this crate; what it needs from here is
//! an exact answer to "is this number prime", and the response record it
//! sends back.

use vstd::prelude::*;

use vstd::arithmetic::div_mod::{
    lemma_div_is_ordered_by_denominator, lemma_fundamental_div_mod, lemma_mod_multiples_basic,
};

verus! {

/// Primality, stated directly: at least two, and no smaller divisor.
pub open spec fn spec_prime(n: int) -> bool {
    n >= 2 && forall|d: int| 2 <= d < n ==> #[trigger] (n % d) != 0
}

/// Decide primality by trial division up to the square root.
pub fn is_prime(number: u64) -> (r: bool)
    ensures
        r == spec_prime(number as int),
{
    if number < 2 {
        return false;
    }
    let mut d: u64 = 2;
    while d <= number / d
        invariant
            2 <= d,
            number >= 2,
            forall|k: int| 2 <= k < d ==> #[trigger] ((number as int) % k) != 0,
        decreases number - d,
    {
        if number % d == 0 {
            proof {
                assert(d < number) by (nonlinear_arith)
                    requires
                        2 <= d,
                        number >= 2,
                        d <= number / d,
                        number % d == 0,
                {}
            }
            return false;
        }
        proof {
            assert(d + 1 <= number) by (nonlinear_arith)
                requires
                    2 <= d,
                    number >= 2,
                    d <= number / d,
            {}
        }
        d = d + 1;
    }
    proof {
        let n = number as int;
        assert forall|k: int| 2 <= k < n implies #[trigger] (n % k) != 0 by {
            if n % k == 0 {
                if k >= d {
                    let m = n / k;
                    lemma_fundamental_div_mod(n, k);
                    assert(n == k * m);
                    assert(m >= 2) by (nonlinear_arith)
                        requires
                            n == k * m,
                            2 <= k < n,
                    {}
                    lemma_div_is_ordered_by_denominator(n, d as int, k);
                    assert(m <= n / (d as int));
                    assert(n / (d as int) < d);
                    lemma_mod_multiples_basic(k, m);
                    assert((k * m) % m == 0);
                    assert(n % m == 0);
                    assert(false);
                }
            }
        }
    }
    true
}

/// The answer record of the prime-check service.
#[derive(Debug, Clone, PartialEq, Eq)]
pub struct IsPrimeResponse {
    pub method: String,
    pub prime: bool,
}

} // verus!
