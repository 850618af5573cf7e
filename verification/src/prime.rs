//! Primality of whole numbers by trial division with odd divisors up to the
//! square root.
use vstd::prelude::*;
use vstd::string::StringExecFns;

verus! {

/// A prime is a whole number above 1 that no number strictly between 1 and
/// itself divides.
pub open spec fn is_prime(n: int) -> bool {
    n > 1 && forall|d: int| 2 <= d < n ==> #[trigger] (n % d) != 0
}

proof fn lemma_odd_has_no_even_divisor(n: int, d: int)
    requires
        n > 0,
        n % 2 != 0,
        d >= 2,
        d % 2 == 0,
    ensures
        n % d != 0,
{
    if n % d == 0 {
        let q = n / d;
        let m = d / 2;
        assert(n == d * q) by (nonlinear_arith)
            requires
                n % d == 0,
                d > 0,
                q == n / d,
        ;
        assert(d == 2 * m);
        assert(n == 2 * (m * q)) by (nonlinear_arith)
            requires
                n == d * q,
                d == 2 * m,
        ;
        assert((2 * (m * q)) % 2 == 0) by (nonlinear_arith);
    }
}

/// A divisor at or above `i` of a number below `i * i` has a cofactor below `i`.
proof fn lemma_small_cofactor(n: int, d: int, i: int)
    requires
        2 <= i <= d < n,
        n < i * i,
        n % d == 0,
    ensures
        2 <= n / d < i,
        n % (n / d) == 0,
{
    let q = n / d;
    assert(n == d * q) by (nonlinear_arith)
        requires
            n % d == 0,
            d > 0,
            q == n / d,
    ;
    assert(q >= 0) by (nonlinear_arith)
        requires
            q == n / d,
            d > 0,
            n > 0,
    ;
    if q <= 1 {
        assert(d * q <= d) by (nonlinear_arith)
            requires
                q <= 1,
                d > 0,
        ;
    }
    assert(q < i) by (nonlinear_arith)
        requires
            n == d * q,
            d >= i,
            n < i * i,
            q >= 0,
            i > 0,
    ;
    assert(n % q == 0) by (nonlinear_arith)
        requires
            n == d * q,
            q > 0,
    ;
}

/// Whether `n` is prime, testing 2 and then the odd numbers whose square is
/// at most `n`.
pub fn is_prime_integer(n: i64) -> (prime: bool)
    ensures
        prime == is_prime(n as int),
{
    if n <= 1 {
        return false;
    }
    if n == 2 {
        return true;
    }
    if n % 2 == 0 {
        assert(n % 2 == 0 && 2 < n);
        return false;
    }
    let mut i: i64 = 3;
    while i <= n / i
        invariant
            n > 2,
            n % 2 != 0,
            3 <= i,
            i % 2 == 1,
            i <= n,
            forall|d: int| 2 <= d < i ==> #[trigger] (n as int % d) != 0,
        decreases n - i,
    {
        assert(i * i <= n) by (nonlinear_arith)
            requires
                i <= n / i,
                i > 0,
        ;
        assert(i + 2 <= n) by (nonlinear_arith)
            requires
                i * i <= n,
                i >= 3,
        ;
        if n % i == 0 {
            assert(2 <= i < n);
            return false;
        }
        proof {
            lemma_odd_has_no_even_divisor(n as int, i + 1);
        }
        i = i + 2;
    }
    assert(n < i * i) by (nonlinear_arith)
        requires
            i > n / i,
            i > 0,
            n > 0,
    ;
    assert forall|d: int| 2 <= d < n implies #[trigger] (n as int % d) != 0 by {
        if d >= i && n as int % d == 0 {
            lemma_small_cofactor(n as int, d, i as int);
            let q = n as int / d;
            assert(n as int % q != 0);
        }
    }
    true
}

/// The only method that a request may name.
pub const PRIME_METHOD: &'static str = "isPrime";

/// Whether a request names the supported method.
pub fn is_prime_method(method: &String) -> (supported: bool)
    ensures
        supported == (method@ == PRIME_METHOD@),
{
    let expected = String::from_str(PRIME_METHOD);
    method.eq(&expected)
}

} // verus!
