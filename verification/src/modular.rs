//! Facts about remainders that the ring indices rely on.

use vstd::prelude::*;
use vstd::arithmetic::div_mod::{
    lemma_add_mod_noop, lemma_fundamental_div_mod, lemma_mod_mod, lemma_small_mod,
};

verus! {

/// A value below twice the modulus reduces by at most one subtraction.
pub proof fn lemma_mod_once(x: int, n: int)
    requires
        n > 0,
        0 <= x < 2 * n,
    ensures
        x % n == (if x < n { x } else { x - n }),
{
    if x < n {
        assert(x % n == x) by (nonlinear_arith)
            requires 0 <= x < n;
    } else {
        assert(x % n == x - n) by (nonlinear_arith)
            requires n <= x < 2 * n;
    }
}

/// Reducing by a multiple of `n` first does not change the remainder by `n`.
pub proof fn lemma_mod_of_multiple(x: int, n: int, m: int)
    requires
        n > 0,
        m > 0,
        m % n == 0,
    ensures
        (x % m) % n == x % n,
{
    let k = m / n;
    lemma_fundamental_div_mod(m, n);
    assert(m == n * k);
    assert(k > 0) by (nonlinear_arith)
        requires m == n * k, m > 0, n > 0;
    lemma_mod_mod(x, n, k);
}

/// Two values less than `n` apart, and not equal, have different remainders.
pub proof fn lemma_mod_distinct(x: int, d: int, n: int)
    requires
        n > 0,
        0 < d < n,
    ensures
        (x + d) % n != x % n,
{
    lemma_add_mod_noop(x, d, n);
    lemma_small_mod(d as nat, n as nat);
    lemma_mod_once(x % n + d, n);
}

} // verus!
