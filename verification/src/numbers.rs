//! Integer helpers: rounded-up division and powers of two.

use vstd::arithmetic::power2::{lemma_pow2_pos, lemma_pow2_strictly_increases, lemma_pow2_unfold, pow2};
use vstd::prelude::*;

verus! {

/// `a / b` rounded up.
pub open spec fn ceil_div(a: nat, b: nat) -> nat {
    ((a + b - 1) / b as int) as nat
}

/// The first power of two, counting up from `start` by doubling, that is not
/// below `n`.
pub open spec fn doubled_until(start: nat, n: nat) -> nat
    decreases
        (if n > start {
            n - start
        } else {
            0
        }),
{
    if start >= n || start == 0 {
        start
    } else {
        doubled_until(2 * start, n)
    }
}

/// The least power of two that is at least `n`.
pub open spec fn power_ceiling(n: nat) -> nat {
    doubled_until(1, n)
}

pub open spec fn is_power_of_two(n: nat) -> bool {
    exists|k: nat| n == #[trigger] pow2(k)
}

proof fn lemma_doubled_until(start: nat, n: nat)
    requires
        is_power_of_two(start),
        start == 1 || start < 2 * n,
    ensures
        is_power_of_two(doubled_until(start, n)),
        doubled_until(start, n) >= n,
        doubled_until(start, n) >= start,
        doubled_until(start, n) == 1 || doubled_until(start, n) < 2 * n,
    decreases
        (if n > start {
            n - start
        } else {
            0
        }),
{
    let k = choose|k: nat| start == #[trigger] pow2(k);
    lemma_pow2_pos(k);
    if start < n {
        lemma_pow2_unfold(k + 1);
        assert(2 * start == pow2(k + 1));
        lemma_doubled_until(2 * start, n);
    }
}

/// `power_ceiling` is a power of two, not below its argument, and its half is
/// below it: no smaller power of two would do.
pub proof fn lemma_power_ceiling(n: nat)
    ensures
        is_power_of_two(power_ceiling(n)),
        power_ceiling(n) >= n,
        power_ceiling(n) == 1 || power_ceiling(n) < 2 * n,
{
    assert(pow2(0) == 1) by {
        vstd::arithmetic::power2::lemma2_to64();
    }
    lemma_doubled_until(1, n);
}

/// A larger argument never has a smaller `power_ceiling`.
pub proof fn lemma_power_ceiling_monotonic(a: nat, b: nat)
    requires
        a <= b,
    ensures
        power_ceiling(a) <= power_ceiling(b),
{
    lemma_power_ceiling(a);
    lemma_power_ceiling(b);
    let i = choose|k: nat| power_ceiling(a) == #[trigger] pow2(k);
    let j = choose|k: nat| power_ceiling(b) == #[trigger] pow2(k);
    if power_ceiling(a) > power_ceiling(b) {
        if i <= j {
            if i < j {
                lemma_pow2_strictly_increases(i, j);
            }
        } else {
            // Then the half of the ceiling of `a` is already at least `b`.
            lemma_pow2_unfold(i);
            if (i - 1) as nat > j {
                lemma_pow2_strictly_increases(j, (i - 1) as nat);
            }
            lemma_pow2_pos(j);
        }
    }
}

/// Every power of two at least `p`, itself a power of two, is a multiple of `p`.
pub proof fn lemma_power_ceiling_multiple(n: nat, p: nat)
    requires
        is_power_of_two(p),
        p <= n,
    ensures
        power_ceiling(n) % p == 0,
{
    lemma_power_ceiling(n);
    let i = choose|k: nat| p == #[trigger] pow2(k);
    let j = choose|k: nat| power_ceiling(n) == #[trigger] pow2(k);
    if j < i {
        lemma_pow2_strictly_increases(j, i);
    }
    vstd::arithmetic::power2::lemma_pow2_adds(i, (j - i) as nat);
    lemma_pow2_pos(i);
    let factor = pow2((j - i) as nat);
    assert(power_ceiling(n) == factor * p) by (nonlinear_arith)
        requires
            power_ceiling(n) == p * factor,
    ;
    vstd::arithmetic::div_mod::lemma_mod_multiples_basic(factor as int, p as int);
}

/// `a / b` rounded up.
pub fn div_ceil(a: u64, b: u64) -> (q: u64)
    requires
        b > 0,
    ensures
        q as nat == ceil_div(a as nat, b as nat),
{
    let whole: u64 = a / b;
    proof {
        vstd::arithmetic::div_mod::lemma_fundamental_div_mod(a as int, b as int);
        let r = a as int % b as int;
        let q = a as int / b as int;
        if r == 0 {
            vstd::arithmetic::div_mod::lemma_fundamental_div_mod_converse(
                a + b - 1,
                b as int,
                q,
                b - 1,
            );
        } else {
            assert(b as int * (q + 1) == b as int * q + b) by (nonlinear_arith);
            vstd::arithmetic::div_mod::lemma_fundamental_div_mod_converse(
                a + b - 1,
                b as int,
                q + 1,
                r - 1,
            );
            assert(q < u64::MAX) by (nonlinear_arith)
                requires
                    a as int == b as int * q + r,
                    r > 0,
                    b > 0,
                    q >= 0,
                    a <= u64::MAX,
            ;
        }
    }
    if a % b == 0 {
        whole
    } else {
        whole + 1
    }
}

/// The least power of two that is at least `n`.
pub fn next_power_of_two(n: u64) -> (p: u64)
    requires
        n <= 0x8000_0000_0000_0000,
    ensures
        p as nat == power_ceiling(n as nat),
{
    let mut p: u64 = 1;
    while p < n
        invariant
            n <= 0x8000_0000_0000_0000,
            p >= 1,
            doubled_until(p as nat, n as nat) == power_ceiling(n as nat),
        decreases 2 * n - p,
    {
        p = p * 2;
    }
    p
}

/// Rounding a quotient up gives the least number of pieces of `b` that hold `a`.
pub proof fn law_ceilings_are_least(a: nat, b: nat)
    requires
        b > 0,
    ensures
        a <= ceil_div(a, b) * b < a + b,
{
    let q = (a + b - 1) / b as int;
    vstd::arithmetic::div_mod::lemma_fundamental_div_mod(a + b - 1, b as int);
    vstd::arithmetic::div_mod::lemma_mod_bound(a + b - 1, b as int);
    vstd::arithmetic::div_mod::lemma_div_pos_is_pos(a + b - 1, b as int);
    assert(b * q == q * b) by (nonlinear_arith);
}

} // verus!
