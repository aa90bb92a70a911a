use crate::arith::{gcd, gcd_spec, lemma_gcd_divides, mul_mod};
use crate::error::ProtocolError;
use vstd::arithmetic::div_mod::*;
use vstd::prelude::*;

verus! {

/// Trial division tries every divisor below this bound.
pub const TRIAL_DIVISION_BOUND: u64 = 1_000_000;

/// `(p, q)` is a factor pair of `n` whose first member is above 1.
pub open spec fn is_factor_pair(n: nat, p: nat, q: nat) -> bool {
    p * q == n && p > 1
}

/// The map of the rho walk: `v^2 + 1 (mod n)`.
pub open spec fn rho_map(v: nat, n: nat) -> nat {
    ((v * v + 1) as int % (n as int)) as nat
}

/// The walk's `k`-th value, starting at 2.
pub open spec fn rho_walk(n: nat, k: nat) -> nat
    decreases k,
{
    if k == 0 {
        2
    } else {
        rho_map(rho_walk(n, (k - 1) as nat), n)
    }
}

/// The divisor that round `k` computes: `gcd(|x_k - x_2k|, n)`.
pub open spec fn rho_divisor(n: nat, k: nat) -> nat {
    let x = rho_walk(n, k);
    let y = rho_walk(n, 2 * k);
    gcd_spec(if x > y { (x - y) as nat } else { (y - x) as nat }, n)
}

/// The divisor the search ends with, once `done` rounds have all given 1:
/// the first later round's divisor that is not 1, or 1 when round `n` is
/// reached first.
pub open spec fn rho_search(n: nat, done: nat) -> nat
    decreases n - done,
{
    if done >= n {
        1
    } else if rho_divisor(n, done + 1) != 1 {
        rho_divisor(n, done + 1)
    } else {
        rho_search(n, done + 1)
    }
}

/// What `pollard_rho` returns for `n`.
pub open spec fn rho_outcome(n: nat) -> Result<(u128, u128), ProtocolError> {
    if n % 2 == 0 {
        Ok(((2 as u128), (n / 2) as u128))
    } else {
        let d = rho_search(n, 0);
        if d == 1 || d == n {
            Err(ProtocolError::FactorizationFailed)
        } else {
            Ok((d as u128, (n / d) as u128))
        }
    }
}

/// The least divisor of `n` that trial division finds from `p` on.
pub open spec fn trial_divisor_from(n: nat, p: nat) -> Option<nat>
    decreases TRIAL_DIVISION_BOUND - p,
{
    if p >= TRIAL_DIVISION_BOUND {
        None
    } else if n % p == 0 {
        Some(p)
    } else {
        trial_divisor_from(n, p + 1)
    }
}

/// What `factor_semiprime` returns for `n`.
pub open spec fn factorization(n: nat) -> Result<(u128, u128), ProtocolError> {
    match trial_divisor_from(n, 2) {
        Some(p) => Ok((p as u128, (n / p) as u128)),
        None => rho_outcome(n),
    }
}

/// One step of the rho walk.
fn rho_step(v: u128, n: u128) -> (r: u128)
    requires
        n > 0,
    ensures
        r < n,
        r == rho_map(v as nat, n as nat),
{
    let sq = mul_mod(v, v, n);
    proof {
        lemma_add_mod_noop(v * v, 1, n as int);
        if n == 1 {
            assert(1int % 1 == 0) by {
                lemma_mod_self_0(1);
            }
        } else {
            lemma_small_mod(1, n as nat);
            if sq + 1 < n {
                lemma_small_mod((sq + 1) as nat, n as nat);
            } else {
                lemma_mod_self_0(n as int);
            }
        }
    }
    if sq + 1 == n {
        0
    } else {
        sq + 1
    }
}

proof fn lemma_exact_quotient(n: nat, p: nat)
    requires
        p > 0,
        n % p == 0,
    ensures
        p * (n / p) == n,
{
    lemma_fundamental_div_mod(n as int, p as int);
}

/// Pollard's rho with tortoise and hare both starting at 2 and the map
/// `v^2 + 1 (mod n)`: stops at the first round whose
/// `gcd(|x - y|, n)` is not 1. Fails when that divisor is `n` itself, or
/// when `n` rounds pass without one (the walk must have closed its cycle
/// by then).
pub fn pollard_rho(n: u128) -> (r: Result<(u128, u128), ProtocolError>)
    ensures
        r matches Ok((p, q)) ==> is_factor_pair(n as nat, p as nat, q as nat),
        r matches Err(e) ==> e == ProtocolError::FactorizationFailed,
        r == rho_outcome(n as nat),
{
    if n % 2 == 0 {
        proof {
            lemma_exact_quotient(n as nat, 2);
        }
        return Ok((2, n / 2));
    }
    let mut x: u128 = 2;
    let mut y: u128 = 2;
    let mut d: u128 = 1;
    let mut rounds: u128 = 0;
    while d == 1 && rounds < n
        invariant
            n % 2 == 1,
            d > 0,
            n % d == 0,
            x == rho_walk(n as nat, rounds as nat),
            y == rho_walk(n as nat, 2 * rounds as nat),
            d == 1 ==> rho_search(n as nat, 0) == rho_search(n as nat, rounds as nat),
            d != 1 ==> d == rho_search(n as nat, 0),
        decreases n - rounds,
    {
        x = rho_step(x, n);
        let y1 = rho_step(y, n);
        proof {
            assert(rho_walk(n as nat, (2 * rounds + 1) as nat) == y1);
        }
        y = rho_step(y1, n);
        proof {
            assert(rho_walk(n as nat, (2 * rounds + 2) as nat) == y);
            assert(2 * (rounds + 1) == 2 * rounds + 2);
        }
        let diff: u128 = if x > y {
            x - y
        } else {
            y - x
        };
        d = gcd(diff, n);
        proof {
            lemma_gcd_divides(diff as nat, n as nat);
        }
        rounds = rounds + 1;
    }
    proof {
        if d == 1 {
            assert(rho_search(n as nat, rounds as nat) == 1);
        }
    }
    if d == 1 || d == n {
        return Err(ProtocolError::FactorizationFailed);
    }
    proof {
        lemma_exact_quotient(n as nat, d as nat);
    }
    Ok((d, n / d))
}

/// Factors `n`: first by trial division with every integer in
/// `[2, TRIAL_DIVISION_BOUND)`, returning `(p, n / p)` for the first that
/// divides `n`, and otherwise by `pollard_rho`.
pub fn factor_semiprime(n: u128) -> (r: Result<(u128, u128), ProtocolError>)
    ensures
        r matches Ok((p, q)) ==> is_factor_pair(n as nat, p as nat, q as nat),
        r matches Err(e) ==> e == ProtocolError::FactorizationFailed,
        r == factorization(n as nat),
{
    let mut p: u64 = 2;
    while p < TRIAL_DIVISION_BOUND
        invariant
            2 <= p <= TRIAL_DIVISION_BOUND,
            trial_divisor_from(n as nat, 2) == trial_divisor_from(n as nat, p as nat),
        decreases TRIAL_DIVISION_BOUND - p,
    {
        let pb = p as u128;
        if n % pb == 0 {
            proof {
                lemma_exact_quotient(n as nat, p as nat);
            }
            return Ok((pb, n / pb));
        }
        p = p + 1;
    }
    pollard_rho(n)
}

} // verus!
