use num_bigint::BigUint;
use num_traits::ToPrimitive;
use vstd::arithmetic::div_mod::*;
use vstd::arithmetic::power::*;
use vstd::prelude::*;

verus! {

/// The number that `b` spells in base 256, most significant byte first.
pub open spec fn be_value(b: Seq<u8>) -> nat
    decreases b.len(),
{
    if b.len() == 0 {
        0
    } else {
        be_value(b.drop_last()) * 256 + b.last() as nat
    }
}

/// The shortest big-endian bytes of `n`; zero is the single byte 0.
pub open spec fn be_bytes(n: nat) -> Seq<u8>
    decreases n,
{
    if n < 256 {
        seq![n as u8]
    } else {
        be_bytes(n / 256).push((n % 256) as u8)
    }
}

/// Relies on num_bigint's `BigUint::from_bytes_be`, which reads the bytes as
/// a big-endian number, and `ToPrimitive::to_u128`, which gives it back when
/// it fits.
#[verifier::external_body]
pub(crate) fn uint_from_be(b: &[u8]) -> (r: Option<u128>)
    ensures
        be_value(b@) <= u128::MAX ==> r == Some(be_value(b@) as u128),
        be_value(b@) > u128::MAX ==> r is None,
{
    BigUint::from_bytes_be(b).to_u128()
}

/// Relies on num_bigint's `BigUint::to_bytes_be`: the shortest big-endian
/// bytes of the number, and `[0]` for zero.
#[verifier::external_body]
pub(crate) fn uint_to_be(n: u128) -> (r: Vec<u8>)
    ensures
        r@ == be_bytes(n as nat),
{
    BigUint::from(n).to_bytes_be()
}

/// Proof that `b` bytes spell a number below `256^|b|`.
pub proof fn lemma_be_value_bound(b: Seq<u8>)
    ensures
        be_value(b) < pow(256, b.len()),
    decreases b.len(),
{
    reveal(pow);
    if b.len() > 0 {
        let p = b.drop_last();
        lemma_be_value_bound(p);
        assert(pow(256, b.len()) == 256 * pow(256, p.len()));
        assert(be_value(p) * 256 + (b.last() as nat) < 256 * pow(256, p.len())) by (nonlinear_arith)
            requires
                be_value(p) < pow(256, p.len()),
                b.last() < 256,
        ;
    }
}

/// Proof that a number spelled by `b` is at least its leading byte times
/// `256^(|b| - 1)`.
pub proof fn lemma_be_value_lower(b: Seq<u8>)
    requires
        b.len() >= 1,
    ensures
        be_value(b) >= b[0] * pow(256, (b.len() - 1) as nat),
    decreases b.len(),
{
    reveal(pow);
    let p = b.drop_last();
    if b.len() == 1 {
        assert(be_value(p) == 0);
        assert(pow(256, 0) == 1);
    } else {
        lemma_be_value_lower(p);
        assert(p[0] == b[0]);
        let e = (p.len() - 1) as nat;
        assert(pow(256, (b.len() - 1) as nat) == 256 * pow(256, e));
        assert(be_value(p) * 256 + (b.last() as nat) >= b[0] * (256 * pow(256, e))) by (nonlinear_arith)
            requires
                be_value(p) >= p[0] * pow(256, e),
                p[0] == b[0],
        ;
    }
}

/// Proof that the parity of a number spelled in bytes is that of its last byte.
pub proof fn lemma_be_value_parity(b: Seq<u8>)
    requires
        b.len() >= 1,
    ensures
        be_value(b) % 2 == b.last() % 2,
{
    let v = be_value(b.drop_last());
    assert((v * 256 + b.last() as nat) % 2 == b.last() % 2) by (nonlinear_arith);
}

/// Proof that `256^16` is `2^128`, so sixteen bytes fit in a `u128`.
pub proof fn lemma_sixteen_bytes_fit(n: nat)
    requires
        n <= 16,
    ensures
        pow(256, n) <= u128::MAX + 1,
        pow(256, 16) == u128::MAX + 1,
{
    reveal_with_fuel(pow, 17);
    lemma_pow_increases(256, n, 16);
    assert(pow(256, 16) == 0x1_0000_0000_0000_0000_0000_0000_0000_0000);
}

/// Greatest common divisor, by Euclid's recursion.
pub open spec fn gcd_spec(a: nat, b: nat) -> nat
    decreases b,
{
    if b == 0 {
        a
    } else {
        gcd_spec(b, a % b)
    }
}

/// Relies on num_bigint's `BigUint` product and remainder: the product of two
/// `u128` values is formed at full width and then reduced, so the remainder
/// is below `m` and fits back into a `u128`.
#[verifier::external_body]
pub(crate) fn mul_mod(a: u128, b: u128, m: u128) -> (r: u128)
    requires
        m > 0,
    ensures
        r == (a as int * b as int) % (m as int),
{
    let r = (BigUint::from(a) * BigUint::from(b)) % BigUint::from(m);
    r.to_u128().unwrap_or(0)
}

proof fn lemma_square_step(r: int, b: int, e: nat, m: int)
    requires
        m > 0,
    ensures
        (((r * pow(b, e % 2)) % m) * pow((b * b) % m, e / 2)) % m == (r * pow(b, e)) % m,
{
    let h = e / 2;
    let t = e % 2;
    assert(e == 2 * h + t);
    lemma_pow_adds(b, 2 * h, t);
    lemma_pow_multiplies(b, 2, h);
    lemma_square_is_pow2(b);
    assert(pow(b, e) == pow(b * b, h) * pow(b, t));
    let a = r * pow(b, t);
    lemma_mul_mod_noop_left(a, pow((b * b) % m, h), m);
    lemma_mul_mod_noop_right(a, pow((b * b) % m, h), m);
    lemma_pow_mod_noop(b * b, h, m);
    lemma_mul_mod_noop_right(a, pow(b * b, h), m);
    assert(a * pow(b * b, h) == r * pow(b, e)) by (nonlinear_arith)
        requires
            a == r * pow(b, t),
            pow(b, e) == pow(b * b, h) * pow(b, t),
    ;
}

/// `base` raised to `exp`, reduced modulo `modulus`, by square-and-multiply.
pub fn mod_exp(base: u128, exp: u128, modulus: u128) -> (r: u128)
    requires
        modulus > 0,
    ensures
        r == pow(base as int, exp as nat) % (modulus as int),
        r < modulus,
{
    let ghost m = modulus as int;
    if modulus == 1 {
        proof {
            lemma_mod_self_0(1);
            lemma_small_mod(0, 1);
            lemma_mod_bound(pow(base as int, exp as nat), 1);
        }
        return 0;
    }
    let mut result: u128 = 1;
    let mut b: u128 = base % modulus;
    let mut e: u128 = exp;
    proof {
        lemma_pow_mod_noop(base as int, exp as nat, m);
    }
    while e > 0
        invariant
            modulus > 1,
            m == modulus as int,
            result < modulus,
            b < modulus,
            (result as int * pow(b as int, e as nat)) % m == pow(base as int, exp as nat) % m,
        decreases e,
    {
        proof {
            lemma_square_step(result as int, b as int, e as nat, m);
            lemma_pow1(b as int);
            lemma_pow0(b as int);
        }
        if e % 2 == 1 {
            result = mul_mod(result, b, modulus);
        } else {
            proof {
                lemma_small_mod(result as nat, modulus as nat);
            }
        }
        e = e / 2;
        b = mul_mod(b, b, modulus);
    }
    proof {
        lemma_pow0(b as int);
        lemma_small_mod(result as nat, modulus as nat);
    }
    result
}

/// Proof that the greatest common divisor divides both of its arguments and
/// is positive when either argument is.
pub proof fn lemma_gcd_divides(a: nat, b: nat)
    requires
        a > 0 || b > 0,
    ensures
        gcd_spec(a, b) > 0,
        a % gcd_spec(a, b) == 0,
        b % gcd_spec(a, b) == 0,
    decreases b,
{
    if b == 0 {
        lemma_mod_self_0(a as int);
        lemma_small_mod(0, a);
    } else {
        lemma_gcd_divides(b, a % b);
        let g = gcd_spec(a, b);
        lemma_fundamental_div_mod(b as int, g as int);
        lemma_fundamental_div_mod((a % b) as int, g as int);
        lemma_fundamental_div_mod(a as int, b as int);
        let k1 = b as int / g as int;
        let k2 = (a % b) as int / g as int;
        let q = a as int / b as int;
        assert(a as int == g * (q * k1 + k2)) by (nonlinear_arith)
            requires
                b as int == g * k1,
                (a % b) as int == g * k2,
                a as int == b * q + (a % b) as int,
        ;
        lemma_mod_multiples_basic(q * k1 + k2, g as int);
        assert((q * k1 + k2) * g == g * (q * k1 + k2)) by (nonlinear_arith);
    }
}

/// Greatest common divisor of `a` and `b`.
pub fn gcd(a: u128, b: u128) -> (r: u128)
    ensures
        r == gcd_spec(a as nat, b as nat),
    decreases b,
{
    if b == 0 {
        a
    } else {
        gcd(b, a % b)
    }
}

} // verus!
