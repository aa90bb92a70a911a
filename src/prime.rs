use crate::arith::{be_value, lemma_be_value_bound, lemma_be_value_lower, lemma_be_value_parity,
    lemma_sixteen_bytes_fit, mod_exp, uint_from_be};
use vstd::arithmetic::div_mod::*;
use vstd::arithmetic::power::*;
use vstd::prelude::*;

verus! {

/// Miller-Rabin rounds used when searching for a prime.
pub const PRIME_ROUNDS: usize = 20;

/// Attempts a random search makes before it gives up.
pub const MAX_ATTEMPTS: u64 = 1_000_000;

/// Number of whole bytes that hold `bits` bits.
pub open spec fn byte_count(bits: nat) -> nat {
    (bits + 7) / 8
}

/// Splits `m` into an odd part `d` and a power of two: `m == d * 2^s`,
/// returned as `(d, s)`; zero stays `(0, 0)`.
pub open spec fn split_twos(m: nat) -> (nat, nat)
    decreases m,
{
    if m > 0 && m % 2 == 0 {
        let (d, s) = split_twos(m / 2);
        (d, s + 1)
    } else {
        (m, 0)
    }
}

/// A Miller-Rabin round for `n` with base `a` finds no sign that `n` is
/// composite: with `n - 1 == d * 2^s`, either `a^d == 1 (mod n)` or
/// `a^(d * 2^j) == n - 1 (mod n)` for some `j < s`.
pub open spec fn round_passes(n: nat, a: nat) -> bool {
    let (d, s) = split_twos((n - 1) as nat);
    ||| pow(a as int, d) % (n as int) == 1
    ||| exists|j: nat| j < s && #[trigger] pow(a as int, d * pow(2, j) as nat) % (n as int) == n - 1
}

/// Relies on rand's `thread_rng` and `Rng::fill`: `len` bytes drawn from the
/// operating system's seeded generator; nothing is known of their values.
#[verifier::external_body]
fn random_bytes(len: usize) -> (r: Vec<u8>)
    ensures
        r@.len() == len,
{
    let mut v = vec![0u8; len];
    rand::Rng::fill(&mut rand::thread_rng(), &mut v[..]);
    v
}

/// Reads bytes as a big-endian number when they are at most sixteen.
fn short_be_value(b: &Vec<u8>) -> (r: u128)
    requires
        b@.len() <= 16,
    ensures
        r == be_value(b@),
{
    proof {
        lemma_be_value_bound(b@);
        lemma_sixteen_bytes_fit(b@.len());
    }
    match uint_from_be(b.as_slice()) {
        Some(v) => v,
        None => 0,
    }
}

/// The drawn bytes with the top bit of the first byte and the bottom bit of
/// the last byte set.
pub open spec fn marked_draw(d: Seq<u8>) -> Seq<u8> {
    let first = d.update(0, d[0] | 0x80u8);
    first.update(d.len() - 1, first[d.len() - 1] | 0x01u8)
}

/// Reads drawn bytes as an odd number of full width: the top bit of the
/// first byte and the bottom bit of the last are set, and the bytes are
/// read big-endian.
pub fn odd_from_draw(draw: &Vec<u8>) -> (r: u128)
    requires
        1 <= draw@.len() <= 16,
    ensures
        r == be_value(marked_draw(draw@)),
        r % 2 == 1,
        128 * pow(256, (draw@.len() - 1) as nat) <= r,
        r < pow(256, draw@.len()),
{
    let bytes = draw.len();
    let mut data = draw.clone();
    assert(data@ == draw@);
    let first = data[0];
    data.set(0, first | 0x80);
    let last = data[bytes - 1];
    data.set(bytes - 1, last | 0x01);
    assert(data@ =~= marked_draw(draw@));
    proof {
        let f = data@[0];
        let l = data@.last();
        if bytes > 1 {
            assert(f >= 128) by (bit_vector)
                requires
                    f == first | 0x80u8,
            ;
            assert(l % 2 == 1) by (bit_vector)
                requires
                    l == last | 0x01u8,
            ;
        } else {
            assert(f >= 128 && f % 2 == 1) by (bit_vector)
                requires
                    f == (first | 0x80u8) | 0x01u8,
            ;
        }
        lemma_be_value_lower(data@);
        lemma_be_value_parity(data@);
        lemma_be_value_bound(data@);
        lemma_pow_positive(256, (data@.len() - 1) as nat);
        assert(f * pow(256, (data@.len() - 1) as nat) >= 128 * pow(256, (data@.len() - 1) as nat))
            by (nonlinear_arith)
            requires
                f >= 128,
                pow(256, (data@.len() - 1) as nat) >= 0,
        ;
    }
    short_be_value(&data)
}

/// A random odd number whose big-endian bytes, `ceil(bits / 8)` of them,
/// start with a set top bit: `odd_from_draw` on fresh random bytes.
pub fn generate_random_odd(bits: usize) -> (r: u128)
    requires
        1 <= bits <= 128,
    ensures
        r % 2 == 1,
        128 * pow(256, (byte_count(bits as nat) - 1) as nat) <= r,
        r < pow(256, byte_count(bits as nat)),
{
    let bytes: usize = (bits + 7) / 8;
    let data = random_bytes(bytes);
    odd_from_draw(&data)
}

/// Number of bytes in the shortest big-endian form of `x` (none for zero).
fn byte_length(x: u128) -> (r: usize)
    ensures
        r <= 16,
        x < pow(256, r as nat),
{
    let mut t: u128 = x;
    let mut k: usize = 0;
    proof {
        reveal(pow);
    }
    proof {
        lemma_sixteen_bytes_fit(16);
    }
    while t > 0
        invariant
            pow(256, 16) == u128::MAX + 1,
            k <= 16,
            t as int * pow(256, k as nat) <= x as int,
            x as int - t as int * pow(256, k as nat) < pow(256, k as nat),
            t > 0 ==> k < 16,
        decreases t,
    {
        proof {
            reveal(pow);
            lemma_fundamental_div_mod(t as int, 256);
            let q = t as int / 256;
            let rm = t as int % 256;
            let p = pow(256, k as nat);
            assert(pow(256, (k + 1) as nat) == 256 * p);
            assert(q * (256 * p) <= x as int && x as int - q * (256 * p) < 256 * p)
                by (nonlinear_arith)
                requires
                    t as int == 256 * q + rm,
                    0 <= rm < 256,
                    t as int * p <= x as int,
                    x as int - t as int * p < p,
                    p > 0,
            ;
            if q > 0 && k + 1 >= 16 {
                lemma_sixteen_bytes_fit(16);
                assert(q * (256 * p) >= 256 * p) by (nonlinear_arith)
                    requires
                        q >= 1,
                        p > 0,
                ;
                lemma_pow_positive(256, k as nat);
                assert(pow(256, 16) <= 256 * p) by {
                    lemma_pow_increases(256, 16, (k + 1) as nat);
                }
            }
        }
        t = t / 256;
        k = k + 1;
    }
    k
}

/// One attempt of rejection sampling in `[min, max)`: the drawn bytes, read
/// big-endian, are kept when they fall below `max - min`.
pub fn range_from_draw(min: u128, max: u128, draw: &Vec<u8>) -> (r: Option<u128>)
    requires
        min < max,
        draw@.len() <= 16,
    ensures
        r == (if be_value(draw@) < (max - min) as nat {
            Some((min + be_value(draw@)) as u128)
        } else {
            None::<u128>
        }),
{
    let candidate = short_be_value(draw);
    if candidate < max - min {
        Some(min + candidate)
    } else {
        None
    }
}

/// A uniform draw from `[min, max)` by rejection sampling: each attempt reads
/// as many random bytes as `max - min` needs and goes through
/// `range_from_draw`. `None` after `MAX_ATTEMPTS` rejected attempts.
pub fn generate_random_range(min: u128, max: u128) -> (r: Option<u128>)
    requires
        min < max,
    ensures
        r matches Some(v) ==> min <= v < max,
{
    let bytes = byte_length(max - min);
    let mut attempts: u64 = 0;
    while attempts < MAX_ATTEMPTS
        invariant
            bytes <= 16,
            min < max,
        decreases MAX_ATTEMPTS - attempts,
    {
        let data = random_bytes(bytes);
        let drawn = range_from_draw(min, max, &data);
        if drawn.is_some() {
            return drawn;
        }
        attempts = attempts + 1;
    }
    None
}

/// `p` is odd and its big-endian form has `byte_count(bits)` bytes with the
/// top bit of the first one set.
pub open spec fn is_full_width_odd(bits: nat, p: nat) -> bool {
    &&& p % 2 == 1
    &&& 128 * pow(256, (byte_count(bits) - 1) as nat) <= p
    &&& p < pow(256, byte_count(bits))
}

/// Writes `m` as an odd part times a power of two.
fn split_odd(m: u128) -> (res: (u128, u128))
    requires
        m > 0,
    ensures
        res.0 as nat == split_twos(m as nat).0,
        res.1 as nat == split_twos(m as nat).1,
{
    let mut d: u128 = m;
    let mut s: u128 = 0;
    while d % 2 == 0
        invariant
            d > 0,
            s + d <= m,
            split_twos(d as nat).0 == split_twos(m as nat).0,
            split_twos(d as nat).1 + s == split_twos(m as nat).1,
        decreases d,
    {
        d = d / 2;
        s = s + 1;
    }
    (d, s)
}

proof fn lemma_square_power(a: int, d: nat, j: nat, n: int)
    requires
        n > 0,
        j >= 1,
    ensures
        pow(pow(a, d * pow(2, (j - 1) as nat) as nat) % n, 2) % n == pow(a, d * pow(2, j) as nat) % n,
{
    reveal(pow);
    lemma_pow_positive(2, (j - 1) as nat);
    let e = d * pow(2, (j - 1) as nat);
    assert(e >= 0) by (nonlinear_arith)
        requires
            pow(2, (j - 1) as nat) > 0,
            e == d * pow(2, (j - 1) as nat),
    ;
    lemma_pow_mod_noop(pow(a, e as nat), 2, n);
    lemma_pow_multiplies(a, e as nat, 2);
    assert(pow(2, j) == 2 * pow(2, (j - 1) as nat));
    assert(e * 2 == d * pow(2, j)) by (nonlinear_arith)
        requires
            e == d * pow(2, (j - 1) as nat),
            pow(2, j) == 2 * pow(2, (j - 1) as nat),
    ;
}

/// One Miller-Rabin round for odd `n > 3` with base `a`, where
/// `n - 1 == d * 2^s` with `d` odd: true when the round finds no sign that
/// `n` is composite.
pub fn miller_rabin_round(n: u128, d: u128, s: u128, a: u128) -> (r: bool)
    requires
        n > 3,
        n % 2 == 1,
        d as nat == split_twos((n - 1) as nat).0,
        s as nat == split_twos((n - 1) as nat).1,
    ensures
        r == round_passes(n as nat, a as nat),
{
    let ghost ni = n as int;
    let ghost ai = a as int;
    proof {
        reveal(pow);
        assert(split_twos((n - 1) as nat).1 >= 1);
        assert(pow(2, 0) == 1);
        assert(d * pow(2, 0) == d);
    }
    let mut x = mod_exp(a, d, n);
    if x == 1 {
        return true;
    }
    if x == n - 1 {
        proof {
            assert(pow(ai, d as nat * pow(2, 0) as nat) % ni == n - 1);
        }
        return true;
    }
    let mut j: u128 = 1;
    while j < s
        invariant
            n > 3,
            ni == n as int,
            ai == a as int,
            1 <= j <= s,
            d as nat == split_twos((n - 1) as nat).0,
            s as nat == split_twos((n - 1) as nat).1,
            x as int == pow(ai, d as nat * pow(2, (j - 1) as nat) as nat) % ni,
            pow(ai, d as nat) % ni != 1,
            forall|i: nat| i < j ==> #[trigger] pow(ai, d as nat * pow(2, i) as nat) % ni != n - 1,
        decreases s - j,
    {
        proof {
            lemma_square_power(ai, d as nat, j as nat, ni);
        }
        x = mod_exp(x, 2, n);
        if x == n - 1 {
            return true;
        }
        j = j + 1;
    }
    proof {
        assert forall|i: nat| !(i < s && #[trigger] pow(ai, d as nat * pow(2, i) as nat) % ni == n - 1) by {
            if i < s {
                assert(i < j);
            }
        }
    }
    false
}

/// The Miller-Rabin test with `k` random bases drawn from `[2, n - 2)`.
/// Every number up to 3 counts as prime, 0 and 1 included; other even
/// numbers do not. An odd number above 3 is rejected exactly when a drawn
/// base's round fails. Should a draw give up, base 2 is used for that round.
pub fn is_probably_prime(n: u128, k: usize) -> (r: bool)
    ensures
        n <= 3 ==> r,
        n > 3 && n % 2 == 0 ==> !r,
        n > 3 && n % 2 == 1 && !r ==> exists|a: nat|
            2 <= a < n - 2 && !#[trigger] round_passes(n as nat, a),
        n > 3 && n % 2 == 1 && k > 0 && (forall|a: nat|
            2 <= a < n - 2 ==> !#[trigger] round_passes(n as nat, a)) ==> !r,
        n > 3 && n % 2 == 1 && k == 0 ==> r,
{
    if n <= 3 {
        return true;
    }
    if n % 2 == 0 {
        return false;
    }
    let (d, s) = split_odd(n - 1);
    let ghost all_fail = forall|a: nat| 2 <= a < n - 2 ==> !#[trigger] round_passes(n as nat, a);
    let mut i: usize = 0;
    while i < k
        invariant
            n > 3,
            n % 2 == 1,
            d as nat == split_twos((n - 1) as nat).0,
            s as nat == split_twos((n - 1) as nat).1,
            all_fail == (forall|a: nat| 2 <= a < n - 2 ==> !#[trigger] round_passes(n as nat, a)),
            all_fail ==> i == 0,
        decreases k - i,
    {
        let a = match generate_random_range(2, n - 2) {
            Some(a) => a,
            None => 2,
        };
        if !miller_rabin_round(n, d, s, a) {
            return false;
        }
        proof {
            if all_fail {
                assert(!round_passes(n as nat, a as nat));
            }
        }
        i = i + 1;
    }
    true
}

/// A random number of `bits` bits (rounded up to whole bytes) that passes
/// `is_probably_prime` with `PRIME_ROUNDS` bases; `None` only after
/// `MAX_ATTEMPTS` candidates have all failed.
pub fn generate_prime(bits: usize) -> (r: Option<u128>)
    requires
        1 <= bits <= 128,
    ensures
        r matches Some(p) ==> is_full_width_odd(bits as nat, p as nat),
{
    let mut attempts: u64 = 0;
    while attempts < MAX_ATTEMPTS
        invariant
            1 <= bits <= 128,
        decreases MAX_ATTEMPTS - attempts,
    {
        let candidate = generate_random_odd(bits);
        if is_probably_prime(candidate, PRIME_ROUNDS) {
            return Some(candidate);
        }
        attempts = attempts + 1;
    }
    None
}

/// A number drawn by `generate_prime` for a bit length that is a whole
/// number of bytes has exactly that many bits.
pub proof fn lemma_prime_bit_length(bits: nat, p: nat)
    requires
        8 <= bits <= 128,
        bits % 8 == 0,
        is_full_width_odd(bits, p),
    ensures
        pow(2, (bits - 1) as nat) <= p < pow(2, bits),
{
    let m = bits / 8;
    assert(byte_count(bits) == m);
    reveal_with_fuel(pow, 9);
    assert(pow(2, 8) == 256);
    assert(pow(2, 7) == 128);
    lemma_pow_multiplies(2, 8, m);
    lemma_pow_multiplies(2, 8, (m - 1) as nat);
    assert(8 * m == bits);
    lemma_pow_adds(2, 7, (8 * (m - 1)) as nat);
    assert(7 + 8 * (m - 1) == bits - 1);
}

} // verus!
