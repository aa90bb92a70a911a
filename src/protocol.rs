use crate::arith::{be_bytes, be_value, uint_from_be, uint_to_be};
use crate::cipher::{decrypt_location, decryption, encrypt_location, fits_cipher, hex_decode,
    hex_decoded, hex_of, sealed_blob, sha256, sha256_of, NONCE_LEN};
use crate::error::ProtocolError;
use crate::factor::{factor_semiprime, factorization};
use crate::prime::{generate_prime, is_full_width_odd};
use vstd::arithmetic::power::*;
use vstd::prelude::*;
use vstd::string::StringSliceAdditionalSpecFns;
use vstd::utf8::encode_utf8;

verus! {

/// Bit length of each prime of a semiprime: more bits make a harder puzzle.
pub const PRIME_BITS: usize = 48;

/// The public artifact: one hex semiprime per candidate secret, in the order
/// of the candidate list, and an identifier that pairs responses with it.
#[derive(Debug, Clone, PartialEq, Eq)]
pub struct Challenge {
    pub semiprimes: Vec<String>,
    pub id: String,
}

/// The proof artifact: the claimed secret sealed as hex under a key derived
/// from a factor, and the identifier of the challenge it answers.
#[derive(Debug, Clone, PartialEq, Eq)]
pub struct Response {
    pub encrypted_location: String,
    pub challenge_id: String,
}

/// The characters of each string.
pub open spec fn texts(v: Seq<String>) -> Seq<Seq<char>> {
    v.map_values(|s: String| s@)
}

/// Byte-wise lexicographic order.
pub open spec fn bytes_less(a: Seq<u8>, b: Seq<u8>) -> bool
    decreases a.len(),
{
    if a.len() == 0 {
        b.len() > 0
    } else if b.len() == 0 {
        false
    } else if a[0] != b[0] {
        a[0] < b[0]
    } else {
        bytes_less(a.drop_first(), b.drop_first())
    }
}

/// The order of strings: that of their UTF-8 bytes.
pub open spec fn text_less(a: Seq<char>, b: Seq<char>) -> bool {
    bytes_less(encode_utf8(a), encode_utf8(b))
}

/// How many entries of `list` sort before `s`: the position of `s` in a
/// sorted copy of `list`.
pub open spec fn rank(list: Seq<Seq<char>>, s: Seq<char>) -> nat
    decreases list.len(),
{
    if list.len() == 0 {
        0
    } else {
        rank(list.drop_last(), s) + if text_less(list.last(), s) {
            1nat
        } else {
            0nat
        }
    }
}

/// The semiprime assigned to `secret`: the one at its sorted position in
/// the candidate list, modulo the number of semiprimes.
pub open spec fn selection(semiprimes: Seq<Seq<char>>, candidates: Seq<Seq<char>>, secret: Seq<char>) -> Result<
    u128,
    ProtocolError,
> {
    if !candidates.contains(secret) {
        Err(ProtocolError::SecretNotFound)
    } else if semiprimes.len() == 0 {
        Err(ProtocolError::MalformedInput)
    } else {
        match hex_decoded(semiprimes[(rank(candidates, secret) % semiprimes.len()) as int]) {
            Some(b) => if be_value(b) <= u128::MAX {
                Ok(be_value(b) as u128)
            } else {
                Err(ProtocolError::MalformedInput)
            },
            None => Err(ProtocolError::MalformedInput),
        }
    }
}

/// The verdict on a sealed blob given the two factors: it is opened with the
/// smaller factor's key, else with the larger's, and must hold `secret`.
pub open spec fn verdict(blob: Seq<char>, p: nat, q: nat, secret: Seq<char>) -> bool {
    let lo = if p < q { p } else { q };
    let hi = if p < q { q } else { p };
    match decryption(blob, lo) {
        Some(s) => s == secret,
        None => match decryption(blob, hi) {
            Some(s) => s == secret,
            None => false,
        },
    }
}

/// ASCII decimal digits of `n`.
pub open spec fn decimal(n: nat) -> Seq<u8>
    decreases n,
{
    if n < 10 {
        seq![(48 + n) as u8]
    } else {
        decimal(n / 10).push((48 + n % 10) as u8)
    }
}

/// The identifier of a challenge: the hex SHA-256 digest of
/// `"<secret>:<timestamp>"`.
pub open spec fn challenge_id_of(secret: Seq<char>, timestamp: nat) -> Seq<char> {
    hex_of(sha256_of(encode_utf8(secret) + seq![58u8] + decimal(timestamp)))
}

/// `h` is hex of the product of two odd numbers of full width for `bits`
/// (primality is left to the random test that drew them).
pub open spec fn is_odd_product_hex(h: Seq<char>, bits: nat) -> bool {
    exists|p: nat, q: nat|
        is_full_width_odd(bits, p) && is_full_width_odd(bits, q) && h == #[trigger] hex_of(
            be_bytes(p * q),
        )
}

/// Whether `a` sorts before `b`, comparing their UTF-8 bytes.
fn string_less(a: &String, b: &String) -> (r: bool)
    ensures
        r == text_less(a@, b@),
{
    let x = a.as_str().as_bytes();
    let y = b.as_str().as_bytes();
    let mut i: usize = 0;
    assert(x@.skip(0) =~= x@);
    assert(y@.skip(0) =~= y@);
    while i < x.len() && i < y.len()
        invariant
            i <= x@.len(),
            i <= y@.len(),
            x@ == encode_utf8(a@),
            y@ == encode_utf8(b@),
            bytes_less(x@, y@) == bytes_less(x@.skip(i as int), y@.skip(i as int)),
        decreases x@.len() - i,
    {
        if x[i] != y[i] {
            return x[i] < y[i];
        }
        proof {
            assert(x@.skip(i as int).drop_first() =~= x@.skip(i as int + 1));
            assert(y@.skip(i as int).drop_first() =~= y@.skip(i as int + 1));
        }
        i = i + 1;
    }
    i == x.len() && i < y.len()
}

/// Whether `list` holds `s`.
pub fn contains_text(list: &Vec<String>, s: &String) -> (r: bool)
    ensures
        r == texts(list@).contains(s@),
{
    let mut i: usize = 0;
    while i < list.len()
        invariant
            i <= list@.len(),
            forall|j: int| 0 <= j < i ==> list@[j]@ != s@,
        decreases list@.len() - i,
    {
        if list[i] == *s {
            assert(texts(list@)[i as int] == s@);
            return true;
        }
        i = i + 1;
    }
    proof {
        if texts(list@).contains(s@) {
            let j = choose|j: int| 0 <= j < texts(list@).len() && texts(list@)[j] == s@;
            assert(list@[j]@ == s@);
        }
    }
    false
}

/// Position of `s` in a sorted copy of `list`: the number of entries that
/// sort before it.
pub fn sorted_position(list: &Vec<String>, s: &String) -> (r: usize)
    ensures
        r == rank(texts(list@), s@),
{
    let mut count: usize = 0;
    let mut i: usize = 0;
    while i < list.len()
        invariant
            i <= list@.len(),
            count <= i,
            count == rank(texts(list@.take(i as int)), s@),
        decreases list@.len() - i,
    {
        assert(texts(list@.take(i as int + 1)).drop_last() =~= texts(list@.take(i as int)));
        if string_less(&list[i], s) {
            count = count + 1;
        }
        i = i + 1;
    }
    assert(list@.take(i as int) =~= list@);
    count
}

/// Picks the semiprime for `secret`: its position in the sorted candidate
/// list, modulo the number of semiprimes, indexes `semiprimes`, and that
/// entry is read as hex of a big-endian number.
pub fn select_semiprime_for_location(
    semiprimes: &Vec<String>,
    candidates: &Vec<String>,
    secret: &String,
) -> (r: Result<u128, ProtocolError>)
    ensures
        r == selection(texts(semiprimes@), texts(candidates@), secret@),
{
    if !contains_text(candidates, secret) {
        return Err(ProtocolError::SecretNotFound);
    }
    if semiprimes.len() == 0 {
        return Err(ProtocolError::MalformedInput);
    }
    let index = sorted_position(candidates, secret) % semiprimes.len();
    assert(texts(semiprimes@)[index as int] == semiprimes@[index as int]@);
    match hex_decode(semiprimes[index].as_str()) {
        Some(bytes) => match uint_from_be(bytes.as_slice()) {
            Some(n) => Ok(n),
            None => Err(ProtocolError::MalformedInput),
        },
        None => Err(ProtocolError::MalformedInput),
    }
}

/// ASCII decimal digits of `n`.
fn decimal_bytes(n: u64) -> (r: Vec<u8>)
    ensures
        r@ == decimal(n as nat),
    decreases n,
{
    if n < 10 {
        let mut v: Vec<u8> = Vec::new();
        v.push(48 + n as u8);
        assert(v@ =~= decimal(n as nat));
        v
    } else {
        let mut v = decimal_bytes(n / 10);
        v.push(48 + (n % 10) as u8);
        v
    }
}

/// Appends `extra` to `out`.
fn append_bytes(out: &mut Vec<u8>, extra: &[u8])
    ensures
        final(out)@ == old(out)@ + extra@,
{
    let mut i: usize = 0;
    while i < extra.len()
        invariant
            i <= extra@.len(),
            out@ == old(out)@ + extra@.take(i as int),
        decreases extra@.len() - i,
    {
        out.push(extra[i]);
        i = i + 1;
        assert(out@ =~= old(out)@ + extra@.take(i as int));
    }
    assert(extra@.take(i as int) =~= extra@);
}

/// The identifier of a challenge for `secret` made at `timestamp` (seconds
/// since the Unix epoch).
pub fn challenge_id(secret: &str, timestamp: u64) -> (r: String)
    ensures
        r@ == challenge_id_of(secret@, timestamp as nat),
{
    let mut input: Vec<u8> = Vec::new();
    append_bytes(&mut input, secret.as_bytes());
    input.push(58u8);
    let digits = decimal_bytes(timestamp);
    append_bytes(&mut input, digits.as_slice());
    assert(input@ =~= encode_utf8(secret@) + seq![58u8] + decimal(timestamp as nat));
    let digest = sha256(input.as_slice());
    crate::cipher::hex_text(digest.as_slice())
}

/// Hex of the product of two fresh primes of `bits` bits.
fn generate_semiprime(bits: usize) -> (r: Result<String, ProtocolError>)
    requires
        8 <= bits <= 64,
    ensures
        r matches Ok(h) ==> is_odd_product_hex(h@, bits as nat),
        r matches Err(e) ==> e == ProtocolError::RetriesExhausted,
{
    let p = match generate_prime(bits) {
        Some(p) => p,
        None => return Err(ProtocolError::RetriesExhausted),
    };
    let q = match generate_prime(bits) {
        Some(q) => q,
        None => return Err(ProtocolError::RetriesExhausted),
    };
    proof {
        let nb = ((bits + 7) / 8) as nat;
        lemma_pow_increases(256, nb, 8);
        reveal_with_fuel(pow, 9);
        assert(pow(256, 8) == 0x1_0000_0000_0000_0000);
        assert(p as int * q as int <= u128::MAX) by (nonlinear_arith)
            requires
                p < 0x1_0000_0000_0000_0000,
                q < 0x1_0000_0000_0000_0000,
        ;
    }
    let n = p * q;
    let bytes = uint_to_be(n);
    let h = crate::cipher::hex_text(bytes.as_slice());
    proof {
        assert(is_full_width_odd(bits as nat, p as nat) && is_full_width_odd(bits as nat, q as nat)
            && h@ == hex_of(be_bytes(p as nat * q as nat)));
    }
    Ok(h)
}

/// Builds a challenge for `secret` with primes of `bits` bits: one semiprime
/// per candidate, in the order of the candidate list, and the identifier of
/// `secret` at `timestamp`.
pub fn generate_challenge_with_bits(
    candidates: &Vec<String>,
    secret: &str,
    timestamp: u64,
    bits: usize,
) -> (r: Result<Challenge, ProtocolError>)
    requires
        8 <= bits <= 64,
    ensures
        !texts(candidates@).contains(secret@) <==> r == Err::<Challenge, ProtocolError>(
            ProtocolError::SecretNotFound,
        ),
        r matches Err(e) ==> e == ProtocolError::SecretNotFound || e == ProtocolError::RetriesExhausted,
        r matches Ok(c) ==> {
            &&& c.semiprimes@.len() == candidates@.len()
            &&& forall|i: int|
                0 <= i < c.semiprimes@.len() ==> is_odd_product_hex(#[trigger] c.semiprimes@[i]@, bits as nat)
            &&& c.id@ == challenge_id_of(secret@, timestamp as nat)
        },
{
    let wanted = secret.to_owned();
    if !contains_text(candidates, &wanted) {
        return Err(ProtocolError::SecretNotFound);
    }
    let mut semiprimes: Vec<String> = Vec::new();
    let mut i: usize = 0;
    while i < candidates.len()
        invariant
            8 <= bits <= 64,
            texts(candidates@).contains(secret@),
            i <= candidates@.len(),
            semiprimes@.len() == i,
            forall|j: int| 0 <= j < i ==> is_odd_product_hex(#[trigger] semiprimes@[j]@, bits as nat),
        decreases candidates@.len() - i,
    {
        let h = match generate_semiprime(bits) {
            Ok(h) => h,
            Err(e) => return Err(e),
        };
        semiprimes.push(h);
        i = i + 1;
    }
    Ok(Challenge { semiprimes, id: challenge_id(secret, timestamp) })
}

/// Builds a challenge for `secret` with primes of `PRIME_BITS` bits.
pub fn generate_challenge(candidates: &Vec<String>, secret: &str, timestamp: u64) -> (r: Result<
    Challenge,
    ProtocolError,
>)
    ensures
        !texts(candidates@).contains(secret@) <==> r == Err::<Challenge, ProtocolError>(
            ProtocolError::SecretNotFound,
        ),
        r matches Err(e) ==> e == ProtocolError::SecretNotFound || e == ProtocolError::RetriesExhausted,
        r matches Ok(c) ==> {
            &&& c.semiprimes@.len() == candidates@.len()
            &&& forall|i: int|
                0 <= i < c.semiprimes@.len() ==> is_odd_product_hex(#[trigger] c.semiprimes@[i]@, PRIME_BITS as nat)
            &&& c.id@ == challenge_id_of(secret@, timestamp as nat)
        },
{
    generate_challenge_with_bits(candidates, secret, timestamp, PRIME_BITS)
}

/// The smaller of two numbers.
pub open spec fn smaller(p: nat, q: nat) -> nat {
    if p < q {
        p
    } else {
        q
    }
}

/// A brute-force search accepts `candidate` when either factor's key opens
/// the blob to it.
pub open spec fn opens_to(blob: Seq<char>, p: nat, q: nat, candidate: Seq<char>) -> bool {
    decryption(blob, p) == Some(candidate) || decryption(blob, q) == Some(candidate)
}

/// The factor pair that the semiprime selected for `secret` yields.
pub open spec fn selected_factors(
    semiprimes: Seq<Seq<char>>,
    candidates: Seq<Seq<char>>,
    secret: Seq<char>,
) -> Result<(u128, u128), ProtocolError> {
    match selection(semiprimes, candidates, secret) {
        Ok(n) => factorization(n as nat),
        Err(e) => Err(e),
    }
}

/// A brute-force search accepts `candidate`: its semiprime factors and one
/// of the two keys opens the blob to it.
pub open spec fn accepts_candidate(
    semiprimes: Seq<Seq<char>>,
    candidates: Seq<Seq<char>>,
    blob: Seq<char>,
    candidate: Seq<char>,
) -> bool {
    match selected_factors(semiprimes, candidates, candidate) {
        Ok((p, q)) => opens_to(blob, p as nat, q as nat, candidate),
        Err(_) => false,
    }
}

/// Seals `secret` under the key of the smaller of the factors `p` and `q`,
/// and answers the challenge with it.
pub fn respond_with_factors(challenge: &Challenge, secret: &str, p: u128, q: u128) -> (r: Response)
    requires
        fits_cipher(secret@),
    ensures
        r.challenge_id@ == challenge.id@,
        decryption(r.encrypted_location@, smaller(p as nat, q as nat)) == Some(secret@),
        exists|nonce: Seq<u8>|
            nonce.len() == NONCE_LEN && r.encrypted_location@ == #[trigger] sealed_blob(
                smaller(p as nat, q as nat),
                nonce,
                secret@,
            ),
{
    let key = if p < q {
        p
    } else {
        q
    };
    Response { encrypted_location: encrypt_location(secret, key), challenge_id: challenge.id.clone() }
}

/// The responder's side: selects the semiprime for `secret`, factors it, and
/// seals `secret` under the key of the smaller factor. It answers whenever
/// selection and factoring succeed.
pub fn respond(challenge: &Challenge, candidates: &Vec<String>, secret: &str) -> (r: Result<
    Response,
    ProtocolError,
>)
    requires
        fits_cipher(secret@),
    ensures
        match selected_factors(texts(challenge.semiprimes@), texts(candidates@), secret@) {
            Err(e) => r == Err::<Response, ProtocolError>(e),
            Ok((p, q)) => match r {
                Ok(resp) => resp.challenge_id@ == challenge.id@ && decryption(
                    resp.encrypted_location@,
                    smaller(p as nat, q as nat),
                ) == Some(secret@),
                Err(_) => false,
            },
        },
{
    let wanted = secret.to_owned();
    let n = match select_semiprime_for_location(&challenge.semiprimes, candidates, &wanted) {
        Ok(n) => n,
        Err(e) => return Err(e),
    };
    let (p, q) = match factor_semiprime(n) {
        Ok(pq) => pq,
        Err(e) => return Err(e),
    };
    Ok(respond_with_factors(challenge, secret, p, q))
}

/// Judges a blob given the two factors of the semiprime: it is opened with
/// the smaller factor's key, else with the larger's, and the first text that
/// comes out must be `secret`.
pub fn check_factors(blob: &String, p: u128, q: u128, secret: &String) -> (r: bool)
    ensures
        r == verdict(blob@, p as nat, q as nat, secret@),
{
    let lo = if p < q {
        p
    } else {
        q
    };
    let hi = if p < q {
        q
    } else {
        p
    };
    match decrypt_location(blob.as_str(), lo) {
        Ok(text) => text == *secret,
        Err(_) => match decrypt_location(blob.as_str(), hi) {
            Ok(text) => text == *secret,
            Err(_) => false,
        },
    }
}

/// The verifier's side, knowing `secret`: the response must name the
/// challenge; then the semiprime selected for `secret` is factored and the
/// blob judged by `check_factors`. `Ok(false)` means the responder did not
/// show knowledge of `secret`.
pub fn verify_response(
    challenge: &Challenge,
    response: &Response,
    candidates: &Vec<String>,
    secret: &str,
) -> (r: Result<bool, ProtocolError>)
    ensures
        challenge.id@ != response.challenge_id@ ==> r == Err::<bool, ProtocolError>(
            ProtocolError::IdentifierMismatch,
        ),
        challenge.id@ == response.challenge_id@ ==> r == match selected_factors(
            texts(challenge.semiprimes@),
            texts(candidates@),
            secret@,
        ) {
            Ok((p, q)) => Ok::<bool, ProtocolError>(
                verdict(response.encrypted_location@, p as nat, q as nat, secret@),
            ),
            Err(e) => Err(e),
        },
{
    if challenge.id != response.challenge_id {
        return Err(ProtocolError::IdentifierMismatch);
    }
    let wanted = secret.to_owned();
    let n = match select_semiprime_for_location(&challenge.semiprimes, candidates, &wanted) {
        Ok(n) => n,
        Err(e) => return Err(e),
    };
    let (p, q) = match factor_semiprime(n) {
        Ok(pq) => pq,
        Err(e) => return Err(e),
    };
    Ok(check_factors(&response.encrypted_location, p, q, &wanted))
}

/// Whether either factor's key opens `blob` to `candidate`.
pub fn opens_to_candidate(blob: &String, p: u128, q: u128, candidate: &String) -> (r: bool)
    ensures
        r == opens_to(blob@, p as nat, q as nat, candidate@),
{
    match decrypt_location(blob.as_str(), p) {
        Ok(text) => {
            if text == *candidate {
                return true;
            }
        },
        Err(_) => {},
    }
    match decrypt_location(blob.as_str(), q) {
        Ok(text) => text == *candidate,
        Err(_) => false,
    }
}

/// One candidate of a brute-force search: selects its semiprime, factors it
/// and tries both keys. Any failure on the way rules the candidate out.
pub fn candidate_matches(
    challenge: &Challenge,
    response: &Response,
    candidates: &Vec<String>,
    candidate: &String,
) -> (r: bool)
    ensures
        r == accepts_candidate(
            texts(challenge.semiprimes@),
            texts(candidates@),
            response.encrypted_location@,
            candidate@,
        ),
{
    let n = match select_semiprime_for_location(&challenge.semiprimes, candidates, candidate) {
        Ok(n) => n,
        Err(_) => return false,
    };
    let (p, q) = match factor_semiprime(n) {
        Ok(pq) => pq,
        Err(_) => return false,
    };
    opens_to_candidate(&response.encrypted_location, p, q, candidate)
}

/// Searches every candidate, in list order, for the secret that a response
/// proves: the first candidate that `candidate_matches` accepts, or `None`.
pub fn brute_force(challenge: &Challenge, response: &Response, candidates: &Vec<String>) -> (r: Result<
    Option<String>,
    ProtocolError,
>)
    ensures
        challenge.id@ != response.challenge_id@ <==> r == Err::<Option<String>, ProtocolError>(
            ProtocolError::IdentifierMismatch,
        ),
        r matches Err(e) ==> e == ProtocolError::IdentifierMismatch,
        r matches Ok(Some(s)) ==> exists|i: int|
            0 <= i < candidates@.len() && candidates@[i]@ == s@ && #[trigger] accepts_candidate(
                texts(challenge.semiprimes@),
                texts(candidates@),
                response.encrypted_location@,
                candidates@[i]@,
            ) && forall|j: int|
                0 <= j < i ==> !#[trigger] accepts_candidate(
                    texts(challenge.semiprimes@),
                    texts(candidates@),
                    response.encrypted_location@,
                    candidates@[j]@,
                ),
        r matches Ok(None) ==> forall|i: int|
            0 <= i < candidates@.len() ==> !#[trigger] accepts_candidate(
                texts(challenge.semiprimes@),
                texts(candidates@),
                response.encrypted_location@,
                candidates@[i]@,
            ),
{
    if challenge.id != response.challenge_id {
        return Err(ProtocolError::IdentifierMismatch);
    }
    let mut i: usize = 0;
    while i < candidates.len()
        invariant
            i <= candidates@.len(),
            challenge.id@ == response.challenge_id@,
            forall|j: int|
                0 <= j < i ==> !#[trigger] accepts_candidate(
                    texts(challenge.semiprimes@),
                    texts(candidates@),
                    response.encrypted_location@,
                    candidates@[j]@,
                ),
        decreases candidates@.len() - i,
    {
        if candidate_matches(challenge, response, candidates, &candidates[i]) {
            let found = candidates[i].clone();
            return Ok(Some(found));
        }
        i = i + 1;
    }
    Ok(None)
}

/// A response that `respond` made for `secret` passes verification for
/// `secret`, and a brute-force search accepts `secret` for it.
pub proof fn lemma_honest_response_verifies(
    semiprimes: Seq<Seq<char>>,
    candidates: Seq<Seq<char>>,
    secret: Seq<char>,
    blob: Seq<char>,
)
    requires
        selected_factors(semiprimes, candidates, secret) matches Ok((p, q)) && decryption(
            blob,
            smaller(p as nat, q as nat),
        ) == Some(secret),
    ensures
        selected_factors(semiprimes, candidates, secret) matches Ok((p, q)) && verdict(
            blob,
            p as nat,
            q as nat,
            secret,
        ),
        accepts_candidate(semiprimes, candidates, blob, secret),
{
}

} // verus!
