use aes_gcm::aead::{Aead, AeadCore, KeyInit, OsRng};
use aes_gcm::{Aes256Gcm, Key, Nonce};
use crate::arith::{be_bytes, uint_to_be};
use crate::error::ProtocolError;
use sha2::{Digest, Sha256 as Sha256Hasher};
use vstd::prelude::*;
use vstd::string::StringSliceAdditionalSpecFns;
use vstd::utf8::{decode_utf8, encode_utf8, encode_utf8_decode_utf8, encode_utf8_valid_utf8, valid_utf8};

verus! {

/// Bytes at the front of a sealed blob that hold the nonce.
pub const NONCE_LEN: usize = 12;

/// Longest plaintext, in bytes, that AES-256-GCM seals.
pub const MAX_PLAINTEXT_LEN: u64 = 0x10_0000_0000;

/// Bytes of the authentication tag at the end of a sealed message.
pub const TAG_LEN: usize = 16;

/// The SHA-256 digest of `data`.
pub uninterp spec fn sha256_of(data: Seq<u8>) -> Seq<u8>;

/// What AES-256-GCM decryption of `sealed` under `key` and `nonce` yields:
/// the plaintext, or nothing when authentication fails.
pub uninterp spec fn aead_open(key: Seq<u8>, nonce: Seq<u8>, sealed: Seq<u8>) -> Option<Seq<u8>>;

/// What AES-256-GCM encryption of `plaintext` under `key` and `nonce`
/// yields: the ciphertext followed by the tag.
pub uninterp spec fn aead_sealed(key: Seq<u8>, nonce: Seq<u8>, plaintext: Seq<u8>) -> Seq<u8>;

/// The lowercase hex digit of `v < 16`.
pub open spec fn hex_digit(v: nat) -> char {
    if v == 0 { '0' } else if v == 1 { '1' } else if v == 2 { '2' } else if v == 3 { '3' }
    else if v == 4 { '4' } else if v == 5 { '5' } else if v == 6 { '6' } else if v == 7 { '7' }
    else if v == 8 { '8' } else if v == 9 { '9' } else if v == 10 { 'a' } else if v == 11 { 'b' }
    else if v == 12 { 'c' } else if v == 13 { 'd' } else if v == 14 { 'e' } else { 'f' }
}

/// The value of a hex digit of either case.
pub open spec fn hex_value(c: char) -> Option<nat> {
    let u = c as u32;
    if 48 <= u <= 57 {
        Some((u - 48) as nat)
    } else if 97 <= u <= 102 {
        Some((u - 87) as nat)
    } else if 65 <= u <= 70 {
        Some((u - 55) as nat)
    } else {
        None
    }
}

/// Two lowercase hex digits per byte, high nibble first.
pub open spec fn hex_of(b: Seq<u8>) -> Seq<char> {
    Seq::new(
        2 * b.len(),
        |i: int|
            if i % 2 == 0 {
                hex_digit((b[i / 2] / 16) as nat)
            } else {
                hex_digit((b[i / 2] % 16) as nat)
            },
    )
}

/// The bytes that hex text spells, or nothing when its length is odd or a
/// character is not a hex digit.
pub open spec fn hex_decoded(s: Seq<char>) -> Option<Seq<u8>> {
    if s.len() % 2 == 0 && forall|i: int| 0 <= i < s.len() ==> #[trigger] hex_value(s[i]) is Some {
        Some(
            Seq::new(
                s.len() / 2,
                |i: int| (hex_value(s[2 * i])->0 * 16 + hex_value(s[2 * i + 1])->0) as u8,
            ),
        )
    } else {
        None
    }
}

/// The symmetric key derived from a prime factor: the SHA-256 digest of its
/// shortest big-endian bytes.
pub open spec fn key_of(factor: nat) -> Seq<u8> {
    sha256_of(be_bytes(factor))
}

/// The bytes sealed in a hex blob under the key of `factor`: the first
/// `NONCE_LEN` bytes are the nonce, the rest the sealed message.
pub open spec fn opened(blob: Seq<char>, factor: nat) -> Option<Seq<u8>> {
    match hex_decoded(blob) {
        Some(b) => if b.len() >= NONCE_LEN {
            aead_open(key_of(factor), b.take(NONCE_LEN as int), b.skip(NONCE_LEN as int))
        } else {
            None
        },
        None => None,
    }
}

/// The blob that sealing `text` under the key of `factor` with `nonce`
/// gives: hex of the nonce followed by the sealed bytes.
pub open spec fn sealed_blob(factor: nat, nonce: Seq<u8>, text: Seq<char>) -> Seq<char> {
    hex_of(nonce + aead_sealed(key_of(factor), nonce, encode_utf8(text)))
}

/// `text` is short enough for the cipher to seal.
pub open spec fn fits_cipher(text: Seq<char>) -> bool {
    encode_utf8(text).len() <= MAX_PLAINTEXT_LEN
}

/// The text sealed in a hex blob under the key of `factor`, when it opens
/// and holds UTF-8.
pub open spec fn decryption(blob: Seq<char>, factor: nat) -> Option<Seq<char>> {
    match opened(blob, factor) {
        Some(b) => if valid_utf8(b) {
            Some(decode_utf8(b))
        } else {
            None
        },
        None => None,
    }
}

/// Relies on hex's `encode`: two lowercase digits per byte.
#[verifier::external_body]
pub(crate) fn hex_text(b: &[u8]) -> (r: String)
    ensures
        r@ == hex_of(b@),
{
    hex::encode(b)
}

/// Relies on hex's `decode`: digits of either case in pairs, and an error
/// on odd length or any other character.
#[verifier::external_body]
pub(crate) fn hex_decode(s: &str) -> (r: Option<Vec<u8>>)
    ensures
        match r {
            Some(b) => hex_decoded(s@) == Some(b@),
            None => hex_decoded(s@) is None,
        },
{
    hex::decode(s).ok()
}

/// Relies on sha2's `Sha256::digest`: a 32-byte digest of the bytes.
#[verifier::external_body]
pub(crate) fn sha256(data: &[u8]) -> (r: Vec<u8>)
    ensures
        r@ == sha256_of(data@),
        r@.len() == 32,
{
    Sha256Hasher::digest(data).to_vec()
}

/// Relies on aes_gcm's `AeadCore::generate_nonce` with `OsRng`: a fresh
/// random 12-byte nonce.
#[verifier::external_body]
fn fresh_nonce() -> (r: Vec<u8>)
    ensures
        r@.len() == NONCE_LEN,
{
    Aes256Gcm::generate_nonce(&mut OsRng).to_vec()
}

/// Relies on aes_gcm's `Aead::encrypt`: ciphertext and a 16-byte tag, which
/// `Aead::decrypt` under the same key and nonce opens to the plaintext; it
/// fails only on plaintexts over 2^36 bytes.
#[verifier::external_body]
fn aead_seal(key: &[u8], nonce: &[u8], plaintext: &[u8]) -> (r: Option<Vec<u8>>)
    requires
        key@.len() == 32,
        nonce@.len() == NONCE_LEN,
    ensures
        plaintext@.len() <= MAX_PLAINTEXT_LEN ==> r is Some,
        r matches Some(sealed) ==> sealed@ == aead_sealed(key@, nonce@, plaintext@),
        r matches Some(sealed) ==> sealed@.len() == plaintext@.len() + TAG_LEN,
        r matches Some(sealed) ==> aead_open(key@, nonce@, sealed@) == Some(plaintext@),
{
    let cipher = Aes256Gcm::new(Key::<Aes256Gcm>::from_slice(key));
    cipher.encrypt(Nonce::from_slice(nonce), plaintext).ok()
}

/// Relies on aes_gcm's `Aead::decrypt`: the plaintext when the sealed
/// message authenticates under the key and nonce; a message shorter than
/// the tag fails.
#[verifier::external_body]
fn aead_unseal(key: &[u8], nonce: &[u8], sealed: &[u8]) -> (r: Option<Vec<u8>>)
    requires
        key@.len() == 32,
        nonce@.len() == NONCE_LEN,
    ensures
        match r {
            Some(p) => aead_open(key@, nonce@, sealed@) == Some(p@),
            None => aead_open(key@, nonce@, sealed@) is None,
        },
        sealed@.len() < TAG_LEN ==> r is None,
{
    let cipher = Aes256Gcm::new(Key::<Aes256Gcm>::from_slice(key));
    cipher.decrypt(Nonce::from_slice(nonce), sealed).ok()
}

/// Relies on std's `String::from_utf8`: the text when the bytes are UTF-8.
#[verifier::external_body]
pub(crate) fn utf8_text(b: Vec<u8>) -> (r: Option<String>)
    ensures
        match r {
            Some(s) => valid_utf8(b@) && s@ == decode_utf8(b@),
            None => !valid_utf8(b@),
        },
{
    String::from_utf8(b).ok()
}

/// Proof that hex text of some bytes decodes back to them.
pub proof fn lemma_hex_round_trip(b: Seq<u8>)
    ensures
        hex_decoded(hex_of(b)) == Some(b),
{
    let h = hex_of(b);
    assert forall|i: int| 0 <= i < h.len() implies #[trigger] hex_value(h[i]) is Some by {
        let v = if i % 2 == 0 { b[i / 2] / 16 } else { b[i / 2] % 16 };
        assert(hex_value(hex_digit(v as nat)) == Some(v as nat));
    }
    let d = hex_decoded(h)->0;
    assert forall|i: int| 0 <= i < b.len() implies d[i] == b[i] by {
        assert(hex_value(hex_digit((b[i] / 16) as nat)) == Some((b[i] / 16) as nat));
        assert(hex_value(hex_digit((b[i] % 16) as nat)) == Some((b[i] % 16) as nat));
        assert(h[2 * i] == hex_digit((b[i] / 16) as nat));
        assert(h[2 * i + 1] == hex_digit((b[i] % 16) as nat));
    }
    assert(d =~= b);
}

/// Blobs sealed with different nonces differ, whatever the keys and texts:
/// each blob starts with the hex of its nonce.
pub proof fn lemma_distinct_nonces_distinct_blobs(
    f1: nat,
    n1: Seq<u8>,
    t1: Seq<char>,
    f2: nat,
    n2: Seq<u8>,
    t2: Seq<char>,
)
    requires
        n1.len() == NONCE_LEN,
        n2.len() == NONCE_LEN,
        n1 != n2,
    ensures
        sealed_blob(f1, n1, t1) != sealed_blob(f2, n2, t2),
{
    let b1 = n1 + aead_sealed(key_of(f1), n1, encode_utf8(t1));
    let b2 = n2 + aead_sealed(key_of(f2), n2, encode_utf8(t2));
    lemma_hex_round_trip(b1);
    lemma_hex_round_trip(b2);
    assert(b1.take(NONCE_LEN as int) =~= n1);
    assert(b2.take(NONCE_LEN as int) =~= n2);
}

/// The 256-bit key derived from a prime factor.
pub fn bigint_to_aes_key(factor: u128) -> (r: Vec<u8>)
    ensures
        r@ == key_of(factor as nat),
        r@.len() == 32,
{
    let bytes = uint_to_be(factor);
    sha256(bytes.as_slice())
}

/// Sealing then opening under the same key gives back the plaintext: a
/// blob whose sealed bytes are the UTF-8 form of `text` decrypts to `text`.
pub proof fn lemma_encrypt_decrypt_round_trip(blob: Seq<char>, factor: nat, text: Seq<char>)
    requires
        opened(blob, factor) == Some(encode_utf8(text)),
    ensures
        decryption(blob, factor) == Some(text),
{
    encode_utf8_valid_utf8(text);
    encode_utf8_decode_utf8(text);
}

/// Seals `location` under the key of `factor` with the given nonce and
/// returns nonce and sealed message together as hex.
pub fn encrypt_with_nonce(location: &str, factor: u128, nonce: &Vec<u8>) -> (r: String)
    requires
        nonce@.len() == NONCE_LEN,
        fits_cipher(location@),
    ensures
        r@ == sealed_blob(factor as nat, nonce@, location@),
        r@.len() == 2 * (NONCE_LEN + encode_utf8(location@).len() + TAG_LEN),
        decryption(r@, factor as nat) == Some(location@),
{
    let key = bigint_to_aes_key(factor);
    let plaintext = location.as_bytes();
    let sealed = aead_seal(key.as_slice(), nonce.as_slice(), plaintext).unwrap();
    let mut blob = nonce.clone();
    let mut i: usize = 0;
    while i < sealed.len()
        invariant
            i <= sealed@.len(),
            blob@.len() == NONCE_LEN + i,
            blob@.take(NONCE_LEN as int) == nonce@,
            blob@.skip(NONCE_LEN as int) == sealed@.take(i as int),
        decreases sealed@.len() - i,
    {
        blob.push(sealed[i]);
        i = i + 1;
        assert(blob@.take(NONCE_LEN as int) =~= nonce@);
        assert(blob@.skip(NONCE_LEN as int) =~= sealed@.take(i as int));
    }
    assert(sealed@.take(sealed@.len() as int) =~= sealed@);
    assert(blob@ =~= nonce@ + sealed@);
    let text = hex_text(blob.as_slice());
    proof {
        lemma_hex_round_trip(blob@);
        lemma_encrypt_decrypt_round_trip(text@, factor as nat, location@);
    }
    text
}

/// Seals `location` under the key of `factor` with a fresh random nonce
/// (see `encrypt_with_nonce`).
pub fn encrypt_location(location: &str, factor: u128) -> (r: String)
    requires
        fits_cipher(location@),
    ensures
        exists|nonce: Seq<u8>|
            nonce.len() == NONCE_LEN && r@ == #[trigger] sealed_blob(factor as nat, nonce, location@),
        r@.len() == 2 * (NONCE_LEN + encode_utf8(location@).len() + TAG_LEN),
        decryption(r@, factor as nat) == Some(location@),
{
    let nonce = fresh_nonce();
    encrypt_with_nonce(location, factor, &nonce)
}

/// Opens a hex blob under the key of `factor`. Every failure, be it bad hex,
/// a blob shorter than the nonce, a failed authentication or bytes that are
/// not UTF-8, is `DecryptionFailed`.
pub fn decrypt_location(blob: &str, factor: u128) -> (r: Result<String, ProtocolError>)
    ensures
        match r {
            Ok(s) => decryption(blob@, factor as nat) == Some(s@),
            Err(e) => e == ProtocolError::DecryptionFailed && decryption(blob@, factor as nat) is None,
        },
        hex_decoded(blob@) matches Some(b) && b.len() < NONCE_LEN + TAG_LEN ==> r is Err,
{
    let data = match hex_decode(blob) {
        Some(d) => d,
        None => return Err(ProtocolError::DecryptionFailed),
    };
    if data.len() < NONCE_LEN {
        return Err(ProtocolError::DecryptionFailed);
    }
    let (nonce, sealed) = data.as_slice().split_at(NONCE_LEN);
    let key = bigint_to_aes_key(factor);
    match aead_unseal(key.as_slice(), nonce, sealed) {
        Some(plain) => match utf8_text(plain) {
            Some(s) => Ok(s),
            None => Err(ProtocolError::DecryptionFailed),
        },
        None => Err(ProtocolError::DecryptionFailed),
    }
}

} // verus!
