use aes_gcm::aead::{Aead, KeyInit};
use spyfall::arith::{gcd, mod_exp};
use spyfall::cipher::{bigint_to_aes_key, decrypt_location, encrypt_location, encrypt_with_nonce};
use spyfall::factor::{factor_semiprime, pollard_rho};
use spyfall::prime::{
    generate_prime, generate_random_odd, generate_random_range, is_probably_prime, odd_from_draw,
    range_from_draw,
};
use spyfall::protocol::{
    brute_force, challenge_id, check_factors, generate_challenge, generate_challenge_with_bits,
    respond, respond_with_factors, select_semiprime_for_location, verify_response,
};
use spyfall::wire::{frame_base64, unframe_base64};
use spyfall::{Challenge, ProtocolError, Response};

fn three_secrets() -> Vec<String> {
    vec!["airplane".to_string(), "bank".to_string(), "beach".to_string()]
}

fn small_challenge(secret: &str) -> Challenge {
    generate_challenge_with_bits(&three_secrets(), secret, 1_700_000_000, 24).unwrap()
}

#[test]
fn test_basic_workflow() {
    let candidates = three_secrets();
    let challenge = small_challenge("airplane");
    let response = respond(&challenge, &candidates, "airplane").unwrap();
    assert_eq!(response.challenge_id, challenge.id);
    assert_eq!(verify_response(&challenge, &response, &candidates, "airplane"), Ok(true));
}

#[test]
fn honest_responder_is_verified() {
    let candidates = three_secrets();
    let challenge = small_challenge("airplane");
    assert_eq!(challenge.semiprimes.len(), 3);
    let response = respond(&challenge, &candidates, "airplane").unwrap();
    assert_eq!(verify_response(&challenge, &response, &candidates, "airplane"), Ok(true));
}

#[test]
fn responder_with_other_secret_fails_verification() {
    let candidates = three_secrets();
    let challenge = small_challenge("airplane");
    let n = select_semiprime_for_location(&challenge.semiprimes, &candidates, &"airplane".to_string())
        .unwrap();
    let (p, q) = factor_semiprime(n).unwrap();
    let response = respond_with_factors(&challenge, "bank", p, q);
    assert_eq!(verify_response(&challenge, &response, &candidates, "airplane"), Ok(false));
    assert!(!check_factors(&response.encrypted_location, p, q, &"airplane".to_string()));
    assert!(check_factors(&response.encrypted_location, p, q, &"bank".to_string()));
}

#[test]
fn mismatched_identifier_is_rejected() {
    let candidates = three_secrets();
    let challenge = small_challenge("airplane");
    let response = Response {
        encrypted_location: "00".to_string(),
        challenge_id: "another-challenge".to_string(),
    };
    assert_eq!(
        verify_response(&challenge, &response, &candidates, "airplane"),
        Err(ProtocolError::IdentifierMismatch)
    );
    assert_eq!(brute_force(&challenge, &response, &candidates), Err(ProtocolError::IdentifierMismatch));
}

#[test]
fn brute_force_finds_the_secret() {
    let candidates = three_secrets();
    let challenge = small_challenge("beach");
    let response = respond(&challenge, &candidates, "beach").unwrap();
    assert_eq!(brute_force(&challenge, &response, &candidates), Ok(Some("beach".to_string())));
}

#[test]
fn brute_force_without_match_gives_none() {
    let candidates = three_secrets();
    let challenge = small_challenge("beach");
    let response = Response {
        encrypted_location: "00112233445566778899aabbccddeeff".to_string(),
        challenge_id: challenge.id.clone(),
    };
    assert_eq!(brute_force(&challenge, &response, &candidates), Ok(None));
}

#[test]
fn malformed_text_is_rejected() {
    assert_eq!(unframe_base64("this is {not json"), Err(ProtocolError::MalformedInput));
    assert_eq!(unframe_base64("//79"), Err(ProtocolError::MalformedInput));
}

#[test]
fn framing_round_trips() {
    let json = r#"{"encrypted_location":"ab01","challenge_id":"xyz"}"#;
    let framed = frame_base64(json);
    assert_ne!(framed, json);
    assert_eq!(framed, "eyJlbmNyeXB0ZWRfbG9jYXRpb24iOiJhYjAxIiwiY2hhbGxlbmdlX2lkIjoieHl6In0=");
    assert_eq!(unframe_base64(&framed), Ok(json.to_string()));
}

#[test]
fn unknown_secret_is_not_found() {
    let candidates = three_secrets();
    assert_eq!(
        generate_challenge(&candidates, "casino", 1).map(|c| c.id),
        Err(ProtocolError::SecretNotFound)
    );
    let challenge = Challenge { semiprimes: vec!["0f".to_string()], id: "i".to_string() };
    assert_eq!(respond(&challenge, &candidates, "casino"), Err(ProtocolError::SecretNotFound));
}

#[test]
fn selection_uses_sorted_position() {
    let candidates = vec!["beach".to_string(), "bank".to_string(), "airplane".to_string()];
    let semiprimes = vec!["0f".to_string(), "11".to_string(), "13".to_string()];
    assert_eq!(select_semiprime_for_location(&semiprimes, &candidates, &"airplane".to_string()), Ok(15));
    assert_eq!(select_semiprime_for_location(&semiprimes, &candidates, &"bank".to_string()), Ok(17));
    assert_eq!(select_semiprime_for_location(&semiprimes, &candidates, &"beach".to_string()), Ok(19));
    let two = vec!["0f".to_string(), "0100".to_string()];
    assert_eq!(select_semiprime_for_location(&two, &candidates, &"beach".to_string()), Ok(15));
}

#[test]
fn selection_is_deterministic() {
    let candidates = three_secrets();
    let challenge = small_challenge("bank");
    let first = select_semiprime_for_location(&challenge.semiprimes, &candidates, &"bank".to_string());
    let second = select_semiprime_for_location(&challenge.semiprimes, &candidates, &"bank".to_string());
    assert!(first.is_ok());
    assert_eq!(first, second);
}

#[test]
fn selection_errors() {
    let candidates = three_secrets();
    let empty: Vec<String> = vec![];
    assert_eq!(
        select_semiprime_for_location(&empty, &candidates, &"bank".to_string()),
        Err(ProtocolError::MalformedInput)
    );
    let bad = vec!["zz".to_string(); 3];
    assert_eq!(
        select_semiprime_for_location(&bad, &candidates, &"bank".to_string()),
        Err(ProtocolError::MalformedInput)
    );
    let huge = vec!["01".to_string() + &"00".repeat(16); 3];
    assert_eq!(
        select_semiprime_for_location(&huge, &candidates, &"bank".to_string()),
        Err(ProtocolError::MalformedInput)
    );
    assert_eq!(
        select_semiprime_for_location(&bad, &candidates, &"casino".to_string()),
        Err(ProtocolError::SecretNotFound)
    );
}

#[test]
fn challenge_id_is_digest_of_secret_and_time() {
    let id = challenge_id("airplane", 1_700_000_000);
    let expected = hex::encode(<sha2::Sha256 as sha2::Digest>::digest(b"airplane:1700000000"));
    assert_eq!(id, expected);
    assert_eq!(small_challenge("airplane").id, expected);
}

#[test]
fn generated_primes_have_full_width() {
    for _ in 0..5 {
        let p = generate_prime(16).unwrap();
        assert!((1u128 << 15) <= p && p < (1u128 << 16));
        assert_eq!(p % 2, 1);
        assert!(is_probably_prime(p, 20));
    }
    let p = generate_prime(48).unwrap();
    assert!((1u128 << 47) <= p && p < (1u128 << 48));
    assert!(is_probably_prime(p, 20));
}

#[test]
fn random_odd_and_range() {
    for _ in 0..20 {
        let v = generate_random_odd(8);
        assert!(128 <= v && v <= 255 && v % 2 == 1);
        let w = generate_random_odd(12);
        assert!(0x8000 <= w && w <= 0xffff && w % 2 == 1);
        let r = generate_random_range(2, 5).unwrap();
        assert!(2 <= r && r < 5);
    }
}

#[test]
fn primality_test_cases() {
    assert!(is_probably_prime(0, 20));
    assert!(is_probably_prime(1, 20));
    assert!(!is_probably_prime(9, 1));
    assert!(is_probably_prime(9, 0));
    assert!(is_probably_prime(2, 20));
    assert!(is_probably_prime(3, 20));
    assert!(!is_probably_prime(4, 20));
    assert!(is_probably_prime(97, 20));
    assert!(is_probably_prime(1_000_003, 20));
    assert!(!is_probably_prime(561, 20));
    assert!(!is_probably_prime(1_000_003 * 1_000_033, 20));
}

#[test]
fn factoring_recovers_the_product() {
    assert_eq!(factor_semiprime(15), Ok((3, 5)));
    let n: u128 = 1_000_003 * 1_000_033;
    let (p, q) = factor_semiprime(n).unwrap();
    assert_eq!(p * q, n);
    assert!(p > 1 && q > 1);
    let m: u128 = 8_388_617 * 8_388_619;
    let (a, b) = factor_semiprime(m).unwrap();
    assert_eq!(a * b, m);
    assert!(a == 8_388_617 || a == 8_388_619);
}

#[test]
fn pollard_rho_cases() {
    let (p, q) = pollard_rho(8051).unwrap();
    assert_eq!(p * q, 8051);
    assert!(p == 83 || p == 97);
    assert_eq!(pollard_rho(100), Ok((2, 50)));
    assert_eq!(pollard_rho(1), Err(ProtocolError::FactorizationFailed));
    assert_eq!(factor_semiprime(1), Err(ProtocolError::FactorizationFailed));
}

#[test]
fn arithmetic_values() {
    assert_eq!(mod_exp(4, 13, 497), 445);
    assert_eq!(mod_exp(7, 0, 13), 1);
    assert_eq!(mod_exp(5, 3, 1), 0);
    assert_eq!(mod_exp(u128::MAX, 2, u128::MAX - 1), 1);
    assert_eq!(gcd(48, 18), 6);
    assert_eq!(gcd(0, 7), 7);
    assert_eq!(gcd(7, 0), 7);
}

#[test]
fn key_is_digest_of_big_endian_bytes() {
    let expected = <sha2::Sha256 as sha2::Digest>::digest([1u8, 2u8]).to_vec();
    assert_eq!(bigint_to_aes_key(0x0102), expected);
    let zero = <sha2::Sha256 as sha2::Digest>::digest([0u8]).to_vec();
    assert_eq!(bigint_to_aes_key(0), zero);
}

#[test]
fn encryption_round_trips_and_wrong_key_fails() {
    let blob = encrypt_location("airplane ✈", 1_000_003);
    assert_eq!(decrypt_location(&blob, 1_000_003), Ok("airplane ✈".to_string()));
    assert_eq!(decrypt_location(&blob, 1_000_033), Err(ProtocolError::DecryptionFailed));
    let again = encrypt_location("airplane ✈", 1_000_003);
    assert_eq!(blob.len(), 2 * (12 + "airplane ✈".len() + 16));
    assert_ne!(blob, again);
    assert_eq!(decrypt_location("zz", 5), Err(ProtocolError::DecryptionFailed));
    assert_eq!(decrypt_location("00ff", 5), Err(ProtocolError::DecryptionFailed));
    assert_eq!(decrypt_location("", 5), Err(ProtocolError::DecryptionFailed));
}

#[test]
fn full_size_challenge_has_one_semiprime_per_secret() {
    let candidates = three_secrets();
    let challenge = generate_challenge(&candidates, "bank", 42).unwrap();
    assert_eq!(challenge.semiprimes.len(), 3);
    for h in &challenge.semiprimes {
        let bytes = hex::decode(h).unwrap();
        assert!(bytes.len() == 12 || bytes.len() == 11);
        assert!(bytes[0] != 0);
        assert_eq!(bytes[bytes.len() - 1] % 2, 1);
    }
    assert_eq!(challenge.id, challenge_id("bank", 42));
}

#[test]
fn draws_are_read_exactly() {
    assert_eq!(odd_from_draw(&vec![0x00, 0x00]), 0x8001);
    assert_eq!(odd_from_draw(&vec![0x12]), 0x93);
    assert_eq!(odd_from_draw(&vec![0xff, 0x10, 0x02]), 0xff1003);
    assert_eq!(range_from_draw(10, 20, &vec![3]), Some(13));
    assert_eq!(range_from_draw(10, 20, &vec![10]), None);
    assert_eq!(range_from_draw(0, 300, &vec![1, 0x2b]), Some(299));
    assert_eq!(range_from_draw(0, 300, &vec![1, 0x2c]), None);
}

#[test]
fn sealed_blob_has_nonce_then_ciphertext() {
    let nonce: Vec<u8> = (1u8..=12).collect();
    let blob = encrypt_with_nonce("bank", 1_000_003, &nonce);
    let key = bigint_to_aes_key(1_000_003);
    let cipher = aes_gcm::Aes256Gcm::new(aes_gcm::Key::<aes_gcm::Aes256Gcm>::from_slice(&key));
    let sealed = cipher.encrypt(aes_gcm::Nonce::from_slice(&nonce), "bank".as_bytes()).unwrap();
    let mut expected = nonce.clone();
    expected.extend_from_slice(&sealed);
    assert_eq!(blob, hex::encode(&expected));
    assert_eq!(&blob[..24], "0102030405060708090a0b0c");
    assert_eq!(decrypt_location(&blob, 1_000_003), Ok("bank".to_string()));
    assert_eq!(encrypt_with_nonce("bank", 1_000_003, &nonce), blob);
}

#[test]
fn blob_without_room_for_tag_fails() {
    let short = "00".repeat(27);
    assert_eq!(decrypt_location(&short, 5), Err(ProtocolError::DecryptionFailed));
    let nonce_only = "00".repeat(12);
    assert_eq!(decrypt_location(&nonce_only, 5), Err(ProtocolError::DecryptionFailed));
}
