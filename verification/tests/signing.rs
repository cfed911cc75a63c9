//! Signing, grinding, verification, and key handling.

use secp256k1_ecdsa::{Error, Message, PublicKey, Secp256k1, SecretKey};

fn test_key() -> SecretKey {
    SecretKey::from_byte_array([0x02u8; 32]).expect("valid key")
}

#[test]
fn sign_and_verify() {
    let sign_ctx = Secp256k1::signing_only();
    let verify_ctx = Secp256k1::verification_only();
    let msg = Message::from_digest([0xabu8; 32]);
    let sk = test_key();
    let pk = PublicKey::from_secret_key(&sk);
    let sig = sign_ctx.sign_ecdsa(&msg, &sk);
    assert_eq!(verify_ctx.verify_ecdsa(&msg, &sig, &pk), Ok(()));
    assert_eq!(sig.verify(&msg, &pk), Ok(()));
    let other = Message::from_digest([0xcdu8; 32]);
    assert_eq!(
        verify_ctx.verify_ecdsa(&other, &sig, &pk),
        Err(Error::IncorrectSignature)
    );
}

#[test]
fn deprecated_aliases_agree() {
    let secp = Secp256k1::new();
    let msg = Message::from_digest([0x11u8; 32]);
    let sk = test_key();
    let pk = PublicKey::from_secret_key(&sk);
    assert_eq!(secp.sign(&msg, &sk), secp.sign_ecdsa(&msg, &sk));
    let sig = secp.sign(&msg, &sk);
    assert_eq!(secp.verify(&msg, &sig, &pk), Ok(()));
    assert_eq!(
        secp.sign_grind_r(&msg, &sk, 1).serialize_der().len(),
        secp.sign_ecdsa_grind_r(&msg, &sk, 1).serialize_der().len()
    );
    assert_eq!(secp.sign_low_r(&msg, &sk), secp.sign_ecdsa_low_r(&msg, &sk));
}

#[test]
fn signing_is_deterministic() {
    let secp = Secp256k1::new();
    let msg = Message::from_digest([0x42u8; 32]);
    let sk = test_key();
    assert_eq!(secp.sign_ecdsa(&msg, &sk), secp.sign_ecdsa(&msg, &sk));
}

#[test]
fn extra_entropy_changes_signature() {
    let secp = Secp256k1::new();
    let msg = Message::from_digest([0x42u8; 32]);
    let sk = test_key();
    let plain = secp.sign_ecdsa(&msg, &sk);
    let one = secp.sign_ecdsa_with_noncedata(&msg, &sk, &[0x01u8; 32]);
    let two = secp.sign_ecdsa_with_noncedata(&msg, &sk, &[0x02u8; 32]);
    assert_ne!(plain, one);
    assert_ne!(one, two);
    // each entropy value is deterministic on its own
    assert_eq!(one, secp.sign_ecdsa_with_noncedata(&msg, &sk, &[0x01u8; 32]));
}

#[test]
fn entropy_signatures_still_verify() {
    let secp = Secp256k1::new();
    let msg = Message::from_digest([0x42u8; 32]);
    let sk = test_key();
    let pk = PublicKey::from_secret_key(&sk);
    let sig = secp.sign_ecdsa_with_noncedata(&msg, &sk, &[0x07u8; 32]);
    assert_eq!(secp.verify_ecdsa(&msg, &sig, &pk), Ok(()));
}

#[test]
fn grind_length_bound() {
    let secp = Secp256k1::new();
    let msg = Message::from_digest([0x55u8; 32]);
    let sk = test_key();
    let sig = secp.sign_ecdsa_grind_r(&msg, &sk, 1);
    assert!(sig.serialize_der().len() <= 70);
    let pk = PublicKey::from_secret_key(&sk);
    assert_eq!(secp.verify_ecdsa(&msg, &sig, &pk), Ok(()));
}

#[test]
fn grind_low_r() {
    let secp = Secp256k1::new();
    let msg = Message::from_digest([0x55u8; 32]);
    let sk = test_key();
    let sig = secp.sign_ecdsa_low_r(&msg, &sk);
    assert!(sig.serialize_compact()[0] < 0x80);
    let pk = PublicKey::from_secret_key(&sk);
    assert_eq!(secp.verify_ecdsa(&msg, &sig, &pk), Ok(()));
}

#[test]
fn secret_key_rejects_out_of_range() {
    assert!(SecretKey::from_byte_array([0u8; 32]).is_none());
    assert!(SecretKey::from_byte_array([0xffu8; 32]).is_none());
    assert!(SecretKey::from_byte_array([0x03u8; 32]).is_some());
}

#[test]
fn signature_is_well_formed() {
    let secp = Secp256k1::new();
    let msg = Message::from_digest([0x99u8; 32]);
    let sig = secp.sign_ecdsa(&msg, &test_key());
    assert!(sig.check_well_formed());
}
