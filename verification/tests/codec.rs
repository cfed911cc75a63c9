//! Round trips and rejection cases of the signature codecs.

use secp256k1_ecdsa::{Error, Message, Secp256k1, SecretKey, Signature};

fn test_key() -> SecretKey {
    SecretKey::from_byte_array([0x01u8; 32]).expect("valid key")
}

fn test_sig() -> Signature {
    let secp = Secp256k1::new();
    let msg = Message::from_digest([0xabu8; 32]);
    secp.sign_ecdsa(&msg, &test_key())
}

/// The group order minus one, big-endian.
fn order_minus_one() -> [u8; 32] {
    [
        0xff, 0xff, 0xff, 0xff, 0xff, 0xff, 0xff, 0xff, 0xff, 0xff, 0xff, 0xff, 0xff, 0xff,
        0xff, 0xfe, 0xba, 0xae, 0xdc, 0xe6, 0xaf, 0x48, 0xa0, 0x3b, 0xbf, 0xd2, 0x5e, 0x8c,
        0xd0, 0x36, 0x41, 0x40,
    ]
}

#[test]
fn der_round_trip() {
    let sig = test_sig();
    let ser = sig.serialize_der();
    assert!(ser.len() <= 72);
    let back = Signature::from_der(ser.as_bytes()).expect("own DER parses");
    assert_eq!(back, sig);
}

#[test]
fn compact_round_trip() {
    let sig = test_sig();
    let compact = sig.serialize_compact();
    let back = Signature::from_compact(&compact).expect("own compact parses");
    assert_eq!(back, sig);
}

#[test]
fn text_round_trip() {
    let sig = test_sig();
    let text = sig.to_text();
    assert!(text.chars().all(|c| c.is_ascii_hexdigit()));
    let back = Signature::from_text(&text).expect("own text parses");
    assert_eq!(back, sig);
}

#[test]
fn text_accepts_uppercase() {
    let sig = test_sig();
    let text = sig.to_text().to_uppercase();
    let back = Signature::from_text(&text).expect("uppercase text parses");
    assert_eq!(back, sig);
}

#[test]
fn text_rejects_garbage() {
    assert_eq!(Signature::from_text("zz"), Err(Error::InvalidSignature));
    assert_eq!(Signature::from_text("30"), Err(Error::InvalidSignature));
    let long = "00".repeat(80);
    assert_eq!(Signature::from_text(&long), Err(Error::InvalidSignature));
}

#[test]
fn malformed_inputs_rejected() {
    assert_eq!(Signature::from_der(&[]), Err(Error::InvalidSignature));
    assert_eq!(Signature::from_compact(&[0u8; 63]), Err(Error::InvalidSignature));
    assert_eq!(Signature::from_compact(&[0u8; 65]), Err(Error::InvalidSignature));
    assert_eq!(Signature::from_compact(&[0u8; 64]), Err(Error::InvalidSignature));
    assert_eq!(Signature::from_der_lax(&[]), Err(Error::InvalidSignature));
}

#[test]
fn lax_accepts_strict() {
    let sig = test_sig();
    let ser = sig.serialize_der();
    let lax = Signature::from_der_lax(ser.as_bytes()).expect("lax accepts strict DER");
    assert_eq!(lax, sig);
}

#[test]
fn lax_accepts_trailing_bytes() {
    let sig = test_sig();
    let mut bytes = ser_to_vec(&sig);
    bytes.push(0x00);
    assert_eq!(Signature::from_der(&bytes), Err(Error::InvalidSignature));
    let lax = Signature::from_der_lax(&bytes).expect("lax tolerates a trailing byte");
    assert_eq!(lax, sig);
}

fn ser_to_vec(sig: &Signature) -> Vec<u8> {
    sig.serialize_der().as_bytes().to_vec()
}

#[test]
fn normalize_s_folds_high_s() {
    let mut compact = [0u8; 64];
    compact[31] = 1; // r = 1
    let high = order_minus_one();
    compact[32..].copy_from_slice(&high); // s = order - 1, in the high half
    let mut sig = Signature::from_compact(&compact).expect("high-s pair parses");
    sig.normalize_s();
    let out = sig.serialize_compact();
    // order - (order - 1) == 1
    let mut expected = [0u8; 64];
    expected[31] = 1;
    expected[63] = 1;
    assert_eq!(out, expected);
}

#[test]
fn normalize_s_is_idempotent() {
    let mut compact = [0u8; 64];
    compact[31] = 1;
    compact[32..].copy_from_slice(&order_minus_one());
    let mut once = Signature::from_compact(&compact).expect("parses");
    once.normalize_s();
    let mut twice = once;
    twice.normalize_s();
    assert_eq!(twice, once);
}

#[test]
fn normalize_s_keeps_low_s() {
    let sig = test_sig();
    let mut normalized = sig;
    normalized.normalize_s();
    // the signing engine already produces low-S signatures
    assert_eq!(normalized, sig);
}

#[test]
fn der_round_trip_with_padding() {
    // r is in the top half of the field, so its DER INTEGER needs a zero
    // padding byte: 0x30, len 0x26, 0x02 0x21 0x00 <32 bytes>, 0x02 0x01 0x01
    let mut compact = [0u8; 64];
    compact[..32].copy_from_slice(&order_minus_one());
    compact[63] = 1;
    let sig = Signature::from_compact(&compact).expect("pair parses");
    let ser = sig.serialize_der();
    assert_eq!(ser.len(), 40);
    let bytes = ser.as_bytes();
    assert_eq!(bytes[0], 0x30);
    assert_eq!(bytes[1], 38);
    assert_eq!(bytes[2], 0x02);
    assert_eq!(bytes[3], 33);
    assert_eq!(bytes[4], 0x00);
    assert_eq!(&bytes[5..37], &order_minus_one());
    assert_eq!(&bytes[37..40], &[0x02, 0x01, 0x01]);
    let back = Signature::from_der(bytes).expect("padded DER parses");
    assert_eq!(back, sig);
}

#[test]
fn der_exact_vector() {
    // the minimal encoding of the pair (2, 3)
    let bytes = [0x30u8, 0x06, 0x02, 0x01, 0x02, 0x02, 0x01, 0x03];
    let sig = Signature::from_der(&bytes).expect("vector parses");
    let ser = sig.serialize_der();
    assert_eq!(ser.as_bytes(), &bytes);
    let compact = sig.serialize_compact();
    assert_eq!(compact[31], 2);
    assert_eq!(compact[63], 3);
    assert_eq!(&compact[..31], &[0u8; 31]);
    // the same pair through the lax parser
    assert_eq!(Signature::from_der_lax(&bytes).expect("lax parses"), sig);
    // a non-minimal variant: the r INTEGER carries a needless zero pad
    let padded = [0x30u8, 0x07, 0x02, 0x02, 0x00, 0x02, 0x02, 0x01, 0x03];
    assert_eq!(Signature::from_der(&padded), Err(Error::InvalidSignature));
    assert_eq!(Signature::from_der_lax(&padded).expect("lax tolerates padding"), sig);
}
