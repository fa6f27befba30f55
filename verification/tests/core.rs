use protowave::signing::{ServerKeypair, ServerPublicKey, Signature, SigningError};
use protowave::wire::{Channel, Envelope};
use protowave::protocol::{ControlKind, decode_control, encode_control};
use protowave::{hex_decode_str, hex_encode, IdError, ParticipantId};

#[test]
fn sign_and_verify_roundtrip() {
    let kp = ServerKeypair::generate();
    let msg = b"protowave update batch";
    let sig = kp.sign(msg);
    kp.public_key().verify(msg, &sig).unwrap();
}

#[test]
fn tampered_message_fails() {
    let kp = ServerKeypair::generate();
    let sig = kp.sign(b"original");
    assert!(matches!(
        kp.public_key().verify(b"tampered", &sig),
        Err(SigningError::BadSignature)
    ));
}

#[test]
fn wrong_key_fails() {
    let a = ServerKeypair::generate();
    let b = ServerKeypair::generate();
    let sig = a.sign(b"msg");
    assert!(b.public_key().verify(b"msg", &sig).is_err());
}

#[test]
fn keypair_persists_via_secret_bytes() {
    let kp = ServerKeypair::generate();
    let restored = ServerKeypair::from_secret_bytes(&kp.to_secret_bytes()).unwrap();
    assert_eq!(kp.public_key(), restored.public_key());
    let sig = restored.sign(b"msg");
    kp.public_key().verify(b"msg", &sig).unwrap();
}

#[test]
fn signing_is_deterministic_and_hex_is_128_digits() {
    let kp = ServerKeypair::from_secret_bytes(&[7u8; 32]).unwrap();
    let a = kp.sign(b"same");
    let b = kp.sign(b"same");
    assert_eq!(a, b);
    assert_eq!(a.to_hex().len(), 128);
    assert_eq!(kp.public_key().to_hex().len(), 64);
}

#[test]
fn signature_and_key_lengths_are_checked() {
    assert!(matches!(Signature::from_bytes(&[0u8; 63]), Err(SigningError::BadSignatureEncoding)));
    assert!(Signature::from_bytes(&[0u8; 64]).is_ok());
    assert!(ServerPublicKey::from_bytes(&[0u8; 31]).is_err());
    assert!(ServerKeypair::from_secret_bytes(&[1u8; 31]).is_err());
    let kp = ServerKeypair::generate();
    let pk = kp.public_key();
    let back = ServerPublicKey::from_bytes(&pk.to_bytes()).unwrap();
    assert_eq!(back, pk);
}

#[test]
fn envelope_roundtrip() {
    let control = ControlKind::Subscribe {
        wavelet: "example.org/w+1/conv+root".into(),
        state_vector: vec![0],
    };
    let env = Envelope::new(Channel::Control, encode_control(&control));
    let bytes = env.encode_frame();
    let back = Envelope::decode_frame(&bytes).unwrap();
    assert_eq!(back.channel, Channel::Control.code());
    let control_back = decode_control(back.payload.as_slice()).unwrap();
    match control_back {
        Some(ControlKind::Subscribe { wavelet, state_vector }) => {
            assert_eq!(wavelet, "example.org/w+1/conv+root");
            assert_eq!(state_vector, vec![0]);
        }
        other => panic!("unexpected kind: {other:?}"),
    }
}

#[test]
fn envelope_bytes_are_protobuf() {
    let env = Envelope::new(Channel::Echo, b"hi".to_vec());
    assert_eq!(env.encode_frame(), vec![0x08, 0x02, 0x12, 0x02, b'h', b'i']);
    let empty = Envelope::new(Channel::Unspecified, Vec::new());
    assert!(empty.encode_frame().is_empty());
    assert!(Envelope::decode_frame(&[0x08]).is_err());
    // An unknown varint field 3 is skipped.
    let back = Envelope::decode_frame(&[0x18, 0x05, 0x08, 0x04]).unwrap();
    assert_eq!(back.channel, 4);
    assert!(back.payload.is_empty());
}

#[test]
fn hex_roundtrip_and_rejects() {
    let h = hex_encode(&[0x00, 0xab, 0xff]);
    assert_eq!(h, "00abff");
    assert_eq!(hex_decode_str("00ABff").unwrap(), vec![0x00, 0xab, 0xff]);
    assert!(hex_decode_str("abc").is_none());
    assert!(hex_decode_str("zz").is_none());
}

#[test]
fn id_error_messages() {
    assert_eq!(IdError::Empty.message(), "empty identifier component");
    assert_eq!(
        IdError::InvalidChar(' ').message(),
        "invalid character ' ' in identifier component"
    );
    assert_eq!(
        IdError::InvalidDomain("-bad-.org".into()).message(),
        "invalid domain: \"-bad-.org\""
    );
    let e = "no-at-sign".parse::<ParticipantId>().unwrap_err();
    assert!(e.message().starts_with("malformed identifier: expected "));
}
