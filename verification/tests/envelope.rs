use secure_channel::crypto::{
    decrypt, decrypt_from_base64, encrypt, encrypt_to_base64, generate_key, key_from_hex,
    key_to_hex,
};
use secure_channel::framing::{decode_frame, encode_frame, frame_payload_len, MAX_FRAME_PAYLOAD};
use secure_channel::ChannelError;

#[test]
fn test_encryption_decryption() {
    let key = generate_key();
    let data = b"Hello, World! This is sensitive data.";

    let encrypted = encrypt(data, &key).unwrap();
    let decrypted = decrypt(&encrypted, &key).unwrap();

    assert_eq!(data.as_slice(), decrypted.as_slice());
}

#[test]
fn test_base64_encryption() {
    let key = generate_key();
    let data = b"Secret environment variable";

    let encrypted = encrypt_to_base64(data, &key).unwrap();
    let decrypted = decrypt_from_base64(&encrypted, &key).unwrap();

    assert_eq!(data.as_slice(), decrypted.as_slice());
}

#[test]
fn seal_open_round_trip_empty_and_binary() {
    let key = generate_key();
    for data in [&b""[..], &b"\x00\xff\x7f\x80"[..]] {
        let sealed = encrypt(data, &key).unwrap();
        assert_eq!(sealed.len(), data.len() + 28);
        assert_eq!(decrypt(&sealed, &key).unwrap().as_slice(), data);
    }
}

#[test]
fn tamper_detection_every_bit() {
    let key = generate_key();
    let data = b"attack at dawn";
    let sealed = encrypt(data, &key).unwrap();
    // flip each single bit of the ciphertext and the tag in turn
    for byte in 12..sealed.len() {
        for bit in 0..8 {
            let mut bad = sealed.clone();
            bad[byte] ^= 1 << bit;
            assert_eq!(
                decrypt(&bad, &key).unwrap_err(),
                ChannelError::AuthenticationFailure,
                "bit {} of byte {} went unnoticed",
                bit,
                byte
            );
        }
    }
}

#[test]
fn wrong_key_fails_authentication() {
    let k1 = generate_key();
    let mut k2 = k1;
    k2[0] ^= 1;
    let sealed = encrypt(b"payload", &k1).unwrap();
    assert_eq!(
        decrypt(&sealed, &k2).unwrap_err(),
        ChannelError::AuthenticationFailure
    );
}

#[test]
fn short_envelope_is_malformed() {
    let key = generate_key();
    assert_eq!(
        decrypt(&[0u8; 11], &key).unwrap_err(),
        ChannelError::MalformedInput
    );
    assert_eq!(decrypt(&[], &key).unwrap_err(), ChannelError::MalformedInput);
}

#[test]
fn nonce_uniqueness_over_many_seals() {
    let key = generate_key();
    let mut nonces: Vec<[u8; 12]> = Vec::with_capacity(10_000);
    for _ in 0..10_000 {
        let sealed = encrypt(b"x", &key).unwrap();
        let mut nonce = [0u8; 12];
        nonce.copy_from_slice(&sealed[..12]);
        nonces.push(nonce);
    }
    nonces.sort();
    for w in nonces.windows(2) {
        assert_ne!(w[0], w[1], "two seals drew the same nonce");
    }
}

#[test]
fn base64_output_is_base64() {
    let key = generate_key();
    let s = encrypt_to_base64(b"\x00\x01binary\xff", &key).unwrap();
    assert_eq!(s.len() % 4, 0);
    assert!(s
        .chars()
        .all(|c| c.is_ascii_alphanumeric() || c == '+' || c == '/' || c == '='));
}

#[test]
fn bad_base64_is_malformed() {
    let key = generate_key();
    assert_eq!(
        decrypt_from_base64("not@base64!", &key).unwrap_err(),
        ChannelError::MalformedInput
    );
}

#[test]
fn framing_round_trips_and_enforces_ceiling() {
    for len in [0usize, 1, 65535, MAX_FRAME_PAYLOAD] {
        let payload = vec![0xabu8; len];
        let frame = encode_frame(&payload);
        assert_eq!(frame.len(), len + 4);
        assert_eq!(decode_frame(&frame).unwrap(), payload);
    }
    let too_big = vec![0u8; MAX_FRAME_PAYLOAD + 1];
    let frame = encode_frame(&too_big);
    assert_eq!(
        decode_frame(&frame).unwrap_err(),
        ChannelError::MessageTooLarge
    );
}

#[test]
fn framing_exact_header_bytes() {
    let frame = encode_frame(&[7u8, 8, 9]);
    assert_eq!(&frame[..4], &[0u8, 0, 0, 3]);
    assert_eq!(frame_payload_len(&frame[..4]).unwrap(), 3);
    assert_eq!(
        frame_payload_len(&[0u8, 0x10, 0, 1]).unwrap_err(),
        ChannelError::MessageTooLarge
    );
}

#[test]
fn framing_short_or_mismatched_is_io_error() {
    assert_eq!(decode_frame(&[0u8, 0]).unwrap_err(), ChannelError::IoError);
    // declared length disagrees with the buffer
    assert_eq!(
        decode_frame(&[0u8, 0, 0, 5, 1, 2]).unwrap_err(),
        ChannelError::IoError
    );
}

#[test]
fn key_hex_round_trip() {
    let key = generate_key();
    let hex = key_to_hex(&key);
    assert_eq!(hex.len(), 64);
    assert_eq!(key_from_hex(&hex).unwrap(), key);
    // surrounding whitespace and uppercase spellings are accepted
    let spaced = format!("  {}\n", hex.to_uppercase());
    assert_eq!(key_from_hex(&spaced).unwrap(), key);
}

#[test]
fn key_hex_exact_and_rejections() {
    let zero = [0u8; 32];
    assert_eq!(key_to_hex(&zero), "0".repeat(64));
    assert!(key_from_hex("abcd").is_none());
    let bad = "g".repeat(64);
    assert!(key_from_hex(&bad).is_none());
}
