use lsend::cli::{Cli, CliError, Mode};
use lsend::frame::{decrypt, encrypt, read_decrypted, write_encrypted, FrameDecoder, FrameEncoder, FrameError};
use lsend::keys::{derive_session_key, respond, HandshakeError, Initiator};
use lsend::consent::{consent_from_folded, parse_consent};
use lsend::metadata::{read_name_len, rest_len, MetadataError, TransferMetadata};
use lsend::pipeline::{content_hash, hash_eq, open_body, seal_body, BodyError};

fn key() -> Vec<u8> {
    (0u8..32).collect()
}

fn prefix() -> Vec<u8> {
    (100u8..119).collect()
}

fn pair() -> (FrameEncoder, FrameDecoder) {
    (FrameEncoder::new(key(), prefix()), FrameDecoder::new(key(), prefix()))
}

fn sample(n: usize) -> Vec<u8> {
    (0..n).map(|i| (i * 7 + i / 13) as u8).collect()
}

fn round_trip(n: usize) {
    let (enc, dec) = pair();
    let data = sample(n);
    let wire = encrypt(&data, enc).unwrap();
    assert_eq!(wire.len(), n + 16 * (n / 500 + 1));
    assert_eq!(decrypt(&wire, dec).unwrap(), data);
}

#[test]
fn frames_round_trip_empty() {
    round_trip(0);
}

#[test]
fn frames_round_trip_exact_multiple() {
    round_trip(500);
    round_trip(1500);
}

#[test]
fn frames_round_trip_uneven() {
    round_trip(1);
    round_trip(499);
    round_trip(1234);
}

#[test]
fn frame_wire_length_is_exact() {
    let (enc, _) = pair();
    let wire = encrypt(&sample(1234), enc).unwrap();
    assert_eq!(wire.len(), 2 * 516 + 250);
}

#[test]
fn tampered_byte_is_rejected() {
    let (enc, _) = pair();
    let data = sample(1800);
    let wire = encrypt(&data, enc).unwrap();
    for pos in [0usize, 515, 516, 900, wire.len() - 1] {
        let mut bad = wire.clone();
        bad[pos] ^= 0x01;
        let dec = FrameDecoder::new(key(), prefix());
        assert_eq!(decrypt(&bad, dec), Err(FrameError::Authentication));
    }
}

#[test]
fn truncated_stream_is_rejected() {
    let (enc, _) = pair();
    let wire = encrypt(&sample(1200), enc).unwrap();
    let dec = FrameDecoder::new(key(), prefix());
    assert!(decrypt(&wire[..1032], dec).is_err());
    let dec = FrameDecoder::new(key(), prefix());
    assert!(decrypt(&[], dec).is_err());
}

#[test]
fn wrong_key_is_rejected() {
    let (enc, _) = pair();
    let wire = encrypt(&sample(10), enc).unwrap();
    let mut other = key();
    other[0] ^= 0xff;
    let dec = FrameDecoder::new(other, prefix());
    assert_eq!(decrypt(&wire, dec), Err(FrameError::Authentication));
}

#[test]
fn single_frames_round_trip() {
    let (mut enc, mut dec) = pair();
    let a = write_encrypted(&mut enc, b"hello").unwrap();
    let b = write_encrypted(&mut enc, b"world!").unwrap();
    assert_eq!(a.len(), 21);
    assert_eq!(enc.position(), 2);
    assert_eq!(read_decrypted(&mut dec, &a).unwrap(), b"hello".to_vec());
    assert_eq!(read_decrypted(&mut dec, &b).unwrap(), b"world!".to_vec());
    assert_eq!(dec.position(), 2);
}

#[test]
fn frames_out_of_order_are_rejected() {
    let (mut enc, mut dec) = pair();
    let _a = write_encrypted(&mut enc, b"first").unwrap();
    let b = write_encrypted(&mut enc, b"second").unwrap();
    assert_eq!(read_decrypted(&mut dec, &b), Err(FrameError::Authentication));
    assert_eq!(dec.position(), 0);
}

fn metadata_round_trip(name: &str) {
    let (mut enc, mut dec) = pair();
    let md = TransferMetadata { name: name.to_string(), size: 123_456_789, hash: (0u8..32).rev().collect() };
    let wire = md.encode(&mut enc).unwrap();
    assert_eq!(wire.len(), 24 + name.len() + 16 + 24 + 48);
    assert_eq!(enc.position(), 4);
    let back = TransferMetadata::decode(&mut dec, &wire).unwrap();
    assert_eq!(back.name, md.name);
    assert_eq!(back.size, md.size);
    assert_eq!(back.hash, md.hash);
    assert_eq!(dec.position(), 4);
}

#[test]
fn metadata_round_trip_empty_name() {
    metadata_round_trip("");
}

#[test]
fn metadata_round_trip_plain_and_unicode_names() {
    metadata_round_trip("notes.txt");
    metadata_round_trip("résumé ✓ 文件.pdf");
}

#[test]
fn metadata_round_trip_long_name() {
    metadata_round_trip(&"n".repeat(10_000));
}

#[test]
fn metadata_stepwise_decoding() {
    let (mut enc, mut dec) = pair();
    let md = TransferMetadata { name: "a.bin".to_string(), size: 7, hash: vec![9u8; 32] };
    let wire = md.encode(&mut enc).unwrap();
    let n = read_name_len(&mut dec, &wire[..24]).unwrap();
    assert_eq!(n, 5);
    let back = TransferMetadata::decode_rest(&mut dec, n, &wire[24..]).unwrap();
    assert_eq!(back.name, "a.bin");
    assert_eq!(back.size, 7);
}

#[test]
fn metadata_invalid_utf8_is_rejected() {
    let (mut enc, mut dec) = pair();
    let mut wire = Vec::new();
    wire.extend(write_encrypted(&mut enc, &2u64.to_le_bytes()).unwrap());
    wire.extend(write_encrypted(&mut enc, &[0xff, 0xfe]).unwrap());
    wire.extend(write_encrypted(&mut enc, &5u64.to_le_bytes()).unwrap());
    wire.extend(write_encrypted(&mut enc, &[0u8; 32]).unwrap());
    assert_eq!(TransferMetadata::decode(&mut dec, &wire).err(), Some(MetadataError::InvalidName));
}

#[test]
fn metadata_malformed_and_tampered() {
    let (mut enc, _) = pair();
    let md = TransferMetadata { name: "x".to_string(), size: 1, hash: vec![1u8; 32] };
    let wire = md.encode(&mut enc).unwrap();
    let mut dec = FrameDecoder::new(key(), prefix());
    assert_eq!(TransferMetadata::decode(&mut dec, &wire[..20]).err(), Some(MetadataError::Malformed));
    let mut dec = FrameDecoder::new(key(), prefix());
    assert_eq!(TransferMetadata::decode(&mut dec, &wire[..wire.len() - 1]).err(), Some(MetadataError::Malformed));
    let mut bad = wire.clone();
    bad[30] ^= 0x80;
    let mut dec = FrameDecoder::new(key(), prefix());
    assert_eq!(TransferMetadata::decode(&mut dec, &bad).err(), Some(MetadataError::Authentication));
}

#[test]
fn handshake_gives_matching_keys() {
    let init = Initiator::new();
    let hello = init.hello();
    assert_eq!(hello.len(), 67);
    let (dec, reply) = respond(&hello).unwrap();
    assert_eq!(reply.len(), 32);
    let enc = init.finish(&reply).unwrap();
    let data = sample(2000);
    let wire = encrypt(&data, enc).unwrap();
    assert_eq!(decrypt(&wire, dec).unwrap(), data);
}

#[test]
fn handshake_same_salt_fresh_keys_differ() {
    let init = Initiator::new();
    let hello = init.hello();
    let (dec_a, reply_a) = respond(&hello).unwrap();
    let (dec_b, reply_b) = respond(&hello).unwrap();
    assert_ne!(reply_a, reply_b);
    let enc = init.finish(&reply_a).unwrap();
    let wire = encrypt(b"fresh", enc).unwrap();
    assert_eq!(decrypt(&wire, dec_a).unwrap(), b"fresh".to_vec());
    assert_eq!(decrypt(&wire, dec_b), Err(FrameError::Authentication));
}

#[test]
fn handshake_rejects_bad_lengths() {
    assert_eq!(respond(&[0u8; 66]).err(), Some(HandshakeError::Malformed));
    let init = Initiator::new();
    assert_eq!(init.finish(&[0u8; 31]).err(), Some(HandshakeError::Malformed));
}

#[test]
fn session_key_depends_on_salt_and_secret() {
    let salt = [3u8; 16];
    let shared = [4u8; 32];
    let a = derive_session_key(&salt, &shared);
    let b = derive_session_key(&salt, &shared);
    assert_eq!(a.len(), 32);
    assert_eq!(a, b);
    let mut other = shared;
    other[31] = 5;
    assert_ne!(a, derive_session_key(&salt, &other));
    assert_ne!(a, derive_session_key(&[2u8; 16], &shared));
    assert_ne!(a, [salt.as_slice(), shared.as_slice()].concat()[..32].to_vec());
}

#[test]
fn content_hash_of_empty_input() {
    let h = content_hash(b"");
    let expected: Vec<u8> = (0..32)
        .map(|i| u8::from_str_radix(&"af1349b9f5f9a1a6a0404dea36dcc9499bcb25c9adc112b7cc9a93cae41f3262"[2 * i..2 * i + 2], 16).unwrap())
        .collect();
    assert_eq!(h, expected);
}

#[test]
fn ten_megabyte_body_round_trip() {
    let (enc, dec) = pair();
    let data: Vec<u8> = (0..10 * 1024 * 1024usize).map(|i| ((i / 1000) % 251) as u8).collect();
    let md = TransferMetadata::describe("big.bin".to_string(), &data);
    assert_eq!(md.size, data.len() as u64);
    let wire = seal_body(&data, 6, enc).unwrap();
    assert!(wire.len() < data.len() / 4);
    let back = open_body(&wire, dec).unwrap();
    assert!(back == data);
    assert!(md.matches_content(&back));
}

#[test]
fn corrupted_body_is_rejected() {
    let (enc, dec) = pair();
    let data = sample(200_000);
    let mut wire = seal_body(&data, 6, enc).unwrap();
    let mid = wire.len() / 2;
    wire[mid] ^= 0x10;
    assert_eq!(open_body(&wire, dec), Err(BodyError::Frame(FrameError::Authentication)));
}

#[test]
fn body_that_is_not_gzip_is_rejected() {
    let (enc, dec) = pair();
    let wire = encrypt(b"plain bytes, not gzip", enc).unwrap();
    assert_eq!(open_body(&wire, dec), Err(BodyError::Decompress));
}

#[test]
fn integrity_mismatch_is_reported() {
    let md = TransferMetadata::describe("f".to_string(), b"contents");
    assert!(md.matches_content(b"contents"));
    assert!(!md.matches_content(b"contentS"));
}

#[test]
fn hash_comparison() {
    assert!(hash_eq(&[1, 2, 3], &[1, 2, 3]));
    assert!(!hash_eq(&[1, 2, 3], &[1, 2, 4]));
    assert!(!hash_eq(&[1, 2], &[1, 2, 3]));
}

#[test]
fn cli_settings_are_checked() {
    let mut cli = Cli { port: 0, level: 6, mode: Mode::Share, id: Some("abc123".to_string()), path: "f".to_string() };
    assert_eq!(cli.validate(), Ok(()));
    cli.level = 0;
    assert_eq!(cli.validate(), Err(CliError::LevelOutOfRange));
    cli.level = 10;
    assert_eq!(cli.validate(), Err(CliError::LevelOutOfRange));
    cli.level = 1;
    cli.id = None;
    assert_eq!(cli.validate(), Err(CliError::MissingId));
    cli.mode = Mode::Save;
    assert_eq!(cli.validate(), Ok(()));
}

#[test]
fn consent_answers() {
    assert_eq!(parse_consent("y\n"), Some(true));
    assert_eq!(parse_consent("  Y \r\n"), Some(true));
    assert_eq!(parse_consent("N\n"), Some(false));
    assert_eq!(parse_consent("yes\n"), None);
    assert_eq!(parse_consent("\n"), None);
    assert_eq!(consent_from_folded("y"), Some(true));
    assert_eq!(consent_from_folded("n"), Some(false));
    assert_eq!(consent_from_folded("Y"), None);
    assert_eq!(consent_from_folded(" y"), None);
}

#[test]
fn header_rest_length() {
    assert_eq!(rest_len(0), Some(88));
    assert_eq!(rest_len(12), Some(100));
    assert_eq!(rest_len(u64::MAX), None);
}
