use ttrack_pro::crypto::{
    decrypt_stream, decrypt_v1_frames, decrypt_v2_frames, encrypt_stream, encrypt_with_prefix,
    ensure_key, is_encrypted, key_from, CryptoError, Format, FrameSealer, KeyFile, CHUNK_SIZE, KEY_SIZE,
    MAGIC, MAGIC_V1, MAX_CT_LEN,
};

use aes_gcm::aead::{Aead, KeyInit};
use aes_gcm::{Aes256Gcm, Nonce};

fn key() -> Vec<u8> {
    (0..32u8).collect()
}

fn opened(stream: &[u8], key: &[u8]) -> (Vec<u8>, Result<Format, CryptoError>) {
    let mut out = Vec::new();
    let res = decrypt_stream(stream, &mut out, key);
    (out, res)
}

#[test]
fn magic_headers_are_known() {
    assert_eq!(&MAGIC, b"TTEC2\n");
    assert_eq!(&MAGIC_V1, b"TTEC1\n");
    assert!(is_encrypted(b"TTEC2\n"));
    assert!(is_encrypted(b"TTEC1\nrest"));
    assert!(!is_encrypted(b"TTEC3\n"));
    assert!(!is_encrypted(b"TTEC2"));
    assert!(!is_encrypted(b""));
}

#[test]
fn a_stream_reads_back() {
    for n in [0usize, 1, 15, CHUNK_SIZE - 1, CHUNK_SIZE, CHUNK_SIZE + 1, 3 * CHUNK_SIZE + 7] {
        let data: Vec<u8> = (0..n).map(|i| (i * 31 % 251) as u8).collect();
        let mut out = Vec::new();
        assert_eq!(encrypt_stream(&data, &mut out, &key()), Ok(()));
        assert!(is_encrypted(&out));
        assert_eq!(opened(&out, &key()), (data, Ok(Format::V2)));
    }
}

#[test]
fn two_streams_differ() {
    let mut a = Vec::new();
    let mut b = Vec::new();
    encrypt_with_prefix(b"same", &mut a, &key(), [1, 2, 3, 4]).unwrap();
    encrypt_with_prefix(b"same", &mut b, &key(), [1, 2, 3, 5]).unwrap();
    assert_ne!(a, b);
    assert_ne!(&a[14..], b"same");
}

#[test]
fn a_stream_has_the_documented_layout() {
    let mut out = Vec::new();
    encrypt_with_prefix(b"hello", &mut out, &key(), [9, 8, 7, 6]).unwrap();
    assert_eq!(&out[..6], b"TTEC2\n");
    assert_eq!(&out[6..10], &[9, 8, 7, 6]);
    assert_eq!(&out[10..14], &[0, 0, 0, 21]);
    assert_eq!(out.len(), 14 + 21);
    let cipher = Aes256Gcm::new_from_slice(&key()).unwrap();
    let ct = cipher
        .encrypt(Nonce::from_slice(&[9, 8, 7, 6, 0, 0, 0, 0, 0, 0, 0, 0]), b"hello".as_slice())
        .unwrap();
    assert_eq!(&out[14..], ct.as_slice());
}

#[test]
fn the_nonce_of_a_frame_counts() {
    let data = vec![5u8; CHUNK_SIZE + 3];
    let mut out = Vec::new();
    encrypt_with_prefix(&data, &mut out, &key(), [1, 1, 1, 1]).unwrap();
    let second = 10 + 4 + CHUNK_SIZE + 16;
    assert_eq!(&out[second..second + 4], &[0, 0, 0, 19]);
    let cipher = Aes256Gcm::new_from_slice(&key()).unwrap();
    let pt = cipher
        .decrypt(Nonce::from_slice(&[1, 1, 1, 1, 0, 0, 0, 0, 0, 0, 0, 1]), &out[second + 4..])
        .unwrap();
    assert_eq!(pt, vec![5u8; 3]);
}

#[test]
fn a_sealer_makes_the_same_frames() {
    let mut whole = Vec::new();
    encrypt_with_prefix(b"abc", &mut whole, &key(), [0, 0, 0, 1]).unwrap();
    let k = key();
    let mut sealer = FrameSealer::start(&k, [0, 0, 0, 1]).unwrap();
    let mut out = sealer.header();
    assert!(sealer.can_seal());
    out.extend(sealer.seal_frame(b"abc").unwrap());
    assert_eq!(out, whole);
    out.extend(sealer.seal_frame(b"de").unwrap());
    assert_eq!(opened(&out, &k), (b"abcde".to_vec(), Ok(Format::V2)));
}

#[test]
fn a_wrong_key_is_refused() {
    let mut out = Vec::new();
    assert_eq!(encrypt_stream(b"x", &mut out, &[0; 31]), Err(CryptoError::InvalidKey));
    assert!(out.is_empty());
    assert_eq!(opened(b"TTEC2\nabcd", &[0; 33]).1, Err(CryptoError::InvalidKey));
    assert!(matches!(FrameSealer::start(&[1, 2], [0; 4]), Err(CryptoError::InvalidKey)));
}

#[test]
fn another_key_does_not_open() {
    let mut out = Vec::new();
    encrypt_stream(b"secret", &mut out, &key()).unwrap();
    assert_eq!(opened(&out, &[7; 32]), (vec![], Err(CryptoError::AuthenticationFailed(0))));
}

#[test]
fn a_damaged_frame_is_named() {
    let data = vec![1u8; CHUNK_SIZE + 1];
    let mut out = Vec::new();
    encrypt_stream(&data, &mut out, &key()).unwrap();
    let last = out.len() - 1;
    out[last] ^= 1;
    let (text, res) = opened(&out, &key());
    assert_eq!(text, vec![1u8; CHUNK_SIZE]);
    assert_eq!(res, Err(CryptoError::AuthenticationFailed(1)));
}

#[test]
fn swapped_frames_are_refused() {
    let k = key();
    let mut sealer = FrameSealer::start(&k, [0, 0, 0, 1]).unwrap();
    let mut out = sealer.header();
    let a = sealer.seal_frame(b"first").unwrap();
    let b = sealer.seal_frame(b"other").unwrap();
    out.extend(b);
    out.extend(a);
    assert_eq!(opened(&out, &k).1, Err(CryptoError::AuthenticationFailed(0)));
}

#[test]
fn a_cut_stream_reads_up_to_the_cut() {
    let k = key();
    let mut sealer = FrameSealer::start(&k, [0, 0, 0, 1]).unwrap();
    let mut out = sealer.header();
    out.extend(sealer.seal_frame(b"first").unwrap());
    let whole = out.len();
    out.extend(sealer.seal_frame(b"second").unwrap());
    for n in whole..out.len() {
        assert_eq!(opened(&out[..n], &k), (b"first".to_vec(), Ok(Format::V2)));
    }
    for n in 10..whole {
        assert_eq!(opened(&out[..n], &k), (vec![], Ok(Format::V2)));
    }
    for n in 0..10 {
        assert_eq!(opened(&out[..n], &k), (vec![], Err(CryptoError::UnexpectedEof)));
    }
}

#[test]
fn frame_lengths_are_bounded() {
    let mut stream = b"TTEC2\nabcd".to_vec();
    stream.extend([0, 0, 0, 15]);
    assert_eq!(opened(&stream, &key()).1, Err(CryptoError::InvalidFrameLength(15)));
    let mut stream = b"TTEC2\nabcd".to_vec();
    stream.extend((MAX_CT_LEN as u32 + 1).to_be_bytes());
    assert_eq!(opened(&stream, &key()).1, Err(CryptoError::InvalidFrameLength(32785)));
    let mut stream = b"TTEC2\nabcd".to_vec();
    stream.extend((MAX_CT_LEN as u32).to_be_bytes());
    assert_eq!(opened(&stream, &key()).1, Ok(Format::V2));
}

fn legacy_frame(text: &[u8], nonce: [u8; 12]) -> Vec<u8> {
    let cipher = Aes256Gcm::new_from_slice(&key()).unwrap();
    let ct = cipher.encrypt(Nonce::from_slice(&nonce), text).unwrap();
    let mut out = ((12 + ct.len()) as u32).to_be_bytes().to_vec();
    out.extend(nonce);
    out.extend(ct);
    out
}

#[test]
fn legacy_streams_are_read() {
    let mut stream = b"TTEC1\n".to_vec();
    stream.extend(legacy_frame(b"old ", [3; 12]));
    stream.extend(legacy_frame(b"session", [4; 12]));
    assert_eq!(opened(&stream, &key()), (b"old session".to_vec(), Ok(Format::V1)));
    let cut = stream.len() - 1;
    assert_eq!(opened(&stream[..cut], &key()), (b"old ".to_vec(), Ok(Format::V1)));
}

#[test]
fn damaged_legacy_streams_are_refused() {
    let mut stream = b"TTEC1\n".to_vec();
    stream.extend(legacy_frame(b"old", [3; 12]));
    let last = stream.len() - 1;
    stream[last] ^= 0x80;
    assert_eq!(opened(&stream, &key()).1, Err(CryptoError::AuthenticationFailedV1));
    let mut short = b"TTEC1\n".to_vec();
    short.extend([0, 0, 0, 11]);
    assert_eq!(opened(&short, &key()).1, Err(CryptoError::InvalidFrameLengthV1(11)));
    let mut long = b"TTEC1\n".to_vec();
    long.extend([0, 0x10, 0, 1]);
    assert_eq!(opened(&long, &key()).1, Err(CryptoError::InvalidFrameLengthV1(1048577)));
}

#[test]
fn text_without_a_magic_header_is_passed_on() {
    assert_eq!(
        opened(b"{\"version\":2}\n", &key()),
        (b"{\"version\":2}\n".to_vec(), Ok(Format::Plain))
    );
    assert_eq!(opened(b"abcde", &key()), (vec![], Err(CryptoError::UnexpectedEof)));
}

#[test]
fn frames_append_to_what_is_there() {
    let mut out = b"kept".to_vec();
    assert_eq!(decrypt_v1_frames(&legacy_frame(b" more", [1; 12]), &mut out, &key()), Ok(()));
    assert_eq!(out, b"kept more");
    let k = key();
    let mut sealer = FrameSealer::start(&k, [1, 2, 3, 4]).unwrap();
    let frame = sealer.seal_frame(b"!").unwrap();
    assert_eq!(decrypt_v2_frames(&frame, &mut out, &k, &[1, 2, 3, 4]), Ok(()));
    assert_eq!(out, b"kept more!");
}

#[test]
fn a_key_file_is_used_or_made() {
    match ensure_key(Some(key())) {
        Ok(KeyFile::Existing(k)) => assert_eq!(k, key()),
        other => panic!("{:?}", other),
    }
    assert!(matches!(ensure_key(Some(vec![1; 31])), Err(CryptoError::WrongKeySize(31))));
    let (a, b) = match (ensure_key(None), ensure_key(None)) {
        (Ok(KeyFile::Fresh(a)), Ok(KeyFile::Fresh(b))) => (a, b),
        other => panic!("{:?}", other),
    };
    assert_eq!(a.len(), KEY_SIZE);
    assert_ne!(a, vec![0; KEY_SIZE]);
    assert_ne!(a, b);
}

#[test]
fn crypto_errors_are_described() {
    let say = |e: CryptoError| e.message(b"/k\xff");
    assert_eq!(say(CryptoError::InvalidKey), "invalid key");
    assert_eq!(say(CryptoError::WrongKeySize(31)), "key /k\u{fffd} has wrong size 31");
    assert_eq!(say(CryptoError::EncryptFrame), "encrypt frame");
    assert_eq!(say(CryptoError::UnexpectedEof), "failed to fill whole buffer");
    assert_eq!(
        say(CryptoError::InvalidFrameLength(15)),
        "corrupt encrypted stream: invalid frame length 15"
    );
    assert_eq!(
        say(CryptoError::AuthenticationFailed(2)),
        "corrupt encrypted stream: authentication failed at frame 2"
    );
    assert_eq!(
        say(CryptoError::InvalidFrameLengthV1(11)),
        "corrupt encrypted stream (v1): invalid frame length 11"
    );
    assert_eq!(
        say(CryptoError::AuthenticationFailedV1),
        "corrupt encrypted stream (v1): authentication failed"
    );
}

#[test]
fn a_stream_can_be_sealed_as_it_comes() {
    let k = key();
    let mut a = FrameSealer::begin(&k).unwrap();
    let mut b = FrameSealer::begin(&k).unwrap();
    let mut c = FrameSealer::begin(&k).unwrap();
    let (mut out, other, third) = (a.header(), b.header(), c.header());
    assert!(out != other || out != third);
    out.extend(a.seal_frame(b"as it ").unwrap());
    out.extend(a.seal_frame(b"comes").unwrap());
    assert_eq!(opened(&out, &k), (b"as it comes".to_vec(), Ok(Format::V2)));
    assert_ne!(b.seal_frame(b"x").unwrap()[4..], b"x"[..]);
    assert_eq!(c.seal_frame(b"").unwrap().len(), 20);
    assert!(matches!(FrameSealer::begin(&[1, 2]), Err(CryptoError::InvalidKey)));
}

#[test]
fn a_new_key_is_the_one_that_was_drawn() {
    assert!(matches!(key_from(None, vec![7; 32]), Ok(KeyFile::Fresh(k)) if k == vec![7; 32]));
    assert!(matches!(key_from(Some(key()), vec![7; 32]), Ok(KeyFile::Existing(k)) if k == key()));
    assert!(matches!(key_from(Some(vec![]), vec![7; 32]), Err(CryptoError::WrongKeySize(0))));
}
