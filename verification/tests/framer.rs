use aead_framer::crypto::{Cipher, CipherKind};
use aead_framer::errors::{protocol_to_io_kind, IoErrorKind, ProtocolError};
use aead_framer::reader::DecryptedReader;
use aead_framer::transport::{Poll, ReadBuf, SinkBuf, SourceBuf};
use aead_framer::writer::EncryptedWriter;
use aead_framer::MAX_PACKET_SIZE;

fn write_all(kind: CipherKind, key: &[u8], salt: &[u8], chunks: &[&[u8]]) -> Vec<u8> {
    let mut w = EncryptedWriter::new(kind, key, salt);
    let mut sink = SinkBuf::new(1 << 24);
    for chunk in chunks {
        match w.poll_write_encrypted(&mut sink, chunk) {
            Poll::Ready(Ok(n)) => assert_eq!(n, chunk.len().min(MAX_PACKET_SIZE)),
            _ => panic!("write did not complete"),
        }
    }
    sink.sent_bytes().clone()
}

fn read_all(kind: CipherKind, key: &[u8], wire: &[u8]) -> Result<Vec<u8>, ProtocolError> {
    let mut r = DecryptedReader::new(kind, key);
    let mut src = SourceBuf::new();
    src.feed(wire);
    src.close();
    let mut out = ReadBuf::with_capacity(wire.len() + 16);
    loop {
        let before = out.filled_len();
        match r.poll_read_decrypted(&mut src, &mut out) {
            Poll::Ready(Ok(())) => {
                if out.filled_len() == before {
                    return Ok(out.into_vec());
                }
            }
            Poll::Ready(Err(e)) => return Err(e),
            Poll::Pending => panic!("reader pending on a closed source"),
        }
    }
}

#[test]
fn s1_round_trip_small() {
    let key = [0u8; 16];
    let salt = [0u8; 16];
    let wire = write_all(CipherKind::Aes128Gcm, &key, &salt, &[b"hello"]);
    assert_eq!(wire.len(), 16 + 2 + 16 + 5 + 16);
    let got = read_all(CipherKind::Aes128Gcm, &key, &wire).unwrap();
    assert_eq!(got, b"hello".to_vec());
}

#[test]
fn s1_ciphertext_differs_from_plaintext() {
    let key = [0u8; 16];
    let salt = [0u8; 16];
    let wire = write_all(CipherKind::Aes128Gcm, &key, &salt, &[b"hello"]);
    assert_ne!(&wire[34..39], b"hello");
}

#[test]
fn s2_round_trip_multi_frame() {
    let key = [0u8; 16];
    let salt = [0u8; 16];
    let first: Vec<u8> = (0u32..0x3FFF).map(|i| (i % 256) as u8).collect();
    let second = [0xAAu8];
    let wire = write_all(CipherKind::Aes128Gcm, &key, &salt, &[&first, &second]);
    assert_eq!(wire.len(), 16 + (2 + 16 + 0x3FFF + 16) + (2 + 16 + 1 + 16));
    let got = read_all(CipherKind::Aes128Gcm, &key, &wire).unwrap();
    let mut want = first.clone();
    want.push(0xAA);
    assert_eq!(got, want);
}

#[test]
fn s3_oversize_truncation() {
    let key = [0u8; 16];
    let salt = [0u8; 16];
    let buf = vec![0x42u8; 0x5000];
    let mut w = EncryptedWriter::new(CipherKind::Aes128Gcm, &key, &salt);
    let mut sink = SinkBuf::new(1 << 24);
    let n1 = match w.poll_write_encrypted(&mut sink, &buf) {
        Poll::Ready(Ok(n)) => n,
        _ => panic!("write did not complete"),
    };
    assert_eq!(n1, 0x3FFF);
    let n2 = match w.poll_write_encrypted(&mut sink, &buf[n1..]) {
        Poll::Ready(Ok(n)) => n,
        _ => panic!("write did not complete"),
    };
    assert_eq!(n2, 0x1001);
    let got = read_all(CipherKind::Aes128Gcm, &key, &sink.sent_bytes().clone()).unwrap();
    assert_eq!(got, buf);
}

#[test]
fn s4_tampered_length_field() {
    let key = [0u8; 16];
    let salt = [0u8; 16];
    let mut wire = write_all(CipherKind::Aes128Gcm, &key, &salt, &[b"hello"]);
    wire[16] ^= 0x01;
    match read_all(CipherKind::Aes128Gcm, &key, &wire) {
        Err(ProtocolError::DecryptLengthError) => {}
        other => panic!("expected DecryptLengthError, got {:?}", other),
    }
}

#[test]
fn s5_premature_eof() {
    let key = [0u8; 16];
    let salt = [0u8; 16];
    let wire = write_all(CipherKind::Aes128Gcm, &key, &salt, &[b"hello"]);
    match read_all(CipherKind::Aes128Gcm, &key, &wire[..54]) {
        Err(ProtocolError::IoError(IoErrorKind::UnexpectedEof)) => {}
        other => panic!("expected UnexpectedEof, got {:?}", other),
    }
}

#[test]
fn s6_clean_eof_after_salt() {
    let key = [0u8; 16];
    let salt = [7u8; 16];
    let got = read_all(CipherKind::Aes128Gcm, &key, &salt).unwrap();
    assert_eq!(got.len(), 0);
}

#[test]
fn p2_length_ceiling_single_frame() {
    let key = [0u8; 16];
    let salt = [0u8; 16];
    let buf = vec![0x11u8; 0x4800];
    let mut w = EncryptedWriter::new(CipherKind::Aes128Gcm, &key, &salt);
    let mut sink = SinkBuf::new(1 << 24);
    match w.poll_write_encrypted(&mut sink, &buf) {
        Poll::Ready(Ok(n)) => assert_eq!(n, MAX_PACKET_SIZE),
        _ => panic!("write did not complete"),
    }
    assert_eq!(sink.sent_bytes().len(), 16 + 2 + 16 + MAX_PACKET_SIZE + 16);
}

#[test]
fn p3_p4_handshake_and_salt_exposure() {
    let key = [3u8; 16];
    let salt: Vec<u8> = (0u8..16).collect();
    let mut w = EncryptedWriter::new(CipherKind::Aes128Gcm, &key, &salt);
    assert_eq!(w.salt(), &salt[..]);
    let mut sink = SinkBuf::new(1 << 24);
    match w.poll_write_encrypted(&mut sink, b"abc") {
        Poll::Ready(Ok(3)) => {}
        _ => panic!("write did not complete"),
    }
    let wire = sink.sent_bytes().clone();
    assert_eq!(&wire[..16], &salt[..]);

    let mut r = DecryptedReader::new(CipherKind::Aes128Gcm, &key);
    assert!(!r.handshaked());
    assert!(r.salt().is_none());
    let mut src = SourceBuf::new();
    src.feed(&wire[..16]);
    let mut out = ReadBuf::with_capacity(64);
    // Only the salt has arrived: the handshake completes, then the reader
    // pends, before any plaintext was delivered.
    match r.poll_read_decrypted(&mut src, &mut out) {
        Poll::Pending => {}
        _ => panic!("expected pending"),
    }
    assert!(r.handshaked());
    assert_eq!(r.salt().unwrap().as_slice(), &salt[..]);
    assert_eq!(out.filled_len(), 0);
    // The rest of the stream arrives and the plaintext follows.
    src.feed(&wire[16..]);
    src.close();
    match r.poll_read_decrypted(&mut src, &mut out) {
        Poll::Ready(Ok(())) => {}
        _ => panic!("expected ready"),
    }
    assert_eq!(out.filled_bytes().as_slice(), b"abc");
}

#[test]
fn p5_no_reencrypt_after_partial_write() {
    let key = [9u8; 16];
    let salt = [1u8; 16];
    // Reference stream written in one go.
    let reference = write_all(CipherKind::Aes128Gcm, &key, &salt, &[b"payload"]);
    // The same write driven through a sink that accepts five bytes at a time.
    let mut w = EncryptedWriter::new(CipherKind::Aes128Gcm, &key, &salt);
    let mut sink = SinkBuf::new(0);
    let mut rounds = 0usize;
    loop {
        match w.poll_write_encrypted(&mut sink, b"payload") {
            Poll::Ready(Ok(n)) => {
                assert_eq!(n, 7);
                break;
            }
            Poll::Pending => {
                sink.allow(5);
                rounds += 1;
                assert!(rounds < 100);
            }
            Poll::Ready(Err(e)) => panic!("unexpected error {:?}", e),
        }
    }
    // Byte-identical output: the frame was sealed exactly once.
    assert_eq!(sink.sent_bytes(), &reference);
    let got = read_all(CipherKind::Aes128Gcm, &key, &reference).unwrap();
    assert_eq!(got, b"payload".to_vec());
}

#[test]
fn p6_any_single_bit_flip_is_rejected() {
    let key = [0u8; 16];
    let salt = [0u8; 16];
    let wire = write_all(CipherKind::Aes128Gcm, &key, &salt, &[b"hello"]);
    for idx in 16..wire.len() {
        for bit in 0..8u8 {
            let mut bad = wire.clone();
            bad[idx] ^= 1 << bit;
            match read_all(CipherKind::Aes128Gcm, &key, &bad) {
                Err(ProtocolError::DecryptLengthError) | Err(ProtocolError::DecryptDataError) => {}
                other => panic!("byte {} bit {}: expected decrypt error, got {:?}", idx, bit, other),
            }
        }
    }
}

#[test]
fn p7_oversized_length_field_rejected() {
    let key = [0u8; 16];
    let salt = [0u8; 16];
    // A validly sealed length field whose decoded value exceeds the ceiling.
    let mut c = Cipher::new(CipherKind::Aes128Gcm, &key, &salt);
    let lenseg = c.encrypt(&[0x7F, 0xFF]);
    let mut wire = salt.to_vec();
    wire.extend_from_slice(&lenseg);
    match read_all(CipherKind::Aes128Gcm, &key, &wire) {
        Err(ProtocolError::DataTooLong(n)) => assert_eq!(n, 0x7FFF),
        other => panic!("expected DataTooLong, got {:?}", other),
    }
}

#[test]
fn p8_backpressure_one_byte_consumer() {
    let key = [0u8; 16];
    let salt = [0u8; 16];
    let wire = write_all(CipherKind::Aes128Gcm, &key, &salt, &[b"hello"]);
    let mut r = DecryptedReader::new(CipherKind::Aes128Gcm, &key);
    let mut src = SourceBuf::new();
    src.feed(&wire);
    src.close();
    let mut got: Vec<u8> = Vec::new();
    loop {
        let mut out = ReadBuf::with_capacity(1);
        match r.poll_read_decrypted(&mut src, &mut out) {
            Poll::Ready(Ok(())) => {
                let piece = out.into_vec();
                if piece.is_empty() {
                    break;
                }
                assert_eq!(piece.len(), 1);
                got.extend_from_slice(&piece);
            }
            other => panic!("unexpected result {:?}", poll_name(&other)),
        }
    }
    assert_eq!(got, b"hello".to_vec());
}

fn poll_name(p: &Poll<Result<(), ProtocolError>>) -> &'static str {
    match p {
        Poll::Ready(Ok(())) => "ready-ok",
        Poll::Ready(Err(_)) => "ready-err",
        Poll::Pending => "pending",
    }
}

#[test]
fn p8_trickle_source_one_byte_at_a_time() {
    let key = [0u8; 16];
    let salt = [0u8; 16];
    let wire = write_all(CipherKind::Aes128Gcm, &key, &salt, &[b"hi", b"there"]);
    let mut r = DecryptedReader::new(CipherKind::Aes128Gcm, &key);
    let mut src = SourceBuf::new();
    let mut out = ReadBuf::with_capacity(64);
    for (i, b) in wire.iter().enumerate() {
        src.feed(&[*b]);
        if i + 1 == wire.len() {
            src.close();
        }
        match r.poll_read_decrypted(&mut src, &mut out) {
            Poll::Pending | Poll::Ready(Ok(())) => {}
            Poll::Ready(Err(e)) => panic!("unexpected error {:?}", e),
        }
    }
    match r.poll_read_decrypted(&mut src, &mut out) {
        Poll::Ready(Ok(())) => {}
        _ => panic!("expected clean eof"),
    }
    assert_eq!(out.filled_bytes().as_slice(), b"hithere");
}

#[test]
fn wrong_key_is_rejected() {
    let key = [0u8; 16];
    let salt = [0u8; 16];
    let wire = write_all(CipherKind::Aes128Gcm, &key, &salt, &[b"hello"]);
    let other_key = [1u8; 16];
    match read_all(CipherKind::Aes128Gcm, &other_key, &wire) {
        Err(ProtocolError::DecryptLengthError) => {}
        other => panic!("expected DecryptLengthError, got {:?}", other),
    }
}

#[test]
fn salt_feeds_key_derivation() {
    let key = [0u8; 16];
    let salt = [0u8; 16];
    let wire = write_all(CipherKind::Aes128Gcm, &key, &salt, &[b"hello"]);
    // Replace the cleartext salt: the receiver derives a different subkey
    // and the first tag check fails.
    let mut bad = wire.clone();
    bad[0] ^= 0xFF;
    match read_all(CipherKind::Aes128Gcm, &key, &bad) {
        Err(ProtocolError::DecryptLengthError) => {}
        other => panic!("expected DecryptLengthError, got {:?}", other),
    }
}

#[test]
fn aes256_round_trip() {
    let key = [5u8; 32];
    let salt = [6u8; 32];
    let wire = write_all(CipherKind::Aes256Gcm, &key, &salt, &[b"wide key"]);
    assert_eq!(wire.len(), 32 + 2 + 16 + 8 + 16);
    let got = read_all(CipherKind::Aes256Gcm, &key, &wire).unwrap();
    assert_eq!(got, b"wide key".to_vec());
}

#[test]
fn zero_length_write_round_trips() {
    let key = [0u8; 16];
    let salt = [0u8; 16];
    let wire = write_all(CipherKind::Aes128Gcm, &key, &salt, &[b"", b"x"]);
    let got = read_all(CipherKind::Aes128Gcm, &key, &wire).unwrap();
    assert_eq!(got, b"x".to_vec());
}

#[test]
fn writer_fails_on_closed_sink() {
    let key = [0u8; 16];
    let salt = [0u8; 16];
    let mut w = EncryptedWriter::new(CipherKind::Aes128Gcm, &key, &salt);
    let mut sink = SinkBuf::new(1 << 20);
    sink.close();
    match w.poll_write_encrypted(&mut sink, b"data") {
        Poll::Ready(Err(ProtocolError::IoError(IoErrorKind::UnexpectedEof))) => {}
        _ => panic!("expected UnexpectedEof"),
    }
}

#[test]
fn cipher_kind_parameters() {
    assert_eq!(CipherKind::Aes128Gcm.salt_len(), 16);
    assert_eq!(CipherKind::Aes128Gcm.tag_len(), 16);
    assert_eq!(CipherKind::Aes128Gcm.key_len(), 16);
    assert_eq!(CipherKind::Aes256Gcm.salt_len(), 32);
    assert_eq!(CipherKind::Aes256Gcm.tag_len(), 16);
    assert_eq!(CipherKind::Aes256Gcm.key_len(), 32);
}

#[test]
fn p1_round_trip_random_chunking() {
    let key = [0x5Au8; 16];
    let salt = [0xC3u8; 16];
    let chunks: Vec<Vec<u8>> = vec![
        (0u32..1000).map(|i| (i * 7 % 251) as u8).collect(),
        vec![0u8; 1],
        (0u32..16383).map(|i| (i % 256) as u8).collect(),
        b"tail".to_vec(),
    ];
    let refs: Vec<&[u8]> = chunks.iter().map(|c| c.as_slice()).collect();
    let wire = write_all(CipherKind::Aes128Gcm, &key, &salt, &refs);
    let got = read_all(CipherKind::Aes128Gcm, &key, &wire).unwrap();
    let want: Vec<u8> = chunks.concat();
    assert_eq!(got, want);
}

#[test]
fn error_collapses_to_io_kind() {
    assert_eq!(
        protocol_to_io_kind(ProtocolError::IoError(IoErrorKind::UnexpectedEof)),
        IoErrorKind::UnexpectedEof
    );
    assert_eq!(protocol_to_io_kind(ProtocolError::IoError(IoErrorKind::Other)), IoErrorKind::Other);
    assert_eq!(protocol_to_io_kind(ProtocolError::DecryptDataError), IoErrorKind::Other);
    assert_eq!(protocol_to_io_kind(ProtocolError::DecryptLengthError), IoErrorKind::Other);
    assert_eq!(protocol_to_io_kind(ProtocolError::DataTooLong(0x4000)), IoErrorKind::Other);
    assert_eq!(protocol_to_io_kind(ProtocolError::HeaderTooShort(7, 3)), IoErrorKind::Other);
}
