use hydra_transit::bytes::{u32_from_le, u32_to_le, u64_to_le};
use hydra_transit::crypto::{CryptoError, MorphingCipher, KEY_LEN, TAG_LEN};
use hydra_transit::frame::{open_frame, seal_frame};
use hydra_transit::network::{TunnelError, FRAME_BUF, LEN_LEN, MAX_PAYLOAD};
use hydra_transit::receiver::{ReceiveAction, ReceiveEvent, ReceivePhase, Receiver};
use hydra_transit::sender::{SendAction, SendEvent, SendPhase, Sender};
use std::io;

fn key(seed: u8) -> [u8; KEY_LEN] {
    [seed; KEY_LEN]
}

fn eof() -> io::Error {
    io::Error::new(io::ErrorKind::UnexpectedEof, "early eof")
}

/// Sends `data`, at most `piece` bytes a read.
fn send(k0: [u8; KEY_LEN], data: &[u8], piece: usize) -> (Result<u64, TunnelError>, Vec<u8>) {
    let mut sender = Sender::new(MorphingCipher::new(k0));
    let mut wire: Vec<u8> = Vec::new();
    let mut at: usize = 0;
    let mut action = SendAction::Read;
    loop {
        let event = match action {
            SendAction::Read => {
                let space = sender.space();
                let n = piece.min(space.len()).min(data.len() - at);
                space[..n].copy_from_slice(&data[at..at + n]);
                at += n;
                SendEvent::Read(n)
            }
            SendAction::Write => {
                wire.extend_from_slice(sender.frame());
                SendEvent::Written
            }
            SendAction::Flush => SendEvent::Flushed,
            SendAction::Done(total) => return (Ok(total), wire),
            SendAction::Fail(e) => return (Err(e), wire),
        };
        action = sender.step(event);
    }
}

/// Receives what `wire` carries.
fn receive(k0: [u8; KEY_LEN], wire: &[u8]) -> (Result<u64, TunnelError>, Vec<u8>) {
    let mut receiver = Receiver::new(MorphingCipher::new(k0));
    let mut out: Vec<u8> = Vec::new();
    let mut at: usize = 0;
    let mut action = ReceiveAction::Read;
    loop {
        let event = match action {
            ReceiveAction::Read => {
                let space = receiver.space();
                let n = space.len();
                if wire.len() - at < n {
                    ReceiveEvent::Eof(eof())
                } else {
                    space.copy_from_slice(&wire[at..at + n]);
                    at += n;
                    ReceiveEvent::Filled
                }
            }
            ReceiveAction::Write => {
                out.extend_from_slice(receiver.payload());
                ReceiveEvent::Written
            }
            ReceiveAction::Flush => ReceiveEvent::Flushed,
            ReceiveAction::Done(total) => return (Ok(total), out),
            ReceiveAction::Fail(e) => return (Err(e), out),
        };
        action = receiver.step(event);
    }
}

#[test]
fn wire_roundtrip_ok() {
    let k0 = key(0xA5);
    let data: Vec<u8> = (0..200_000u32).map(|i| (i % 256) as u8).collect();
    let (sent, wire) = send(k0, &data, 5000);
    assert_eq!(sent.unwrap(), data.len() as u64);
    let (rx_res, out) = receive(k0, &wire);
    assert_eq!(rx_res.unwrap(), data.len() as u64);
    assert_eq!(out, data, "il chiaro deve attraversare il tunnel intatto");
}

#[test]
fn wire_wrong_key_fails_closed() {
    let data = vec![0x42u8; 200_000];
    let (_, wire) = send(key(0x11), &data, MAX_PAYLOAD);
    let (rx_res, out) = receive(key(0x22), &wire);
    match rx_res {
        Err(TunnelError::Crypto(CryptoError::Open)) => {}
        other => panic!("atteso fail-closed Crypto(Open), ottenuto: {other:?}"),
    }
    assert!(
        out.is_empty(),
        "con chiave errata NESSUN chiaro deve trapelare (trovati {} byte)",
        out.len()
    );
}

#[test]
fn wire_bitflip_fails_closed() {
    let k0 = key(0x33);
    let mut cipher = MorphingCipher::new(k0);
    let payload = vec![0x55u8; 4096];
    let mut buf = payload.clone();
    let aad = (buf.len() as u32).to_le_bytes();
    let tag = cipher.seal_in_place(&aad, &mut buf).unwrap();

    buf[10] ^= 0x01;

    let mut wire = aad.to_vec();
    wire.extend_from_slice(&buf);
    wire.extend_from_slice(&tag);

    let (rx_res, out) = receive(k0, &wire);
    match rx_res {
        Err(TunnelError::Crypto(CryptoError::Open)) => {}
        other => panic!("atteso fail-closed Crypto(Open), ottenuto: {other:?}"),
    }
    assert!(out.is_empty(), "un payload manomesso non deve produrre output");
}

#[test]
fn frame_is_header_payload_and_tag() {
    let k0 = key(0x01);
    let (sent, wire) = send(k0, b"ciao", 4);
    assert_eq!(sent.unwrap(), 4);
    assert_eq!(wire.len(), LEN_LEN + 4 + TAG_LEN);
    assert_eq!(&wire[..LEN_LEN], &[4, 0, 0, 0]);

    let mut payload = b"ciao".to_vec();
    let tag = MorphingCipher::new(k0)
        .seal_in_place(&[4, 0, 0, 0], &mut payload)
        .unwrap();
    assert_eq!(&wire[LEN_LEN..LEN_LEN + 4], &payload[..]);
    assert_eq!(&wire[LEN_LEN + 4..], &tag[..]);
}

#[test]
fn read_sizes_do_not_change_the_wire() {
    let k0 = key(0x5C);
    let data: Vec<u8> = (0..150_001usize).map(|i| (i % 253) as u8).collect();
    let (_, whole) = send(k0, &data, MAX_PAYLOAD);
    let (_, pieces) = send(k0, &data, 977);
    assert_eq!(whole, pieces);
    assert_eq!(whole.len(), data.len() + 3 * (LEN_LEN + TAG_LEN));
    assert_eq!(&whole[..LEN_LEN], &[0, 0, 1, 0]);
}

#[test]
fn empty_source_sends_nothing() {
    let (sent, wire) = send(key(0x07), &[], 10);
    assert_eq!(sent.unwrap(), 0);
    assert!(wire.is_empty());
    let (got, out) = receive(key(0x07), &wire);
    assert_eq!(got.unwrap(), 0);
    assert!(out.is_empty());
}

#[test]
fn exact_chunk_is_one_frame() {
    let data = vec![0xEEu8; MAX_PAYLOAD];
    let (sent, wire) = send(key(0x08), &data, 4096);
    assert_eq!(sent.unwrap(), MAX_PAYLOAD as u64);
    assert_eq!(wire.len(), FRAME_BUF);
    assert_eq!(receive(key(0x08), &wire).1, data);
}

#[test]
fn plaintext_after_the_end_makes_a_new_frame() {
    let mut sender = Sender::new(MorphingCipher::new(key(0x21)));
    sender.space()[0] = 1;
    assert!(matches!(sender.step(SendEvent::Read(1)), SendAction::Read));
    assert!(matches!(sender.step(SendEvent::Read(0)), SendAction::Write));
    assert_eq!(sender.frame().len(), LEN_LEN + 1 + TAG_LEN);
    assert_eq!(sender.total(), 0);
    assert!(matches!(sender.step(SendEvent::Written), SendAction::Read));
    assert_eq!(sender.total(), 1);
    sender.space()[0] = 2;
    assert!(matches!(sender.step(SendEvent::Read(1)), SendAction::Read));
    assert!(matches!(sender.step(SendEvent::Read(0)), SendAction::Write));
    assert!(matches!(sender.step(SendEvent::Written), SendAction::Read));
    assert!(matches!(sender.step(SendEvent::Read(0)), SendAction::Flush));
    assert_eq!(sender.phase(), SendPhase::Flushing);
    assert!(matches!(sender.step(SendEvent::Flushed), SendAction::Done(2)));
    assert_eq!(sender.phase(), SendPhase::Closed);
}

#[test]
fn space_shrinks_as_the_chunk_fills() {
    let mut sender = Sender::new(MorphingCipher::new(key(0x22)));
    assert_eq!(sender.space().len(), MAX_PAYLOAD);
    sender.step(SendEvent::Read(1000));
    assert_eq!(sender.space().len(), MAX_PAYLOAD - 1000);
    assert!(matches!(
        sender.step(SendEvent::Read(MAX_PAYLOAD - 1000)),
        SendAction::Write
    ));
}

#[test]
fn io_failure_ends_the_sender() {
    let mut sender = Sender::new(MorphingCipher::new(key(0x23)));
    let e = io::Error::new(io::ErrorKind::BrokenPipe, "rotto");
    match sender.step(SendEvent::Failed(e)) {
        SendAction::Fail(TunnelError::Io(e)) => assert_eq!(e.kind(), io::ErrorKind::BrokenPipe),
        other => panic!("unexpected {other:?}"),
    }
    assert_eq!(sender.phase(), SendPhase::Closed);
}

#[test]
fn io_failure_ends_the_receiver() {
    let mut receiver = Receiver::new(MorphingCipher::new(key(0x23)));
    let e = io::Error::new(io::ErrorKind::ConnectionReset, "rotto");
    match receiver.step(ReceiveEvent::Failed(e)) {
        ReceiveAction::Fail(TunnelError::Io(e)) => {
            assert_eq!(e.kind(), io::ErrorKind::ConnectionReset)
        }
        other => panic!("unexpected {other:?}"),
    }
    assert_eq!(receiver.phase(), ReceivePhase::Closed);
}

#[test]
fn header_out_of_range_is_a_protocol_error() {
    for len in [0u32, MAX_PAYLOAD as u32 + 1, u32::MAX] {
        let mut wire = len.to_le_bytes().to_vec();
        wire.extend_from_slice(&[0u8; 64]);
        let (res, out) = receive(key(0x31), &wire);
        match res {
            Err(TunnelError::Protocol(m)) => {
                assert_eq!(m, "lunghezza frame fuori range (0 o > 64 KiB)")
            }
            other => panic!("unexpected {other:?}"),
        }
        assert!(out.is_empty());
    }
}

#[test]
fn cut_inside_the_header_is_a_clean_end() {
    let (_, wire) = send(key(0x32), b"primo", 5);
    let mut cut = wire.clone();
    cut.extend_from_slice(&[5, 0, 0]);
    let (res, out) = receive(key(0x32), &cut);
    assert_eq!(res.unwrap(), 5);
    assert_eq!(out, b"primo");
}

#[test]
fn cut_inside_the_body_is_an_io_error() {
    let (_, wire) = send(key(0x32), b"primo", 5);
    let (res, out) = receive(key(0x32), &wire[..wire.len() - 1]);
    match res {
        Err(TunnelError::Io(e)) => assert_eq!(e.kind(), io::ErrorKind::UnexpectedEof),
        other => panic!("unexpected {other:?}"),
    }
    assert!(out.is_empty());
}

#[test]
fn forged_tag_stops_after_the_chunks_before_it() {
    let data: Vec<u8> = (0..3 * MAX_PAYLOAD).map(|i| (i / 7) as u8).collect();
    let (_, mut wire) = send(key(0x34), &data, MAX_PAYLOAD);
    wire[2 * FRAME_BUF - 1] ^= 0x01;
    let (res, out) = receive(key(0x34), &wire);
    assert!(matches!(res, Err(TunnelError::Crypto(CryptoError::Open))));
    assert_eq!(out, data[..MAX_PAYLOAD]);
}

#[test]
fn swapped_frames_do_not_open() {
    let data = vec![0x10u8; 2 * MAX_PAYLOAD];
    let (_, wire) = send(key(0x35), &data, MAX_PAYLOAD);
    let mut swapped = wire[FRAME_BUF..].to_vec();
    swapped.extend_from_slice(&wire[..FRAME_BUF]);
    let (res, out) = receive(key(0x35), &swapped);
    assert!(matches!(res, Err(TunnelError::Crypto(CryptoError::Open))));
    assert!(out.is_empty());
}

#[test]
fn altered_header_does_not_open() {
    let (_, mut wire) = send(key(0x36), &[7u8; 300], 300);
    wire[0] -= 1;
    let (res, out) = receive(key(0x36), &wire);
    assert!(matches!(res, Err(TunnelError::Crypto(CryptoError::Open))));
    assert!(out.is_empty());
}

#[test]
fn frame_is_sealed_and_opened_in_its_buffer() {
    let mut tx = MorphingCipher::new(key(0x37));
    let mut rx = MorphingCipher::new(key(0x37));
    let mut frame = vec![0xAAu8; FRAME_BUF];
    frame[LEN_LEN..LEN_LEN + 3].copy_from_slice(b"abc");
    assert_eq!(seal_frame(&mut tx, &mut frame, 3), Ok(()));
    assert_eq!(&frame[..LEN_LEN], &[3, 0, 0, 0]);
    assert_eq!(frame[LEN_LEN + 3 + TAG_LEN], 0xAA);
    assert_eq!(open_frame(&mut rx, &mut frame, 3), Ok(()));
    assert_eq!(&frame[LEN_LEN..LEN_LEN + 3], b"abc");
    assert_eq!(tx.key(), rx.key());
    assert_eq!(open_frame(&mut rx, &mut frame, 3), Err(CryptoError::Open));
    assert_eq!(tx.key(), rx.key());
}

#[test]
fn tunnel_errors_have_messages() {
    assert_eq!(
        TunnelError::from(CryptoError::Open).message(),
        "errore crittografico: verifica autenticazione fallita (dato non autentico)"
    );
    assert_eq!(
        TunnelError::Protocol("lunghezza").message(),
        "errore di protocollo: lunghezza"
    );
    let e = io::Error::new(io::ErrorKind::Other, "disco pieno");
    assert_eq!(TunnelError::from(e).message(), "errore I/O: disco pieno");
}

#[test]
fn little_endian_numbers() {
    assert_eq!(u32_to_le(0x0102_0304), [4, 3, 2, 1]);
    assert_eq!(u32_from_le(&[4, 3, 2, 1]), 0x0102_0304);
    assert_eq!(u32_from_le(&u32_to_le(u32::MAX)), u32::MAX);
    assert_eq!(u64_to_le(0x0102_0304_0506_0708), [8, 7, 6, 5, 4, 3, 2, 1]);
}

#[test]
fn different_plaintexts_have_different_wires() {
    let k0 = key(0x44);
    let (_, a) = send(k0, b"uno", 3);
    let (_, b) = send(k0, b"due", 3);
    let (_, c) = send(k0, b"un", 3);
    assert_ne!(a, b);
    assert_ne!(a, c);
}

#[test]
fn empty_read_with_an_empty_buffer_flushes() {
    let mut sender = Sender::new(MorphingCipher::new(key(1)));
    assert!(matches!(sender.step(SendEvent::Read(0)), SendAction::Flush));
    assert_eq!(sender.phase(), SendPhase::Flushing);
    assert!(matches!(sender.step(SendEvent::Flushed), SendAction::Done(0)));
}

#[test]
fn source_that_ends_is_flushed_with_its_last_chunk_sent() {
    let mut sender = Sender::new(MorphingCipher::new(key(1)));
    sender.space()[..3].copy_from_slice(b"abc");
    assert!(matches!(sender.step(SendEvent::Read(3)), SendAction::Read));
    assert!(matches!(sender.step(SendEvent::Read(0)), SendAction::Write));
    assert!(matches!(sender.step(SendEvent::Written), SendAction::Read));
    assert!(matches!(sender.step(SendEvent::Read(0)), SendAction::Flush));
    assert!(matches!(sender.step(SendEvent::Flushed), SendAction::Done(3)));
}

#[test]
fn both_sides_end_with_the_length() {
    for len in [0usize, 1, MAX_PAYLOAD - 1, MAX_PAYLOAD, MAX_PAYLOAD + 1, 2 * MAX_PAYLOAD + 7] {
        let data: Vec<u8> = (0..len).map(|i| (i % 251) as u8).collect();
        let (sent, wire) = send(key(9), &data, 4099);
        assert_eq!(sent.unwrap(), len as u64);
        let (got, out) = receive(key(9), &wire);
        assert_eq!(got.unwrap(), len as u64);
        assert_eq!(out, data);
    }
}
