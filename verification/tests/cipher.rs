use chacha20poly1305::aead::{AeadInPlace, KeyInit};
use chacha20poly1305::{ChaCha20Poly1305, Key, Nonce};
use hydra_transit::crypto::{
    CryptoError, MorphingCipher, CHUNK_SIZE, KEY_LEN, NONCE_LEN, TAG_LEN,
};

fn k0() -> [u8; KEY_LEN] {
    let mut k = [0u8; KEY_LEN];
    for (i, b) in k.iter_mut().enumerate() {
        *b = (i as u8).wrapping_mul(7).wrapping_add(13);
    }
    k
}

const AAD: &[u8] = &[0x00, 0x01, 0x00, 0x00];

#[test]
fn roundtrip_single_chunk() {
    let mut tx = MorphingCipher::new(k0());
    let mut rx = MorphingCipher::new(k0());

    let plain = b"Attrahere: dato sensibile da tunnelizzare".to_vec();
    let mut buf = plain.clone();

    let tag = tx.seal_in_place(AAD, &mut buf).unwrap();
    assert_ne!(buf, plain, "il buffer deve risultare cifrato");

    rx.open_in_place(AAD, &mut buf, &tag).unwrap();
    assert_eq!(buf, plain, "roundtrip deve restituire il chiaro originale");
}

#[test]
fn key_chain_is_mirror_and_deterministic() {
    let mut a = MorphingCipher::new(k0());
    let mut b = MorphingCipher::new(k0());

    for n in 0..64u32 {
        let mut buf_a = vec![n as u8; 1024];
        let plain = buf_a.clone();
        let aad = n.to_le_bytes();

        let tag = a.seal_in_place(&aad, &mut buf_a).unwrap();
        let mut buf_b = buf_a.clone();
        b.open_in_place(&aad, &mut buf_b, &tag).unwrap();

        assert_eq!(buf_b, plain, "chunk {n}: decifratura corretta");
        assert_eq!(a.key(), b.key(), "chunk {n}: chiavi speculari dopo il ratchet");
        assert_eq!(a.counter(), b.counter(), "chunk {n}: contatori allineati");
        assert_eq!(a.counter(), (n + 1) as u64, "il contatore deve incrementare");
    }
}

#[test]
fn key_actually_mutates_each_chunk() {
    let mut c = MorphingCipher::new(k0());
    let mut seen = std::collections::HashSet::new();
    seen.insert(c.key());
    for _ in 0..16 {
        let mut buf = vec![0u8; 256];
        c.seal_in_place(AAD, &mut buf).unwrap();
        assert!(seen.insert(c.key()), "ogni chunk deve produrre una chiave nuova");
    }
}

#[test]
fn tampered_tag_fails_and_does_not_ratchet() {
    let mut tx = MorphingCipher::new(k0());
    let mut rx = MorphingCipher::new(k0());

    let mut buf = b"payload integro".to_vec();
    let mut tag = tx.seal_in_place(AAD, &mut buf).unwrap();
    tag[0] ^= 0x01;

    let key_before = rx.key();
    let counter_before = rx.counter();
    let err = rx.open_in_place(AAD, &mut buf, &tag).unwrap_err();

    assert_eq!(err, CryptoError::Open);
    assert_eq!(rx.key(), key_before, "un tag falso non deve far avanzare la chiave");
    assert_eq!(rx.counter(), counter_before, "ne' il contatore");
}

#[test]
fn tampered_aad_fails() {
    let mut tx = MorphingCipher::new(k0());
    let mut rx = MorphingCipher::new(k0());

    let mut buf = b"payload".to_vec();
    let good_aad = 7u32.to_le_bytes();
    let bad_aad = 9u32.to_le_bytes();
    let tag = tx.seal_in_place(&good_aad, &mut buf).unwrap();

    assert_eq!(
        rx.open_in_place(&bad_aad, &mut buf, &tag).unwrap_err(),
        CryptoError::Open
    );
}

#[test]
fn desync_breaks_the_chain() {
    let mut tx = MorphingCipher::new(k0());
    let mut rx = MorphingCipher::new(k0());

    let mut c0 = b"primo chunk".to_vec();
    let _t0 = tx.seal_in_place(AAD, &mut c0).unwrap();

    let mut c1 = b"secondo chunk".to_vec();
    let t1 = tx.seal_in_place(AAD, &mut c1).unwrap();

    assert_eq!(
        rx.open_in_place(AAD, &mut c1, &t1).unwrap_err(),
        CryptoError::Open
    );
}

#[test]
fn full_size_chunk_roundtrip() {
    let mut tx = MorphingCipher::new(k0());
    let mut rx = MorphingCipher::new(k0());

    let plain: Vec<u8> = (0..CHUNK_SIZE).map(|i| (i % 251) as u8).collect();
    let mut buf = plain.clone();
    let aad = (CHUNK_SIZE as u32).to_le_bytes();

    let tag = tx.seal_in_place(&aad, &mut buf).unwrap();
    rx.open_in_place(&aad, &mut buf, &tag).unwrap();
    assert_eq!(buf, plain, "roundtrip su chunk pieno da 64 KiB");
}

#[test]
fn new_cipher_holds_the_key_and_counts_from_zero() {
    let c = MorphingCipher::new(k0());
    assert_eq!(c.key(), k0());
    assert_eq!(c.counter(), 0);
    assert_eq!(c.nonce(), [0u8; NONCE_LEN]);
}

#[test]
fn nonce_is_four_zeros_and_the_counter() {
    let mut c = MorphingCipher::new(k0());
    for _ in 0..0x0102 {
        c.seal_in_place(AAD, &mut []).unwrap();
    }
    assert_eq!(c.counter(), 0x0102);
    assert_eq!(c.nonce(), [0, 0, 0, 0, 0x02, 0x01, 0, 0, 0, 0, 0, 0]);
}

#[test]
fn seal_is_chacha20poly1305_under_key_and_counter() {
    let mut c = MorphingCipher::new(k0());
    c.seal_in_place(AAD, &mut [1, 2, 3]).unwrap();
    let key = c.key();
    let nonce = c.nonce();
    assert_eq!(nonce[4], 1);

    let mut ours = b"un payload qualunque".to_vec();
    let tag = c.seal_in_place(AAD, &mut ours).unwrap();

    let mut theirs = b"un payload qualunque".to_vec();
    let expected = ChaCha20Poly1305::new(Key::from_slice(&key))
        .encrypt_in_place_detached(Nonce::from_slice(&nonce), AAD, &mut theirs)
        .unwrap();
    assert_eq!(ours, theirs);
    assert_eq!(&tag[..], expected.as_slice());
}

#[test]
fn next_key_is_blake3_of_key_and_tag() {
    let mut c = MorphingCipher::new(k0());
    let tag = c.seal_in_place(AAD, &mut [9; 40]).unwrap();
    let mut hasher = blake3::Hasher::new();
    hasher.update(&k0());
    hasher.update(&tag);
    assert_eq!(c.key(), *hasher.finalize().as_bytes());
    assert_eq!(c.counter(), 1);
}

#[test]
fn masking_twice_gives_the_data_back() {
    let mut a = MorphingCipher::new(k0());
    let mut b = MorphingCipher::new(k0());
    let mut buf = b"due volte".to_vec();
    a.seal_in_place(AAD, &mut buf).unwrap();
    b.seal_in_place(AAD, &mut buf).unwrap();
    assert_eq!(buf, b"due volte");
}

#[test]
fn failed_open_leaves_the_buffer_alone() {
    let mut tx = MorphingCipher::new(k0());
    let mut rx = MorphingCipher::new(k0());
    let mut buf = b"intatto".to_vec();
    let tag = tx.seal_in_place(AAD, &mut buf).unwrap();
    let sealed = buf.clone();

    let mut forged = tag;
    forged[TAG_LEN - 1] ^= 0x80;
    assert_eq!(rx.open_in_place(AAD, &mut buf, &forged), Err(CryptoError::Open));
    assert_eq!(buf, sealed);

    assert_eq!(rx.open_in_place(AAD, &mut buf, &tag), Ok(()));
    assert_eq!(buf, b"intatto");
    assert_eq!(rx.key(), tx.key());
}

#[test]
fn empty_message_is_still_authenticated() {
    let mut tx = MorphingCipher::new(k0());
    let mut rx = MorphingCipher::new(k0());
    let tag = tx.seal_in_place(AAD, &mut []).unwrap();
    assert_ne!(tag, [0u8; TAG_LEN]);
    assert_eq!(rx.open_in_place(&[], &mut [], &tag), Err(CryptoError::Open));
    assert_eq!(rx.open_in_place(AAD, &mut [], &tag), Ok(()));
}

#[test]
fn crypto_errors_have_messages() {
    assert_eq!(CryptoError::Seal.message(), "cifratura in-place fallita");
    assert_eq!(
        CryptoError::Open.message(),
        "verifica autenticazione fallita (dato non autentico)"
    );
}

#[test]
fn what_opens_seals_back_to_the_same_bytes() {
    let mut tx = MorphingCipher::new(k0());
    let mut rx = MorphingCipher::new(k0());
    let mut again = MorphingCipher::new(k0());
    let mut buf = b"andata e ritorno".to_vec();
    let tag = tx.seal_in_place(AAD, &mut buf).unwrap();
    let sealed = buf.clone();
    rx.open_in_place(AAD, &mut buf, &tag).unwrap();
    assert_eq!(again.seal_in_place(AAD, &mut buf), Ok(tag));
    assert_eq!(buf, sealed);
}

#[test]
fn nonces_do_not_repeat() {
    let mut c = MorphingCipher::new(k0());
    let mut seen = std::collections::HashSet::new();
    for _ in 0..600 {
        assert!(seen.insert(c.nonce()));
        c.seal_in_place(AAD, &mut [0; 8]).unwrap();
    }
}

#[test]
fn chain_is_blake3_over_the_tags() {
    let mut tx = MorphingCipher::new(k0());
    let mut expected = k0();
    for n in 0..10u8 {
        let mut buf = vec![n; n as usize * 100];
        let tag = tx.seal_in_place(&[n], &mut buf).unwrap();
        let mut input = expected.to_vec();
        input.extend_from_slice(&tag);
        expected = *blake3::hash(&input).as_bytes();
        assert_eq!(tx.key(), expected);
        assert_eq!(tx.counter(), n as u64 + 1);
    }
}

#[test]
fn failed_opens_do_not_desynchronise() {
    let mut tx = MorphingCipher::new(k0());
    let mut rx = MorphingCipher::new(k0());
    for n in 0..5u8 {
        let plain = vec![n; 300];
        let mut sealed = plain.clone();
        let tag = tx.seal_in_place(AAD, &mut sealed).unwrap();
        for byte in 0..TAG_LEN {
            let mut forged = tag;
            forged[byte] ^= 1;
            assert!(rx.open_in_place(AAD, &mut sealed, &forged).is_err());
        }
        assert!(rx.open_in_place(&[1], &mut sealed, &tag).is_err());
        rx.open_in_place(AAD, &mut sealed, &tag).unwrap();
        assert_eq!(sealed, plain);
        assert_eq!(rx.key(), tx.key());
        assert_eq!(rx.counter(), tx.counter());
    }
}
