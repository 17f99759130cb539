//! What the library takes from `chacha20poly1305` and `blake3`.
//!
//! Nothing in this file is proved: each function hands its arguments to the
//! outside crate, and its contract says what that crate does with them.
use chacha20poly1305::aead::{AeadInPlace, KeyInit};
use chacha20poly1305::{ChaCha20Poly1305, Key, Nonce, Tag};
use vstd::prelude::*;

verus! {

/// Byte `index` of the ChaCha20 keystream that encrypts a message under `key`
/// and `nonce` (the keystream from block 1 on; block 0 keys the authenticator).
pub uninterp spec fn chacha20_keystream(key: Seq<u8>, nonce: Seq<u8>, index: nat) -> u8;

/// The Poly1305 tag over `aad` and `ciphertext` and their lengths, with the
/// one-time key that ChaCha20 gives under `key` and `nonce`.
pub uninterp spec fn poly1305_tag(
    key: Seq<u8>,
    nonce: Seq<u8>,
    aad: Seq<u8>,
    ciphertext: Seq<u8>,
) -> [u8; 16];

/// The BLAKE3 digest of `input`.
pub uninterp spec fn blake3_digest(input: Seq<u8>) -> [u8; 32];

/// A message of `len` bytes has fewer than `u32::MAX` full 64-byte blocks: the
/// cipher accepts it.
pub open spec fn within_block_limit(len: nat) -> bool {
    len < 64 * 0xffff_ffff
}

/// A message of `len` bytes is either refused, or needs at most
/// `u32::MAX - 1` keystream blocks, its last partial one counted. In between
/// lie 63 lengths just below 256 GiB that pass the cipher's own length test and
/// then run out of keystream, which makes it panic.
pub open spec fn within_keystream(len: nat) -> bool {
    within_block_limit(len) ==> len <= 64 * 0xffff_fffe
}

/// `chacha20poly1305::Error`, which carries no information. Nothing is claimed
/// of it.
#[verifier::external_type_specification]
#[verifier::external_body]
pub struct ExAeadError(chacha20poly1305::Error);

/// `AeadInPlace::encrypt_in_place_detached` of `ChaCha20Poly1305`: XORs the
/// keystream onto `buf` and returns the tag over `aad` and the new content of
/// `buf`. It fails exactly on a message over the block limit, and leaves that
/// message as it was.
#[verifier::external_body]
pub(crate) fn aead_encrypt(key: &[u8; 32], nonce: &[u8; 12], aad: &[u8], buf: &mut [u8]) -> (r:
    Result<[u8; 16], chacha20poly1305::Error>)
    requires
        within_keystream(old(buf)@.len()),
    ensures
        r is Ok <==> within_block_limit(old(buf)@.len()),
        final(buf)@.len() == old(buf)@.len(),
        r is Ok ==> forall|i: int|
            0 <= i < old(buf)@.len() ==> #[trigger] final(buf)@[i] == old(buf)@[i]
                ^ chacha20_keystream(key@, nonce@, i as nat),
        r matches Ok(tag) ==> tag@ == poly1305_tag(key@, nonce@, aad@, final(buf)@)@,
        r is Err ==> final(buf)@ == old(buf)@,
{
    let cipher = ChaCha20Poly1305::new(Key::from_slice(key));
    let tag = cipher.encrypt_in_place_detached(Nonce::from_slice(nonce), aad, buf)?;
    Ok(tag.into())
}

/// `AeadInPlace::decrypt_in_place_detached` of `ChaCha20Poly1305`: succeeds
/// exactly if the message is within the block limit and `tag` is the tag over
/// `aad` and `buf`, and then XORs the keystream onto `buf`. When it fails it
/// leaves `buf` as it was. It checks the tag before it asks for keystream, so a
/// message with a wrong tag may have any length.
#[verifier::external_body]
pub(crate) fn aead_decrypt(
    key: &[u8; 32],
    nonce: &[u8; 12],
    aad: &[u8],
    buf: &mut [u8],
    tag: &[u8; 16],
) -> (r: Result<(), chacha20poly1305::Error>)
    requires
        within_keystream(old(buf)@.len()) || tag@ != poly1305_tag(
            key@,
            nonce@,
            aad@,
            old(buf)@,
        )@,
    ensures
        r is Ok <==> within_block_limit(old(buf)@.len()) && tag@ == poly1305_tag(
            key@,
            nonce@,
            aad@,
            old(buf)@,
        )@,
        final(buf)@.len() == old(buf)@.len(),
        r is Ok ==> forall|i: int|
            0 <= i < old(buf)@.len() ==> #[trigger] final(buf)@[i] == old(buf)@[i]
                ^ chacha20_keystream(key@, nonce@, i as nat),
        r is Err ==> final(buf)@ == old(buf)@,
{
    let cipher = ChaCha20Poly1305::new(Key::from_slice(key));
    cipher.decrypt_in_place_detached(Nonce::from_slice(nonce), aad, buf, Tag::from_slice(tag))
}

/// `blake3::hash`: the digest of `input`, in BLAKE3's default mode.
#[verifier::external_body]
pub(crate) fn blake3_hash(input: &[u8]) -> (r: [u8; 32])
    ensures
        r@ == blake3_digest(input@)@,
{
    *blake3::hash(input).as_bytes()
}

} // verus!
