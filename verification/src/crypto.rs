//! The cipher and its key chain.
//!
//! A session starts from a shared key `K_0`. Each chunk is sealed under the
//! current key and a nonce made of a 64-bit counter; after a chunk was sealed,
//! or opened with a valid tag, the key becomes `BLAKE3(key || tag)` and the
//! counter moves on. A chunk that does not open moves nothing.
use crate::bytes;
use crate::primitives;
use vstd::prelude::*;

verus! {

/// Length of the symmetric key: ChaCha20's, and BLAKE3's output.
pub const KEY_LEN: usize = 32;

/// Length of the Poly1305 authentication tag.
pub const TAG_LEN: usize = 16;

/// Length of the ChaCha20-Poly1305 nonce (IETF, 96 bits).
pub const NONCE_LEN: usize = 12;

/// Size of a full chunk of plaintext: 64 KiB.
pub const CHUNK_SIZE: usize = 64 * 1024;

/// What can go wrong in the cipher. It does not tell where a check failed.
#[derive(Debug, PartialEq, Eq, Structural)]
pub enum CryptoError {
    /// The message is too long for the cipher.
    Seal,
    /// The tag does not match: the data is not authentic.
    Open,
}

impl CryptoError {
    /// The message shown for the error.
    pub open spec fn text(self) -> Seq<char> {
        match self {
            CryptoError::Seal => "cifratura in-place fallita"@,
            CryptoError::Open => "verifica autenticazione fallita (dato non autentico)"@,
        }
    }

    /// Renders the error.
    pub fn message(&self) -> (r: String)
        ensures
            r@ == self.text(),
            *self == CryptoError::Seal ==> r@ == "cifratura in-place fallita"@,
            *self == CryptoError::Open ==> r@
                == "verifica autenticazione fallita (dato non autentico)"@,
    {
        match self {
            CryptoError::Seal => "cifratura in-place fallita".to_owned(),
            CryptoError::Open => "verifica autenticazione fallita (dato non autentico)".to_owned(),
        }
    }
}

/// One link of the key chain: the key of the next chunk and the number of
/// chunks that came before it, modulo 2^64.
#[verifier::ext_equal]
pub struct ChainState {
    pub key: Seq<u8>,
    pub counter: u64,
}

/// The nonce of chunk number `counter`: four zero bytes, then the counter.
pub open spec fn nonce_of(counter: u64) -> Seq<u8> {
    seq![0u8, 0u8, 0u8, 0u8] + bytes::le_bytes(counter as nat, 8)
}

impl ChainState {
    /// The chain at the start of a session with the key `k0`.
    pub open spec fn start(k0: Seq<u8>) -> ChainState {
        ChainState { key: k0, counter: 0 }
    }

    /// `data` with this link's keystream XORed onto it: the ciphertext of a
    /// plaintext, and the plaintext of a ciphertext.
    pub open spec fn masked(self, data: Seq<u8>) -> Seq<u8> {
        Seq::new(
            data.len(),
            |i: int|
                data[i] ^ primitives::chacha20_keystream(
                    self.key,
                    nonce_of(self.counter),
                    i as nat,
                ),
        )
    }

    /// The tag that this link puts on a ciphertext.
    pub open spec fn tag(self, aad: Seq<u8>, ciphertext: Seq<u8>) -> Seq<u8> {
        primitives::poly1305_tag(self.key, nonce_of(self.counter), aad, ciphertext)@
    }

    /// The link after a chunk with the tag `tag`.
    pub open spec fn next(self, tag: Seq<u8>) -> ChainState {
        ChainState {
            key: primitives::blake3_digest(self.key + tag)@,
            counter: if self.counter == u64::MAX {
                0
            } else {
                (self.counter + 1) as u64
            },
        }
    }

    /// What opening `ciphertext` under this link gives: the plaintext if `tag`
    /// is authentic, nothing otherwise.
    pub open spec fn opened(self, aad: Seq<u8>, ciphertext: Seq<u8>, tag: Seq<u8>) -> Option<
        Seq<u8>,
    > {
        if primitives::within_block_limit(ciphertext.len()) && tag == self.tag(aad, ciphertext) {
            Some(self.masked(ciphertext))
        } else {
            None
        }
    }

    /// The link after an attempt to open `ciphertext`: the next one if it opens,
    /// this one if it does not.
    pub open spec fn after_open(self, aad: Seq<u8>, ciphertext: Seq<u8>, tag: Seq<u8>) -> ChainState {
        if self.opened(aad, ciphertext, tag) is Some {
            self.next(tag)
        } else {
            self
        }
    }
}

/// The stateful cipher of one direction of a session. Sender and receiver start
/// from the same key and, going over the same chunks in the same order, hold
/// the same key at every step.
pub struct MorphingCipher {
    key: [u8; KEY_LEN],
    counter: u64,
}

impl View for MorphingCipher {
    type V = ChainState;

    closed spec fn view(&self) -> ChainState {
        ChainState { key: self.key@, counter: self.counter }
    }
}

impl MorphingCipher {
    /// Starts the chain from the key `k0`.
    pub fn new(k0: [u8; KEY_LEN]) -> (r: Self)
        ensures
            r@ == ChainState::start(k0@),
            r@.key == k0@,
            r@.counter == 0,
    {
        MorphingCipher { key: k0, counter: 0 }
    }

    /// The key of the next chunk.
    pub fn key(&self) -> (r: [u8; KEY_LEN])
        ensures
            r@ == self@.key,
    {
        self.key
    }

    /// The number of chunks processed so far, modulo 2^64.
    pub fn counter(&self) -> (r: u64)
        ensures
            r == self@.counter,
    {
        self.counter
    }

    /// The nonce of the next chunk.
    pub fn nonce(&self) -> (r: [u8; NONCE_LEN])
        ensures
            r@ == nonce_of(self@.counter),
            r@[0] == 0 && r@[1] == 0 && r@[2] == 0 && r@[3] == 0,
            r@[4] + 0x100 * r@[5] + 0x1_0000 * r@[6] + 0x100_0000 * r@[7] + 0x1_0000_0000 * r@[8]
                + 0x100_0000_0000 * r@[9] + 0x1_0000_0000_0000 * r@[10] + 0x100_0000_0000_0000
                * r@[11] == self@.counter,
    {
        let c: [u8; 8] = bytes::u64_to_le(self.counter);
        let r: [u8; NONCE_LEN] = [0, 0, 0, 0, c[0], c[1], c[2], c[3], c[4], c[5], c[6], c[7]];
        assert(r@ =~= nonce_of(self@.counter));
        r
    }

    /// Moves the chain past a chunk with the tag `tag`.
    fn ratchet(&mut self, tag: &[u8; TAG_LEN])
        ensures
            final(self)@ == old(self)@.next(tag@),
            final(self)@.key == primitives::blake3_digest(old(self)@.key + tag@)@,
            final(self)@.counter as int == (old(self)@.counter + 1) % 0x1_0000_0000_0000_0000,
    {
        let mut input: [u8; 48] = [0u8; 48];
        let mut i: usize = 0;
        while i < KEY_LEN
            invariant
                i <= KEY_LEN,
                forall|j: int| 0 <= j < i ==> input@[j] == self.key@[j],
            decreases KEY_LEN - i,
        {
            input[i] = self.key[i];
            i = i + 1;
        }
        i = 0;
        while i < TAG_LEN
            invariant
                i <= TAG_LEN,
                forall|j: int| 0 <= j < KEY_LEN ==> input@[j] == self.key@[j],
                forall|j: int| 0 <= j < i ==> input@[KEY_LEN + j] == tag@[j],
            decreases TAG_LEN - i,
        {
            input[KEY_LEN + i] = tag[i];
            i = i + 1;
        }
        assert(input@ =~= self.key@ + tag@) by {
            assert forall|j: int| KEY_LEN <= j < 48 implies input@[j] == tag@[j - KEY_LEN] by {
                assert(input@[KEY_LEN + (j - KEY_LEN)] == tag@[j - KEY_LEN]);
            }
        }
        self.key = primitives::blake3_hash(&input);
        self.counter = self.counter.wrapping_add(1);
    }

    /// Seals `buf` in place under the current key and moves the chain on.
    /// `aad` is authenticated but not encrypted. Fails exactly on a message over
    /// the cipher's block limit, and then changes nothing.
    pub fn seal_in_place(&mut self, aad: &[u8], buf: &mut [u8]) -> (r: Result<
        [u8; TAG_LEN],
        CryptoError,
    >)
        requires
            primitives::within_keystream(old(buf)@.len()),
        ensures
            r is Ok <==> primitives::within_block_limit(old(buf)@.len()),
            r matches Ok(tag) ==> {
                &&& final(buf)@ == old(self)@.masked(old(buf)@)
                &&& tag@ == old(self)@.tag(aad@, final(buf)@)
                &&& final(self)@ == old(self)@.next(tag@)
            },
            r matches Ok(tag) ==> {
                &&& final(buf)@.len() == old(buf)@.len()
                &&& forall|i: int|
                    0 <= i < old(buf)@.len() ==> #[trigger] final(buf)@[i] == old(buf)@[i]
                        ^ primitives::chacha20_keystream(
                        old(self)@.key,
                        nonce_of(old(self)@.counter),
                        i as nat,
                    )
                &&& tag@ == primitives::poly1305_tag(
                    old(self)@.key,
                    nonce_of(old(self)@.counter),
                    aad@,
                    final(buf)@,
                )@
                &&& final(self)@.key == primitives::blake3_digest(old(self)@.key + tag@)@
                &&& final(self)@.counter as int == (old(self)@.counter + 1)
                    % 0x1_0000_0000_0000_0000
            },
            r matches Err(e) ==> {
                &&& e == CryptoError::Seal
                &&& final(buf)@ == old(buf)@
                &&& final(self)@ == old(self)@
            },
    {
        let nonce: [u8; NONCE_LEN] = self.nonce();
        match primitives::aead_encrypt(&self.key, &nonce, aad, buf) {
            Ok(tag) => {
                assert(buf@ =~= old(self)@.masked(old(buf)@));
                self.ratchet(&tag);
                Ok(tag)
            },
            Err(_) => Err(CryptoError::Seal),
        }
    }

    /// Opens `buf` in place under the current key, if `tag` is the tag over
    /// `aad` and `buf`, and moves the chain on. Otherwise it fails and changes
    /// nothing: neither the chain nor `buf`. Only an authentic message needs
    /// keystream, so only for one does the length matter.
    pub fn open_in_place(&mut self, aad: &[u8], buf: &mut [u8], tag: &[u8; TAG_LEN]) -> (r: Result<
        (),
        CryptoError,
    >)
        requires
            primitives::within_keystream(old(buf)@.len()) || tag@ != old(self)@.tag(
                aad@,
                old(buf)@,
            ),
        ensures
            r is Ok <==> old(self)@.opened(aad@, old(buf)@, tag@) is Some,
            r is Ok ==> Some(final(buf)@) == old(self)@.opened(aad@, old(buf)@, tag@),
            r matches Err(e) ==> {
                &&& e == CryptoError::Open
                &&& final(buf)@ == old(buf)@
                &&& final(self)@ == old(self)@
            },
            final(self)@ == old(self)@.after_open(aad@, old(buf)@, tag@),
            r is Ok <==> old(buf)@.len() < 64 * 0xffff_ffff && tag@ == primitives::poly1305_tag(
                old(self)@.key,
                nonce_of(old(self)@.counter),
                aad@,
                old(buf)@,
            )@,
            r is Ok ==> {
                &&& final(buf)@.len() == old(buf)@.len()
                &&& forall|i: int|
                    0 <= i < old(buf)@.len() ==> #[trigger] final(buf)@[i] == old(buf)@[i]
                        ^ primitives::chacha20_keystream(
                        old(self)@.key,
                        nonce_of(old(self)@.counter),
                        i as nat,
                    )
                &&& final(self)@.key == primitives::blake3_digest(old(self)@.key + tag@)@
                &&& final(self)@.counter as int == (old(self)@.counter + 1)
                    % 0x1_0000_0000_0000_0000
            },
    {
        let nonce: [u8; NONCE_LEN] = self.nonce();
        match primitives::aead_decrypt(&self.key, &nonce, aad, buf, tag) {
            Ok(_) => {
                assert(buf@ =~= old(self)@.masked(old(buf)@));
                self.ratchet(tag);
                Ok(())
            },
            Err(_) => Err(CryptoError::Open),
        }
    }
}

/// The sizes that both nodes agree on: a key of 32 bytes, a tag of 16, a nonce
/// of 12, and chunks of 64 KiB.
pub proof fn law_sizes()
    ensures
        KEY_LEN == 32,
        TAG_LEN == 16,
        NONCE_LEN == 12,
        CHUNK_SIZE == 65536,
{
}

/// A session starts from the given key and counts from zero.
pub proof fn law_start(k0: Seq<u8>)
    ensures
        ChainState::start(k0).key == k0,
        ChainState::start(k0).counter == 0,
{
}

/// The nonce of every chunk has 12 bytes. The first four are zero, and the
/// other eight, read as a little-endian number, are the counter.
pub proof fn law_nonce_layout(counter: u64)
    ensures
        ({
            let n = nonce_of(counter);
            &&& n.len() == 12
            &&& n[0] == 0 && n[1] == 0 && n[2] == 0 && n[3] == 0
            &&& n[4] + 0x100 * n[5] + 0x1_0000 * n[6] + 0x100_0000 * n[7] + 0x1_0000_0000 * n[8]
                + 0x100_0000_0000 * n[9] + 0x1_0000_0000_0000 * n[10] + 0x100_0000_0000_0000
                * n[11] == counter
        }),
{
    let n = nonce_of(counter);
    bytes::law_eight_bytes(counter);
    let b = bytes::le_bytes(counter as nat, 8);
    assert forall|i: int| 0 <= i < 8 implies n[4 + i] == #[trigger] b[i] by {}
    assert(n[4] == b[0] && n[5] == b[1] && n[6] == b[2] && n[7] == b[3]);
    assert(n[8] == b[4] && n[9] == b[5] && n[10] == b[6] && n[11] == b[7]);
}

/// No other 12 bytes have the layout of the nonce of `counter`.
pub proof fn law_layout_determines_nonce(counter: u64, nonce: Seq<u8>)
    requires
        nonce.len() == 12,
        nonce[0] == 0 && nonce[1] == 0 && nonce[2] == 0 && nonce[3] == 0,
        nonce[4] + 0x100 * nonce[5] + 0x1_0000 * nonce[6] + 0x100_0000 * nonce[7] + 0x1_0000_0000
            * nonce[8] + 0x100_0000_0000 * nonce[9] + 0x1_0000_0000_0000 * nonce[10]
            + 0x100_0000_0000_0000 * nonce[11] == counter,
    ensures
        nonce == nonce_of(counter),
{
    let b = nonce.skip(4);
    bytes::law_eight_bytes_read(b);
    bytes::lemma_le_value_writes_back(b);
    assert(b == bytes::le_bytes(counter as nat, 8));
    assert(nonce =~= seq![0u8, 0u8, 0u8, 0u8] + b);
}

/// Sealing encrypts every byte of the plaintext, whatever its length: byte `i`
/// of the ciphertext is byte `i` of the plaintext XOR byte `i` of the keystream
/// under the current key and the nonce of the counter. The tag is the one over
/// the given associated data and the whole ciphertext.
pub proof fn law_seal_covers_everything(
    s: ChainState,
    nonce: Seq<u8>,
    aad: Seq<u8>,
    plain: Seq<u8>,
)
    requires
        nonce.len() == 12,
        nonce[0] == 0 && nonce[1] == 0 && nonce[2] == 0 && nonce[3] == 0,
        nonce[4] + 0x100 * nonce[5] + 0x1_0000 * nonce[6] + 0x100_0000 * nonce[7] + 0x1_0000_0000
            * nonce[8] + 0x100_0000_0000 * nonce[9] + 0x1_0000_0000_0000 * nonce[10]
            + 0x100_0000_0000_0000 * nonce[11] == s.counter,
    ensures
        s.masked(plain).len() == plain.len(),
        forall|i: int|
            0 <= i < plain.len() ==> #[trigger] s.masked(plain)[i] == plain[i]
                ^ primitives::chacha20_keystream(s.key, nonce, i as nat),
        s.tag(aad, s.masked(plain)) == primitives::poly1305_tag(
            s.key,
            nonce,
            aad,
            s.masked(plain),
        )@,
{
    law_layout_determines_nonce(s.counter, nonce);
}

/// Opening succeeds exactly on a ciphertext within the block limit, of any
/// length, with the tag over the given associated data and that ciphertext. It
/// gives every byte of the ciphertext XOR the keystream, and moves the chain on.
/// Otherwise the chain stays where it is.
pub proof fn law_open_checks_everything(
    s: ChainState,
    nonce: Seq<u8>,
    aad: Seq<u8>,
    ciphertext: Seq<u8>,
    tag: Seq<u8>,
)
    requires
        nonce.len() == 12,
        nonce[0] == 0 && nonce[1] == 0 && nonce[2] == 0 && nonce[3] == 0,
        nonce[4] + 0x100 * nonce[5] + 0x1_0000 * nonce[6] + 0x100_0000 * nonce[7] + 0x1_0000_0000
            * nonce[8] + 0x100_0000_0000 * nonce[9] + 0x1_0000_0000_0000 * nonce[10]
            + 0x100_0000_0000_0000 * nonce[11] == s.counter,
    ensures
        s.opened(aad, ciphertext, tag) is Some <==> {
            &&& ciphertext.len() < 64 * 0xffff_ffff
            &&& tag == primitives::poly1305_tag(s.key, nonce, aad, ciphertext)@
        },
        s.opened(aad, ciphertext, tag) matches Some(plain) ==> {
            &&& plain.len() == ciphertext.len()
            &&& forall|i: int|
                0 <= i < plain.len() ==> #[trigger] plain[i] == ciphertext[i]
                    ^ primitives::chacha20_keystream(s.key, nonce, i as nat)
            &&& s.after_open(aad, ciphertext, tag).key == primitives::blake3_digest(s.key + tag)@
            &&& s.after_open(aad, ciphertext, tag).counter as int == (s.counter + 1)
                % 0x1_0000_0000_0000_0000
        },
        s.opened(aad, ciphertext, tag) is None ==> s.after_open(aad, ciphertext, tag) == s,
{
    law_layout_determines_nonce(s.counter, nonce);
}

/// The tag that a link puts on a ciphertext is over the given associated data
/// and that ciphertext, whatever their lengths.
pub proof fn law_tag_covers_everything(
    s: ChainState,
    nonce: Seq<u8>,
    aad: Seq<u8>,
    ciphertext: Seq<u8>,
)
    requires
        nonce.len() == 12,
        nonce[0] == 0 && nonce[1] == 0 && nonce[2] == 0 && nonce[3] == 0,
        nonce[4] + 0x100 * nonce[5] + 0x1_0000 * nonce[6] + 0x100_0000 * nonce[7] + 0x1_0000_0000
            * nonce[8] + 0x100_0000_0000 * nonce[9] + 0x1_0000_0000_0000 * nonce[10]
            + 0x100_0000_0000_0000 * nonce[11] == s.counter,
    ensures
        s.tag(aad, ciphertext) == primitives::poly1305_tag(s.key, nonce, aad, ciphertext)@,
{
    law_layout_determines_nonce(s.counter, nonce);
}

/// The messages that the cipher takes on: all but the 63 lengths on which it
/// runs out of keystream. Those from the block limit on are refused.
pub proof fn law_cipher_limits(len: nat)
    ensures
        primitives::within_block_limit(len) <==> len < 64 * 0xffff_ffff,
        primitives::within_keystream(len) <==> len <= 64 * 0xffff_fffe || len >= 64 * 0xffff_ffff,
{
}

/// Past a chunk the key is the BLAKE3 digest of the old key followed by the
/// whole tag, and the counter is one more, modulo 2^64.
pub proof fn law_next_link(s: ChainState, tag: Seq<u8>)
    ensures
        s.next(tag).key == primitives::blake3_digest(s.key + tag)@,
        s.next(tag).counter as int == (s.counter + 1) % 0x1_0000_0000_0000_0000,
{
}

/// Masking twice gives the data back.
pub proof fn law_masked_twice(s: ChainState, data: Seq<u8>)
    ensures
        s.masked(s.masked(data)) == data,
{
    assert forall|i: int| 0 <= i < data.len() implies s.masked(s.masked(data))[i] == data[i] by {
        let d = data[i];
        let k = primitives::chacha20_keystream(s.key, nonce_of(s.counter), i as nat);
        assert((d ^ k) ^ k == d) by (bit_vector);
    }
    assert(s.masked(s.masked(data)) =~= data);
}

/// What one node seals, a node at the same link opens to the same plaintext.
pub proof fn law_open_undoes_seal(s: ChainState, aad: Seq<u8>, plain: Seq<u8>)
    requires
        primitives::within_block_limit(plain.len()),
    ensures
        s.opened(aad, s.masked(plain), s.tag(aad, s.masked(plain))) == Some(plain),
{
    law_masked_twice(s, plain);
}

/// Under one link a ciphertext opens with one tag only: with any other tag it
/// fails.
pub proof fn law_other_tag_fails(
    s: ChainState,
    aad: Seq<u8>,
    ciphertext: Seq<u8>,
    tag: Seq<u8>,
    other: Seq<u8>,
)
    requires
        s.opened(aad, ciphertext, tag) is Some,
        other != tag,
    ensures
        s.opened(aad, ciphertext, other) is None,
{
}

/// Whatever opens is what a node at the same link would have sealed: the
/// ciphertext and the tag are those of the plaintext that comes out.
pub proof fn law_opened_was_sealed(
    s: ChainState,
    aad: Seq<u8>,
    ciphertext: Seq<u8>,
    tag: Seq<u8>,
    plain: Seq<u8>,
)
    requires
        s.opened(aad, ciphertext, tag) == Some(plain),
    ensures
        ciphertext == s.masked(plain),
        tag == s.tag(aad, s.masked(plain)),
{
    law_masked_twice(s, ciphertext);
}

/// Two chunks with different counters never share a nonce.
pub proof fn law_nonce_determines_counter(a: u64, b: u64)
    requires
        nonce_of(a) == nonce_of(b),
    ensures
        a == b,
{
    bytes::lemma_le_bytes_read_back(a as nat, 8);
    bytes::lemma_le_bytes_read_back(b as nat, 8);
    assert(nonce_of(a).skip(4) =~= bytes::le_bytes(a as nat, 8));
    assert(nonce_of(b).skip(4) =~= bytes::le_bytes(b as nat, 8));
    reveal_with_fuel(bytes::le_limit, 9);
}

/// The link that the tags `tags`, one after the other, lead to from `s`.
pub open spec fn chain_over(s: ChainState, tags: Seq<Seq<u8>>) -> ChainState
    decreases tags.len(),
{
    if tags.len() == 0 {
        s
    } else {
        chain_over(s, tags.drop_last()).next(tags.last())
    }
}

/// The key that the tags `tags` lead to from the key `k0`: each key is the
/// BLAKE3 digest of the key before it, followed by the tag.
pub open spec fn key_over(k0: Seq<u8>, tags: Seq<Seq<u8>>) -> Seq<u8>
    decreases tags.len(),
{
    if tags.len() == 0 {
        k0
    } else {
        primitives::blake3_digest(key_over(k0, tags.drop_last()) + tags.last())@
    }
}

/// What any number of steps of the chain make of key and counter: the key is
/// the one that the tags lead to, and the counter counts the tags, modulo 2^64.
pub proof fn law_chain_over_tags(s: ChainState, tags: Seq<Seq<u8>>)
    ensures
        chain_over(s, tags).key == key_over(s.key, tags),
        chain_over(s, tags).counter as int == (s.counter + tags.len())
            % 0x1_0000_0000_0000_0000,
    decreases tags.len(),
{
    if tags.len() > 0 {
        law_chain_over_tags(s, tags.drop_last());
    }
}

/// No tags lead nowhere, and one more tag leads one link further: to the BLAKE3
/// digest of the key that the others lead to and of that tag.
pub proof fn law_one_more_tag(s: ChainState, tags: Seq<Seq<u8>>, tag: Seq<u8>)
    ensures
        chain_over(s, Seq::empty()) == s,
        key_over(s.key, Seq::empty()) == s.key,
        chain_over(s, tags.push(tag)).key == primitives::blake3_digest(
            chain_over(s, tags).key + tag,
        )@,
        chain_over(s, tags.push(tag)).counter as int == (chain_over(s, tags).counter + 1)
            % 0x1_0000_0000_0000_0000,
        key_over(s.key, tags.push(tag)) == primitives::blake3_digest(
            key_over(s.key, tags) + tag,
        )@,
{
    assert(tags.push(tag).drop_last() =~= tags);
}

/// From the start of a session, fewer than 2^64 tags lead to the key that they
/// determine and to a counter that is their number.
pub proof fn law_chain_from_start(k0: Seq<u8>, tags: Seq<Seq<u8>>)
    requires
        tags.len() < 0x1_0000_0000_0000_0000,
    ensures
        chain_over(ChainState::start(k0), tags) == (ChainState {
            key: key_over(k0, tags),
            counter: tags.len() as u64,
        }),
{
    law_chain_over_tags(ChainState::start(k0), tags);
}

/// No two steps of a chain that are fewer than 2^64 steps apart have the same
/// nonce, whatever was sealed or opened in between.
pub proof fn law_chain_nonces_never_repeat(s: ChainState, tags: Seq<Seq<u8>>, i: int, j: int)
    requires
        0 <= i < j <= tags.len(),
        j - i < 0x1_0000_0000_0000_0000,
    ensures
        nonce_of(chain_over(s, tags.take(i)).counter) != nonce_of(
            chain_over(s, tags.take(j)).counter,
        ),
{
    let a = chain_over(s, tags.take(i)).counter;
    let b = chain_over(s, tags.take(j)).counter;
    law_chain_over_tags(s, tags.take(i));
    law_chain_over_tags(s, tags.take(j));
    if nonce_of(a) == nonce_of(b) {
        law_nonce_determines_counter(a, b);
    }
}

/// A message that somebody asks a node to open.
pub struct Attempt {
    pub aad: Seq<u8>,
    pub ciphertext: Seq<u8>,
    pub tag: Seq<u8>,
}

/// The link after the attempts `attempts`, one after the other, from `s` on.
pub open spec fn after_attempts(s: ChainState, attempts: Seq<Attempt>) -> ChainState
    decreases attempts.len(),
{
    if attempts.len() == 0 {
        s
    } else {
        let a = attempts.last();
        after_attempts(s, attempts.drop_last()).after_open(a.aad, a.ciphertext, a.tag)
    }
}

/// Each of the attempts `attempts`, made in order from `s` on, fails.
pub open spec fn all_fail(s: ChainState, attempts: Seq<Attempt>) -> bool
    decreases attempts.len(),
{
    attempts.len() > 0 ==> {
        let a = attempts.last();
        &&& all_fail(s, attempts.drop_last())
        &&& after_attempts(s, attempts.drop_last()).opened(a.aad, a.ciphertext, a.tag) is None
    }
}

/// Any number of failed attempts leave the chain where it was.
proof fn lemma_failed_attempts_move_nothing(s: ChainState, attempts: Seq<Attempt>)
    requires
        all_fail(s, attempts),
    ensures
        after_attempts(s, attempts) == s,
    decreases attempts.len(),
{
    if attempts.len() > 0 {
        lemma_failed_attempts_move_nothing(s, attempts.drop_last());
    }
}

/// Failed attempts do not desynchronise a receiver: after any number of them it
/// still opens what a sender at the same link has sealed, to the plaintext that
/// it was, and both then stand at the same link.
pub proof fn law_failed_attempts_do_not_desynchronise(
    tx: ChainState,
    rx: ChainState,
    attempts: Seq<Attempt>,
    aad: Seq<u8>,
    plain: Seq<u8>,
)
    requires
        tx == rx,
        all_fail(rx, attempts),
        primitives::within_block_limit(plain.len()),
    ensures
        ({
            let sealed = tx.masked(plain);
            let tag = tx.tag(aad, sealed);
            let later = after_attempts(rx, attempts);
            &&& later.opened(aad, sealed, tag) == Some(plain)
            &&& later.after_open(aad, sealed, tag) == tx.next(tag)
        }),
{
    lemma_failed_attempts_move_nothing(rx, attempts);
    law_open_undoes_seal(tx, aad, plain);
}

} // verus!
