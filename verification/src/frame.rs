//! One frame, sealed and opened in the buffer that it is read into.
use crate::bytes;
use crate::crypto;
use crate::crypto::{ChainState, CryptoError, MorphingCipher, TAG_LEN};
use crate::network::{FRAME_BUF, LEN_LEN, MAX_PAYLOAD};
use crate::primitives;
use crate::stream;
use vstd::prelude::*;

verus! {

/// Makes a frame of the `n` bytes of plaintext that stand in `frame` behind the
/// room for the header: writes the header, seals the payload in place, and
/// appends the tag.
pub fn seal_frame(cipher: &mut MorphingCipher, frame: &mut Vec<u8>, n: usize) -> (r: Result<
    (),
    CryptoError,
>)
    requires
        old(frame)@.len() == FRAME_BUF,
        n <= MAX_PAYLOAD,
    ensures
        r is Ok,
        final(frame)@ == stream::frame_of(
            old(cipher)@,
            old(frame)@.subrange(LEN_LEN as int, LEN_LEN + n),
        ) + old(frame)@.skip(LEN_LEN + n + TAG_LEN),
        final(cipher)@ == stream::link_after(
            old(cipher)@,
            old(frame)@.subrange(LEN_LEN as int, LEN_LEN + n),
        ),
        final(frame)@.len() == old(frame)@.len(),
        final(frame)@[0] + 0x100 * final(frame)@[1] + 0x1_0000 * final(frame)@[2] + 0x100_0000
            * final(frame)@[3] == n,
        forall|j: int|
            4 <= j < 4 + n ==> #[trigger] final(frame)@[j] == old(frame)@[j]
                ^ primitives::chacha20_keystream(
                old(cipher)@.key,
                crypto::nonce_of(old(cipher)@.counter),
                (j - 4) as nat,
            ),
        final(frame)@.subrange(4 + n, n + 20) == primitives::poly1305_tag(
            old(cipher)@.key,
            crypto::nonce_of(old(cipher)@.counter),
            final(frame)@.take(4),
            final(frame)@.subrange(4, 4 + n),
        )@,
        forall|j: int|
            n + 20 <= j < old(frame)@.len() ==> #[trigger] final(frame)@[j] == old(frame)@[j],
        final(cipher)@.key == primitives::blake3_digest(
            old(cipher)@.key + final(frame)@.subrange(4 + n, n + 20),
        )@,
        final(cipher)@.counter as int == (old(cipher)@.counter + 1) % 0x1_0000_0000_0000_0000,
{
    let ghost before = frame@;
    let ghost plain = before.subrange(LEN_LEN as int, LEN_LEN + n);
    let header: [u8; 4] = bytes::u32_to_le(n as u32);
    frame[0] = header[0];
    frame[1] = header[1];
    frame[2] = header[2];
    frame[3] = header[3];
    let ghost headed = frame@;
    assert(headed.subrange(LEN_LEN as int, LEN_LEN + n) =~= plain);
    let sealed: Result<[u8; TAG_LEN], CryptoError>;
    {
        let (_, rest) = frame.as_mut_slice().split_at_mut(LEN_LEN);
        let (payload, _) = rest.split_at_mut(n);
        assert(payload@ =~= plain);
        sealed = cipher.seal_in_place(&header, payload);
    }
    match sealed {
        Ok(tag) => {
            let ghost with_payload = frame@;
            assert(with_payload =~= header@ + old(cipher)@.masked(plain) + before.skip(
                LEN_LEN + n,
            ));
            let mut i: usize = 0;
            while i < TAG_LEN
                invariant
                    i <= TAG_LEN,
                    n <= MAX_PAYLOAD,
                    frame@.len() == FRAME_BUF,
                    with_payload.len() == FRAME_BUF,
                    forall|j: int| 0 <= j < LEN_LEN + n ==> frame@[j] == with_payload[j],
                    forall|j: int|
                        LEN_LEN + n <= j < LEN_LEN + n + i ==> frame@[j] == tag@[j - LEN_LEN - n],
                    forall|j: int|
                        LEN_LEN + n + i <= j < FRAME_BUF ==> frame@[j] == with_payload[j],
                decreases TAG_LEN - i,
            {
                frame[LEN_LEN + n + i] = tag[i];
                i = i + 1;
            }
            assert(with_payload.take(LEN_LEN + n) =~= header@ + old(cipher)@.masked(plain));
            assert forall|j: int| LEN_LEN + n + TAG_LEN <= j < FRAME_BUF implies frame@[j]
                == before[j] by {
                let k = j - LEN_LEN - n;
                assert(with_payload[j] == before.skip(LEN_LEN + n)[k]);
            }
            let ghost front = header@ + old(cipher)@.masked(plain);
            assert(frame@.take(LEN_LEN + n) =~= front);
            assert(frame@.subrange(LEN_LEN + n, LEN_LEN + n + TAG_LEN) =~= tag@);
            assert(frame@.skip(LEN_LEN + n + TAG_LEN) =~= before.skip(LEN_LEN + n + TAG_LEN));
            assert(stream::frame_of(old(cipher)@, plain) == front + tag@);
            assert(frame@ =~= stream::frame_of(old(cipher)@, plain) + before.skip(
                LEN_LEN + n + TAG_LEN,
            ));
            proof {
                lemma_frame_in_buffer(old(cipher)@, plain, before, frame@);
            }
            Ok(())
        },
        Err(e) => Err(e),
    }
}

/// Opens in place the frame with `n` bytes of payload that stands at the start
/// of `frame`. If it is not authentic, nothing changes.
pub fn open_frame(cipher: &mut MorphingCipher, frame: &mut Vec<u8>, n: usize) -> (r: Result<
    (),
    CryptoError,
>)
    requires
        old(frame)@.len() == FRAME_BUF,
        n <= MAX_PAYLOAD,
        n == stream::announced(old(frame)@),
    ensures
        r is Ok <==> old(frame)@.subrange(4 + n, n + 20) == primitives::poly1305_tag(
            old(cipher)@.key,
            crypto::nonce_of(old(cipher)@.counter),
            old(frame)@.take(4),
            old(frame)@.subrange(4, 4 + n),
        )@,
        r is Ok ==> {
            &&& final(frame)@.len() == old(frame)@.len()
            &&& forall|j: int|
                4 <= j < 4 + n ==> #[trigger] final(frame)@[j] == old(frame)@[j]
                    ^ primitives::chacha20_keystream(
                    old(cipher)@.key,
                    crypto::nonce_of(old(cipher)@.counter),
                    (j - 4) as nat,
                )
            &&& final(cipher)@.key == primitives::blake3_digest(
                old(cipher)@.key + old(frame)@.subrange(4 + n, n + 20),
            )@
            &&& final(cipher)@.counter as int == (old(cipher)@.counter + 1)
                % 0x1_0000_0000_0000_0000
        },
        match stream::first_opened(old(cipher)@, old(frame)@) {
            Some(plain) => {
                &&& r is Ok
                &&& plain.len() == n
                &&& final(frame)@ == old(frame)@.take(LEN_LEN as int) + plain + old(frame)@.skip(
                    LEN_LEN + n,
                )
                &&& final(cipher)@ == old(cipher)@.next(
                    old(frame)@.subrange(LEN_LEN + n, LEN_LEN + n + TAG_LEN),
                )
            },
            None => {
                &&& r == Err::<(), CryptoError>(CryptoError::Open)
                &&& final(frame)@ == old(frame)@
                &&& final(cipher)@ == old(cipher)@
            },
        },
{
    let ghost before = frame@;
    let header: [u8; 4] = [frame[0], frame[1], frame[2], frame[3]];
    let mut tag: [u8; TAG_LEN] = [0u8; TAG_LEN];
    let mut i: usize = 0;
    while i < TAG_LEN
        invariant
            i <= TAG_LEN,
            n <= MAX_PAYLOAD,
            frame@.len() == FRAME_BUF,
            forall|j: int| 0 <= j < i ==> tag@[j] == frame@[LEN_LEN + n + j],
        decreases TAG_LEN - i,
    {
        tag[i] = frame[LEN_LEN + n + i];
        i = i + 1;
    }
    assert(header@ =~= before.take(LEN_LEN as int));
    assert(tag@ =~= before.subrange(LEN_LEN + n, LEN_LEN + n + TAG_LEN));
    let opened: Result<(), CryptoError>;
    {
        let (_, rest) = frame.as_mut_slice().split_at_mut(LEN_LEN);
        let (payload, _) = rest.split_at_mut(n);
        assert(payload@ =~= before.subrange(LEN_LEN as int, LEN_LEN + n));
        opened = cipher.open_in_place(&header, payload, &tag);
    }
    proof {
        let nonce = crypto::nonce_of(old(cipher)@.counter);
        crypto::law_nonce_layout(old(cipher)@.counter);
        stream::law_announced_is_the_header(before);
        stream::law_first_frame_opens(old(cipher)@, nonce, before, n as int);
        match stream::first_opened(old(cipher)@, before) {
            Some(plain) => {
                assert(frame@ =~= before.take(LEN_LEN as int) + plain + before.skip(LEN_LEN + n));
                assert forall|j: int| 4 <= j < 4 + n implies #[trigger] frame@[j] == before[j]
                    ^ primitives::chacha20_keystream(
                    old(cipher)@.key,
                    nonce,
                    (j - 4) as nat,
                ) by {
                    assert(frame@[j] == plain[j - 4]);
                }
                crypto::law_next_link(old(cipher)@, before.subrange(4 + n, n + 20));
            },
            None => {
                assert(frame@ =~= before);
            },
        }
    }
    opened
}

/// The bytes of a buffer at whose start the frame of `plain` was made.
proof fn lemma_frame_in_buffer(s: ChainState, plain: Seq<u8>, before: Seq<u8>, after: Seq<u8>)
    requires
        before.len() == FRAME_BUF,
        plain.len() <= MAX_PAYLOAD,
        plain == before.subrange(4, plain.len() as int + 4),
        after == stream::frame_of(s, plain) + before.skip(plain.len() as int + 20),
    ensures
        ({
            let n = plain.len() as int;
            &&& after.len() == before.len()
            &&& after[0] + 0x100 * after[1] + 0x1_0000 * after[2] + 0x100_0000 * after[3] == n
            &&& forall|j: int|
                4 <= j < 4 + n ==> #[trigger] after[j] == before[j]
                    ^ primitives::chacha20_keystream(
                    s.key,
                    crypto::nonce_of(s.counter),
                    (j - 4) as nat,
                )
            &&& after.subrange(4 + n, n + 20) == primitives::poly1305_tag(
                s.key,
                crypto::nonce_of(s.counter),
                after.take(4),
                after.subrange(4, 4 + n),
            )@
            &&& forall|j: int| n + 20 <= j < before.len() ==> #[trigger] after[j] == before[j]
            &&& stream::link_after(s, plain).key == primitives::blake3_digest(
                s.key + after.subrange(4 + n, n + 20),
            )@
            &&& stream::link_after(s, plain).counter as int == (s.counter + 1)
                % 0x1_0000_0000_0000_0000
        }),
{
    let n = plain.len() as int;
    let f = stream::frame_of(s, plain);
    crypto::law_nonce_layout(s.counter);
    stream::law_frame_layout(s, crypto::nonce_of(s.counter), plain);
    stream::law_frame_moves_the_chain(s, plain);
    assert(after[0] == f[0] && after[1] == f[1] && after[2] == f[2] && after[3] == f[3]);
    assert(after.take(4) =~= f.take(4));
    assert(after.subrange(4, 4 + n) =~= f.subrange(4, 4 + n));
    assert(after.subrange(4 + n, n + 20) =~= f.subrange(4 + n, n + 20));
    assert(f.skip(n + 4) =~= after.subrange(4 + n, n + 20));
    assert forall|j: int| 4 <= j < 4 + n implies #[trigger] after[j] == before[j]
        ^ primitives::chacha20_keystream(s.key, crypto::nonce_of(s.counter), (j - 4) as nat) by {
        assert(after[j] == f[j]);
        assert(plain[j - 4] == before[j]);
    }
}

} // verus!
