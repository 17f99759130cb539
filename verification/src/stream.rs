//! The wire format of a whole session, and what it guarantees.
//!
//! Everything here is specification: the functions say which bytes a sender
//! puts on the wire for a plaintext and what a receiver makes of any bytes at
//! all, and the laws relate the two. [`crate::frame`], [`crate::sender`] and
//! [`crate::receiver`] compute them.
use crate::bytes;
use crate::crypto;
use crate::crypto::{ChainState, TAG_LEN};
use crate::network::{LEN_LEN, MAX_PAYLOAD};
use crate::primitives;
use vstd::prelude::*;

verus! {

/// `c` is the plaintext of one frame: not empty and at most one chunk long.
pub open spec fn is_chunk(c: Seq<u8>) -> bool {
    1 <= c.len() <= MAX_PAYLOAD
}

/// Every element is the plaintext of one frame.
pub open spec fn all_chunks(chunks: Seq<Seq<u8>>) -> bool {
    forall|i: int| 0 <= i < chunks.len() ==> is_chunk(#[trigger] chunks[i])
}

/// The header of a frame with `len` bytes of payload.
pub open spec fn header_of(len: nat) -> Seq<u8> {
    bytes::le_bytes(len, 4)
}

/// The frame that carries `plain` under the link `s`.
pub open spec fn frame_of(s: ChainState, plain: Seq<u8>) -> Seq<u8> {
    let header = header_of(plain.len());
    let sealed = s.masked(plain);
    header + sealed + s.tag(header, sealed)
}

/// The link after `plain` was carried under the link `s`.
pub open spec fn link_after(s: ChainState, plain: Seq<u8>) -> ChainState {
    s.next(s.tag(header_of(plain.len()), s.masked(plain)))
}

/// The link after all of `chunks`, carried in order from the link `s` on.
pub open spec fn chain_after(s: ChainState, chunks: Seq<Seq<u8>>) -> ChainState
    decreases chunks.len(),
{
    if chunks.len() == 0 {
        s
    } else {
        link_after(chain_after(s, chunks.drop_last()), chunks.last())
    }
}

/// The bytes on the wire for `chunks`, carried in order from the link `s` on.
pub open spec fn wire_of(s: ChainState, chunks: Seq<Seq<u8>>) -> Seq<u8>
    decreases chunks.len(),
{
    if chunks.len() == 0 {
        Seq::empty()
    } else {
        wire_of(s, chunks.drop_last()) + frame_of(
            chain_after(s, chunks.drop_last()),
            chunks.last(),
        )
    }
}

/// The plaintext that `chunks` make up.
pub open spec fn joined(chunks: Seq<Seq<u8>>) -> Seq<u8>
    decreases chunks.len(),
{
    if chunks.len() == 0 {
        Seq::empty()
    } else {
        joined(chunks.drop_last()) + chunks.last()
    }
}

/// `data` cut into full chunks, the last of which may be shorter.
pub open spec fn chunks_of(data: Seq<u8>) -> Seq<Seq<u8>>
    decreases data.len(),
{
    if data.len() == 0 {
        Seq::empty()
    } else if data.len() <= MAX_PAYLOAD {
        seq![data]
    } else {
        seq![data.take(MAX_PAYLOAD as int)] + chunks_of(data.skip(MAX_PAYLOAD as int))
    }
}

/// How a session ends for the receiver.
pub enum Ending {
    /// The wire ended where a frame could have begun, or inside a header.
    Clean,
    /// A header announced no payload, or more than a chunk.
    BadLength,
    /// The wire ended inside the payload or the tag of a frame.
    Truncated,
    /// A frame did not open.
    NotAuthentic,
}

/// What a receiver makes of a wire: the plaintext that it hands on, and how the
/// session ends.
pub struct Received {
    pub plain: Seq<u8>,
    pub ending: Ending,
}

/// The payload length that a wire announces in its first header.
pub open spec fn announced(wire: Seq<u8>) -> nat {
    bytes::le_value(wire.take(LEN_LEN as int))
}

/// What opening the first frame of a wire gives, the header being authenticated
/// along with the payload.
pub open spec fn first_opened(s: ChainState, wire: Seq<u8>) -> Option<Seq<u8>> {
    let n = announced(wire) as int;
    s.opened(
        wire.take(LEN_LEN as int),
        wire.subrange(LEN_LEN as int, LEN_LEN + n),
        wire.subrange(LEN_LEN + n, LEN_LEN + n + TAG_LEN),
    )
}

/// What a receiver at the link `s` makes of `wire`.
pub open spec fn received(s: ChainState, wire: Seq<u8>) -> Received
    decreases wire.len(),
{
    let n = announced(wire) as int;
    let end = LEN_LEN + n + TAG_LEN;
    if wire.len() < LEN_LEN {
        Received { plain: Seq::empty(), ending: Ending::Clean }
    } else if n == 0 || n > MAX_PAYLOAD {
        Received { plain: Seq::empty(), ending: Ending::BadLength }
    } else if wire.len() < end {
        Received { plain: Seq::empty(), ending: Ending::Truncated }
    } else {
        match first_opened(s, wire) {
            None => Received { plain: Seq::empty(), ending: Ending::NotAuthentic },
            Some(plain) => {
                let rest = received(s.next(wire.subrange(LEN_LEN + n, end)), wire.skip(end));
                Received { plain: plain + rest.plain, ending: rest.ending }
            },
        }
    }
}

/// The plaintexts of the frames that a receiver at the link `s` accepts from
/// `wire`, one by one.
pub open spec fn accepted(s: ChainState, wire: Seq<u8>) -> Seq<Seq<u8>>
    decreases wire.len(),
{
    let n = announced(wire) as int;
    let end = LEN_LEN + n + TAG_LEN;
    if wire.len() < LEN_LEN || n == 0 || n > MAX_PAYLOAD || wire.len() < end {
        Seq::empty()
    } else {
        match first_opened(s, wire) {
            None => Seq::empty(),
            Some(plain) => seq![plain] + accepted(
                s.next(wire.subrange(LEN_LEN + n, end)),
                wire.skip(end),
            ),
        }
    }
}

/// A frame is 20 bytes longer than its plaintext: a header and a tag.
pub proof fn lemma_frame_len(s: ChainState, plain: Seq<u8>)
    ensures
        frame_of(s, plain).len() == LEN_LEN + plain.len() + TAG_LEN,
        header_of(plain.len()).len() == LEN_LEN,
        s.masked(plain).len() == plain.len(),
        s.tag(header_of(plain.len()), s.masked(plain)).len() == TAG_LEN,
{
    bytes::lemma_le_bytes_read_back(plain.len(), 4);
}

/// What a receiver sees in a wire that begins with the frame of `plain`.
proof fn lemma_first_frame(s: ChainState, plain: Seq<u8>, rest: Seq<u8>)
    requires
        is_chunk(plain),
    ensures
        announced(frame_of(s, plain) + rest) == plain.len(),
        first_opened(s, frame_of(s, plain) + rest) == Some(plain),
        received(s, frame_of(s, plain) + rest) == (Received {
            plain: plain + received(link_after(s, plain), rest).plain,
            ending: received(link_after(s, plain), rest).ending,
        }),
        accepted(s, frame_of(s, plain) + rest) == seq![plain] + accepted(
            link_after(s, plain),
            rest,
        ),
{
    let header = header_of(plain.len());
    let sealed = s.masked(plain);
    let tag = s.tag(header, sealed);
    let wire = frame_of(s, plain) + rest;
    let n = plain.len() as int;
    lemma_frame_len(s, plain);
    bytes::lemma_le_bytes_read_back(plain.len(), 4);
    reveal_with_fuel(bytes::le_limit, 5);
    assert(wire.take(LEN_LEN as int) =~= header);
    assert(wire.subrange(LEN_LEN as int, LEN_LEN + n) =~= sealed);
    assert(wire.subrange(LEN_LEN + n, LEN_LEN + n + TAG_LEN) =~= tag);
    assert(wire.skip(LEN_LEN + n + TAG_LEN) =~= rest);
    crypto::law_open_undoes_seal(s, header, plain);
}

/// A receiver that got the frames of `chunks` has handed on their plaintext,
/// stands at the link where the sender stands, and goes on from there.
pub proof fn law_received_goes_on(s: ChainState, chunks: Seq<Seq<u8>>, rest: Seq<u8>)
    requires
        all_chunks(chunks),
    ensures
        received(s, wire_of(s, chunks) + rest) == (Received {
            plain: joined(chunks) + received(chain_after(s, chunks), rest).plain,
            ending: received(chain_after(s, chunks), rest).ending,
        }),
        accepted(s, wire_of(s, chunks) + rest) == chunks + accepted(
            chain_after(s, chunks),
            rest,
        ),
    decreases chunks.len(),
{
    if chunks.len() == 0 {
        assert(wire_of(s, chunks) + rest =~= rest);
        assert(chunks + accepted(s, rest) =~= accepted(s, rest));
        assert(joined(chunks) + received(s, rest).plain =~= received(s, rest).plain);
    } else {
        let init = chunks.drop_last();
        let last = chunks.last();
        let mid = chain_after(s, init);
        assert(is_chunk(last));
        assert forall|i: int| 0 <= i < init.len() implies is_chunk(#[trigger] init[i]) by {
            assert(is_chunk(chunks[i]));
        }
        let there = chain_after(s, chunks);
        let from_mid = frame_of(mid, last) + rest;
        let all = wire_of(s, chunks) + rest;
        let tail = received(there, rest).plain;
        let later = accepted(there, rest);
        assert(there == link_after(mid, last));
        assert(all =~= wire_of(s, init) + from_mid);
        assert({
            &&& received(mid, from_mid).plain == last + tail
            &&& received(mid, from_mid).ending == received(there, rest).ending
            &&& accepted(mid, from_mid) == seq![last] + later
        }) by {
            lemma_first_frame(mid, last, rest);
        }
        assert({
            &&& received(s, all).plain == joined(init) + received(mid, from_mid).plain
            &&& received(s, all).ending == received(mid, from_mid).ending
            &&& accepted(s, all) == init + accepted(mid, from_mid)
        }) by {
            law_received_goes_on(s, init, from_mid);
        }
        assert(joined(init) + (last + tail) =~= joined(chunks) + tail);
        assert(init + (seq![last] + later) =~= chunks + later);
    }
}

/// The receiver gets back exactly the chunks that the sender sent, and the
/// session ends cleanly.
pub proof fn law_chunks_arrive(s: ChainState, chunks: Seq<Seq<u8>>)
    requires
        all_chunks(chunks),
    ensures
        accepted(s, wire_of(s, chunks)) == chunks,
        received(s, wire_of(s, chunks)) == (Received {
            plain: joined(chunks),
            ending: Ending::Clean,
        }),
{
    law_received_goes_on(s, chunks, Seq::empty());
    assert(wire_of(s, chunks) + Seq::<u8>::empty() =~= wire_of(s, chunks));
    assert(joined(chunks) + Seq::<u8>::empty() =~= joined(chunks));
    assert(chunks + Seq::<Seq<u8>>::empty() =~= chunks);
}

/// Joining two lists of chunks joins what each makes up.
proof fn lemma_joined_concat(a: Seq<Seq<u8>>, b: Seq<Seq<u8>>)
    ensures
        joined(a + b) == joined(a) + joined(b),
    decreases b.len(),
{
    if b.len() == 0 {
        assert(a + b =~= a);
        assert(joined(a) + joined(b) =~= joined(a));
    } else {
        lemma_joined_concat(a, b.drop_last());
        assert((a + b).drop_last() =~= a + b.drop_last());
        assert((a + b).last() == b.last());
        assert(joined(a + b.drop_last()) + b.last() =~= joined(a) + joined(b));
    }
}

/// Cutting data into chunks loses nothing: the chunks make up the data, each
/// is a legal payload, and all but the last are full.
pub proof fn law_chunks_of_data(data: Seq<u8>)
    ensures
        joined(chunks_of(data)) == data,
        all_chunks(chunks_of(data)),
        forall|i: int|
            0 <= i < chunks_of(data).len() - 1 ==> (#[trigger] chunks_of(data)[i]).len()
                == MAX_PAYLOAD,
    decreases data.len(),
{
    reveal_with_fuel(joined, 2);
    if data.len() == 0 {
    } else if data.len() <= MAX_PAYLOAD {
        assert(seq![data].drop_last() =~= Seq::<Seq<u8>>::empty());
        assert(joined(chunks_of(data)) =~= data);
    } else {
        let head = data.take(MAX_PAYLOAD as int);
        let tail = data.skip(MAX_PAYLOAD as int);
        law_chunks_of_data(tail);
        lemma_joined_concat(seq![head], chunks_of(tail));
        assert(seq![head].drop_last() =~= Seq::<Seq<u8>>::empty());
        assert(joined(seq![head]) =~= head);
        assert(head + tail =~= data);
        assert forall|i: int| 0 <= i < chunks_of(data).len() implies is_chunk(
            #[trigger] chunks_of(data)[i],
        ) by {
            if i > 0 {
                assert(chunks_of(data)[i] == chunks_of(tail)[i - 1]);
            }
        }
        assert forall|i: int| 0 <= i < chunks_of(data).len() - 1 implies (
        #[trigger] chunks_of(data)[i]).len() == MAX_PAYLOAD by {
            if i > 0 {
                assert(chunks_of(data)[i] == chunks_of(tail)[i - 1]);
            }
        }
    }
}

/// Chunks that are all full but the last are the cutting of what they make up.
pub proof fn law_full_chunks_are_the_cutting(chunks: Seq<Seq<u8>>)
    requires
        all_chunks(chunks),
        forall|i: int|
            0 <= i < chunks.len() - 1 ==> (#[trigger] chunks[i]).len() == MAX_PAYLOAD,
    ensures
        chunks == chunks_of(joined(chunks)),
    decreases chunks.len(),
{
    if chunks.len() > 0 {
        let first = chunks[0];
        let rest = chunks.drop_first();
        assert(is_chunk(chunks[0]));
        assert forall|i: int| 0 <= i < rest.len() implies is_chunk(#[trigger] rest[i]) by {
            assert(rest[i] == chunks[i + 1]);
        }
        assert forall|i: int| 0 <= i < rest.len() - 1 implies (#[trigger] rest[i]).len()
            == MAX_PAYLOAD by {
            assert(rest[i] == chunks[i + 1]);
        }
        law_full_chunks_are_the_cutting(rest);
        lemma_joined_concat(seq![first], rest);
        reveal_with_fuel(joined, 2);
        assert(seq![first].drop_last() =~= Seq::<Seq<u8>>::empty());
        assert(joined(seq![first]) =~= first);
        assert(seq![first] + rest =~= chunks);
        let data = joined(chunks);
        if rest.len() == 0 {
            assert(data =~= first);
            assert(chunks =~= seq![data]);
        } else {
            assert(is_chunk(rest.last()));
            assert(first.len() == MAX_PAYLOAD);
            assert(data.take(MAX_PAYLOAD as int) =~= first);
            assert(data.skip(MAX_PAYLOAD as int) =~= joined(rest));
        }
    }
}

/// The tunnel: whatever data is sent from a key, a receiver with the same key
/// gets that data, whole and unchanged, and the session ends cleanly.
pub proof fn law_data_crosses_intact(k0: Seq<u8>, data: Seq<u8>)
    ensures
        received(
            ChainState::start(k0),
            wire_of(ChainState::start(k0), chunks_of(data)),
        ) == (Received { plain: data, ending: Ending::Clean }),
{
    law_chunks_of_data(data);
    law_chunks_arrive(ChainState::start(k0), chunks_of(data));
}

/// A session whose first chunk is `first` puts its frame on the wire first, and
/// then goes on from the next link.
proof fn lemma_wire_from_front(s: ChainState, first: Seq<u8>, rest: Seq<Seq<u8>>)
    ensures
        wire_of(s, seq![first] + rest) == frame_of(s, first) + wire_of(link_after(s, first), rest),
        chain_after(s, seq![first] + rest) == chain_after(link_after(s, first), rest),
    decreases rest.len(),
{
    let all = seq![first] + rest;
    reveal_with_fuel(wire_of, 2);
    reveal_with_fuel(chain_after, 2);
    if rest.len() == 0 {
        assert(all.drop_last() =~= Seq::<Seq<u8>>::empty());
        assert(all.last() == first);
        assert(wire_of(s, all) =~= frame_of(s, first) + wire_of(link_after(s, first), rest));
    } else {
        lemma_wire_from_front(s, first, rest.drop_last());
        assert(all.drop_last() =~= seq![first] + rest.drop_last());
        assert(all.last() == rest.last());
        assert(wire_of(s, all) =~= frame_of(s, first) + wire_of(link_after(s, first), rest));
    }
}

/// A receiver hands on nothing but genuine frames: whatever the wire holds, the
/// plaintext that comes out is that of chunks whose frames, exactly as a sender
/// with the same key seals them, stand at the beginning of the wire.
pub proof fn law_only_genuine_frames(s: ChainState, wire: Seq<u8>)
    ensures
        all_chunks(accepted(s, wire)),
        received(s, wire).plain == joined(accepted(s, wire)),
        wire_of(s, accepted(s, wire)).is_prefix_of(wire),
    decreases wire.len(),
{
    let n = announced(wire) as int;
    let end = LEN_LEN + n + TAG_LEN;
    if wire.len() < LEN_LEN || n == 0 || n > MAX_PAYLOAD || wire.len() < end {
    } else {
        match first_opened(s, wire) {
            None => {},
            Some(plain) => {
                let header = wire.take(LEN_LEN as int);
                let sealed = wire.subrange(LEN_LEN as int, LEN_LEN + n);
                let tag = wire.subrange(LEN_LEN + n, end);
                let rest = wire.skip(end);
                crypto::law_opened_was_sealed(s, header, sealed, tag, plain);
                bytes::lemma_le_value_writes_back(header);
                assert(header == header_of(plain.len()));
                assert(wire =~= frame_of(s, plain) + rest);
                assert(s.next(tag) == link_after(s, plain));
                let later = accepted(s.next(tag), rest);
                law_only_genuine_frames(s.next(tag), rest);
                lemma_wire_from_front(s, plain, later);
                lemma_joined_concat(seq![plain], later);
                reveal_with_fuel(joined, 2);
                assert(seq![plain].drop_last() =~= Seq::<Seq<u8>>::empty());
                assert(joined(seq![plain]) =~= plain);
                let wire_later = wire_of(s.next(tag), later);
                assert(wire_later == rest.take(wire_later.len() as int));
                assert(frame_of(s, plain) + wire_later =~= wire.take(
                    (frame_of(s, plain) + wire_later).len() as int,
                ));
            },
        }
    }
}

/// The wire tells the chunks: two sessions from the same link with the same
/// wire carry the same chunks.
pub proof fn law_wire_determines_chunks(s: ChainState, a: Seq<Seq<u8>>, b: Seq<Seq<u8>>)
    requires
        all_chunks(a),
        all_chunks(b),
        wire_of(s, a) == wire_of(s, b),
    ensures
        a == b,
{
    law_chunks_arrive(s, a);
    law_chunks_arrive(s, b);
}

/// Fail-closed: a frame with any tag but its own ends the session, whatever
/// follows it, and the receiver has handed on only what came before.
pub proof fn law_forged_tag_ends_session(
    s: ChainState,
    chunks: Seq<Seq<u8>>,
    plain: Seq<u8>,
    tag: Seq<u8>,
    rest: Seq<u8>,
)
    requires
        all_chunks(chunks),
        is_chunk(plain),
        tag.len() == TAG_LEN,
        tag != chain_after(s, chunks).tag(
            header_of(plain.len()),
            chain_after(s, chunks).masked(plain),
        ),
    ensures
        received(
            s,
            wire_of(s, chunks) + (header_of(plain.len()) + chain_after(s, chunks).masked(plain)
                + tag + rest),
        ) == (Received { plain: joined(chunks), ending: Ending::NotAuthentic }),
{
    let here = chain_after(s, chunks);
    let header = header_of(plain.len());
    let sealed = here.masked(plain);
    let tail = header + sealed + tag + rest;
    let n = plain.len() as int;
    law_received_goes_on(s, chunks, tail);
    bytes::lemma_le_bytes_read_back(plain.len(), 4);
    reveal_with_fuel(bytes::le_limit, 5);
    assert(tail.take(LEN_LEN as int) =~= header);
    assert(tail.subrange(LEN_LEN as int, LEN_LEN + n) =~= sealed);
    assert(tail.subrange(LEN_LEN + n, LEN_LEN + n + TAG_LEN) =~= tag);
    assert(joined(chunks) + Seq::<u8>::empty() =~= joined(chunks));
}

/// A session that is cut off inside a frame hands on the chunks before it. It
/// ends cleanly if the cut is inside the header, and not otherwise.
pub proof fn law_cut_session(s: ChainState, chunks: Seq<Seq<u8>>, plain: Seq<u8>, cut: int)
    requires
        all_chunks(chunks),
        is_chunk(plain),
        0 <= cut < frame_of(chain_after(s, chunks), plain).len(),
    ensures
        received(s, wire_of(s, chunks) + frame_of(chain_after(s, chunks), plain).take(cut))
            == (Received {
            plain: joined(chunks),
            ending: if cut < LEN_LEN {
                Ending::Clean
            } else {
                Ending::Truncated
            },
        }),
{
    let frame = frame_of(chain_after(s, chunks), plain);
    let tail = frame.take(cut);
    law_received_goes_on(s, chunks, tail);
    lemma_frame_len(chain_after(s, chunks), plain);
    bytes::lemma_le_bytes_read_back(plain.len(), 4);
    reveal_with_fuel(bytes::le_limit, 5);
    if cut >= LEN_LEN {
        assert(tail.take(LEN_LEN as int) =~= header_of(plain.len()));
    }
    assert(joined(chunks) + Seq::<u8>::empty() =~= joined(chunks));
}

/// A header that announces no payload, or more than a chunk, ends the session
/// before anything is read on its account.
pub proof fn law_bad_length_ends_session(
    s: ChainState,
    chunks: Seq<Seq<u8>>,
    len: u32,
    rest: Seq<u8>,
)
    requires
        all_chunks(chunks),
        len == 0 || len > MAX_PAYLOAD,
    ensures
        received(s, wire_of(s, chunks) + (header_of(len as nat) + rest)) == (Received {
            plain: joined(chunks),
            ending: Ending::BadLength,
        }),
{
    let tail = header_of(len as nat) + rest;
    law_received_goes_on(s, chunks, tail);
    bytes::lemma_le_bytes_read_back(len as nat, 4);
    reveal_with_fuel(bytes::le_limit, 5);
    assert(tail.take(LEN_LEN as int) =~= header_of(len as nat));
    assert(joined(chunks) + Seq::<u8>::empty() =~= joined(chunks));
}

/// Each chunk costs a header and a tag on the wire and nothing else: the nonce
/// does not travel.
pub proof fn law_wire_len(s: ChainState, chunks: Seq<Seq<u8>>)
    ensures
        wire_of(s, chunks).len() == joined(chunks).len() + (LEN_LEN + TAG_LEN) * chunks.len(),
    decreases chunks.len(),
{
    if chunks.len() > 0 {
        law_wire_len(s, chunks.drop_last());
        lemma_frame_len(chain_after(s, chunks.drop_last()), chunks.last());
    }
}

/// The tags of the frames of `chunks`, carried in order from the link `s` on.
pub open spec fn tags_of(s: ChainState, chunks: Seq<Seq<u8>>) -> Seq<Seq<u8>>
    decreases chunks.len(),
{
    if chunks.len() == 0 {
        Seq::empty()
    } else {
        let here = chain_after(s, chunks.drop_last());
        let last = chunks.last();
        tags_of(s, chunks.drop_last()).push(here.tag(header_of(last.len()), here.masked(last)))
    }
}

/// A session walks the chain over the tags of its frames.
pub proof fn law_session_walks_the_chain(s: ChainState, chunks: Seq<Seq<u8>>)
    ensures
        tags_of(s, chunks).len() == chunks.len(),
        chain_after(s, chunks) == crypto::chain_over(s, tags_of(s, chunks)),
    decreases chunks.len(),
{
    if chunks.len() > 0 {
        law_session_walks_the_chain(s, chunks.drop_last());
        assert(tags_of(s, chunks).drop_last() =~= tags_of(s, chunks.drop_last()));
    }
}

/// The counter of the chain counts the chunks, modulo 2^64.
pub proof fn law_counter_counts_chunks(s: ChainState, chunks: Seq<Seq<u8>>)
    ensures
        chain_after(s, chunks).counter as int == (s.counter + chunks.len())
            % 0x1_0000_0000_0000_0000,
{
    law_session_walks_the_chain(s, chunks);
    crypto::law_chain_over_tags(s, tags_of(s, chunks));
}

/// No two chunks of a session that are fewer than 2^64 chunks apart are sealed
/// with the same nonce.
pub proof fn law_nonces_never_repeat(s: ChainState, chunks: Seq<Seq<u8>>, i: int, j: int)
    requires
        0 <= i < j < chunks.len(),
        j - i < 0x1_0000_0000_0000_0000,
    ensures
        crypto::nonce_of(chain_after(s, chunks.take(i)).counter) != crypto::nonce_of(
            chain_after(s, chunks.take(j)).counter,
        ),
{
    let a = chain_after(s, chunks.take(i)).counter;
    let b = chain_after(s, chunks.take(j)).counter;
    law_counter_counts_chunks(s, chunks.take(i));
    law_counter_counts_chunks(s, chunks.take(j));
    if crypto::nonce_of(a) == crypto::nonce_of(b) {
        crypto::law_nonce_determines_counter(a, b);
    }
}

/// What a frame can carry: from 1 to 65536 bytes.
pub proof fn law_chunk_bounds(c: Seq<u8>, chunks: Seq<Seq<u8>>)
    ensures
        is_chunk(c) <==> 1 <= c.len() <= 65536,
        all_chunks(chunks) <==> forall|i: int|
            0 <= i < chunks.len() ==> 1 <= (#[trigger] chunks[i]).len() <= 65536,
{
    if forall|i: int| 0 <= i < chunks.len() ==> 1 <= (#[trigger] chunks[i]).len() <= 65536 {
        assert forall|i: int| 0 <= i < chunks.len() implies is_chunk(#[trigger] chunks[i]) by {}
    }
    if all_chunks(chunks) {
        assert forall|i: int| 0 <= i < chunks.len() implies 1 <= (#[trigger] chunks[i]).len()
            <= 65536 by {
            assert(is_chunk(chunks[i]));
        }
    }
}

/// The header of a frame has four bytes which, read as a little-endian number,
/// are the length of its payload.
pub proof fn law_header_is_the_length(len: nat)
    requires
        len < 0x1_0000_0000,
    ensures
        header_of(len).len() == 4,
        header_of(len)[0] + 0x100 * header_of(len)[1] + 0x1_0000 * header_of(len)[2] + 0x100_0000
            * header_of(len)[3] == len,
{
    bytes::law_four_bytes(len);
}

/// The payload length that a receiver takes from a wire is exactly the
/// little-endian number of its first four bytes.
pub proof fn law_announced_is_the_header(wire: Seq<u8>)
    requires
        wire.len() >= 4,
    ensures
        announced(wire) == wire[0] + 0x100 * wire[1] + 0x1_0000 * wire[2] + 0x100_0000 * wire[3],
{
    bytes::law_four_bytes_read(wire.take(4));
}

/// A frame, byte for byte: four bytes with the length of the payload, every byte
/// of the payload XOR the keystream, and the tag over all that.
pub proof fn law_frame_layout(s: ChainState, nonce: Seq<u8>, plain: Seq<u8>)
    requires
        plain.len() < 0x1_0000_0000,
        nonce.len() == 12,
        nonce[0] == 0 && nonce[1] == 0 && nonce[2] == 0 && nonce[3] == 0,
        nonce[4] + 0x100 * nonce[5] + 0x1_0000 * nonce[6] + 0x100_0000 * nonce[7] + 0x1_0000_0000
            * nonce[8] + 0x100_0000_0000 * nonce[9] + 0x1_0000_0000_0000 * nonce[10]
            + 0x100_0000_0000_0000 * nonce[11] == s.counter,
    ensures
        ({
            let f = frame_of(s, plain);
            let n = plain.len() as int;
            &&& f.len() == n + 20
            &&& f[0] + 0x100 * f[1] + 0x1_0000 * f[2] + 0x100_0000 * f[3] == n
            &&& forall|j: int|
                4 <= j < 4 + n ==> #[trigger] f[j] == plain[j - 4]
                    ^ primitives::chacha20_keystream(s.key, nonce, (j - 4) as nat)
            &&& f.subrange(4 + n, n + 20) == primitives::poly1305_tag(
                s.key,
                nonce,
                f.take(4),
                f.subrange(4, 4 + n),
            )@
        }),
{
    let f = frame_of(s, plain);
    let n = plain.len() as int;
    let header = header_of(plain.len());
    let sealed = s.masked(plain);
    let tag = s.tag(header, sealed);
    lemma_frame_len(s, plain);
    law_header_is_the_length(plain.len());
    crypto::law_seal_covers_everything(s, nonce, header, plain);
    assert(f[0] == header[0] && f[1] == header[1] && f[2] == header[2] && f[3] == header[3]);
    assert(f.take(4) =~= header);
    assert(f.subrange(4, 4 + n) =~= sealed);
    assert(f.subrange(4 + n, n + 20) =~= tag);
    assert forall|j: int| 4 <= j < 4 + n implies #[trigger] f[j] == plain[j - 4]
        ^ primitives::chacha20_keystream(s.key, nonce, (j - 4) as nat) by {
        assert(f[j] == sealed[j - 4]);
    }
}

/// Past a frame, the key is the BLAKE3 digest of the old key and of the last 16
/// bytes of the frame, and the counter is one more, modulo 2^64.
pub proof fn law_frame_moves_the_chain(s: ChainState, plain: Seq<u8>)
    ensures
        frame_of(s, plain).len() == plain.len() + 20,
        link_after(s, plain).key == primitives::blake3_digest(
            s.key + frame_of(s, plain).skip(plain.len() as int + 4),
        )@,
        link_after(s, plain).counter as int == (s.counter + 1) % 0x1_0000_0000_0000_0000,
{
    let header = header_of(plain.len());
    let sealed = s.masked(plain);
    let tag = s.tag(header, sealed);
    lemma_frame_len(s, plain);
    crypto::law_next_link(s, tag);
    assert(frame_of(s, plain).skip(plain.len() as int + 4) =~= tag);
}

/// One more chunk adds its bytes to the plaintext, its frame to the wire and
/// that frame's tag to the tags, and moves the chain on by one link. Without
/// chunks there is nothing.
pub proof fn law_one_more_chunk(s: ChainState, chunks: Seq<Seq<u8>>, c: Seq<u8>)
    ensures
        joined(Seq::empty()) == Seq::<u8>::empty(),
        wire_of(s, Seq::empty()) == Seq::<u8>::empty(),
        chain_after(s, Seq::empty()) == s,
        tags_of(s, Seq::empty()) == Seq::<Seq<u8>>::empty(),
        joined(chunks.push(c)) == joined(chunks) + c,
        wire_of(s, chunks.push(c)) == wire_of(s, chunks) + frame_of(chain_after(s, chunks), c),
        chain_after(s, chunks.push(c)) == link_after(chain_after(s, chunks), c),
        tags_of(s, chunks.push(c)) == tags_of(s, chunks).push(
            frame_of(chain_after(s, chunks), c).skip(c.len() as int + 4),
        ),
{
    let here = chain_after(s, chunks);
    assert(chunks.push(c).drop_last() =~= chunks);
    lemma_frame_len(here, c);
    assert(frame_of(here, c).skip(c.len() as int + 4) =~= here.tag(
        header_of(c.len()),
        here.masked(c),
    ));
}

/// Data is cut every 65536 bytes: chunk `k` holds the bytes from `65536 * k` on,
/// 65536 of them or as many as are left.
pub proof fn law_chunk_positions(data: Seq<u8>)
    ensures
        chunks_of(data).len() == (data.len() + 65535) / 65536,
        forall|k: int|
            0 <= k < chunks_of(data).len() ==> #[trigger] chunks_of(data)[k] == data.subrange(
                65536 * k,
                if 65536 * k + 65536 <= data.len() {
                    65536 * k + 65536
                } else {
                    data.len() as int
                },
            ),
    decreases data.len(),
{
    if data.len() == 0 {
    } else if data.len() <= 65536 {
        assert(data.subrange(0, data.len() as int) =~= data);
    } else {
        let tail = data.skip(65536);
        law_chunk_positions(tail);
        assert forall|k: int| 0 <= k < chunks_of(data).len() implies #[trigger] chunks_of(data)[k]
            == data.subrange(
            65536 * k,
            if 65536 * k + 65536 <= data.len() {
                65536 * k + 65536
            } else {
                data.len() as int
            },
        ) by {
            if k == 0 {
                assert(data.take(65536) =~= data.subrange(0, 65536));
            } else {
                let end: int = if 65536 * k + 65536 <= data.len() {
                    65536 * k + 65536
                } else {
                    data.len() as int
                };
                assert(chunks_of(data)[k] == chunks_of(tail)[k - 1]);
                assert(tail.subrange(65536 * k - 65536, end - 65536) =~= data.subrange(
                    65536 * k,
                    end,
                ));
            }
        }
    }
}

/// The frames stand on the wire one behind the other, in the order of the
/// chunks: that of chunk `k` directly behind those of the chunks before it.
pub proof fn law_frames_stand_in_order(s: ChainState, chunks: Seq<Seq<u8>>, k: int)
    requires
        0 <= k < chunks.len(),
    ensures
        ({
            let at = joined(chunks.take(k)).len() + 20 * k;
            let end = at + chunks[k].len() + 20;
            &&& end <= wire_of(s, chunks).len()
            &&& wire_of(s, chunks).subrange(at, end) == frame_of(
                chain_after(s, chunks.take(k)),
                chunks[k],
            )
        }),
    decreases chunks.len(),
{
    let init = chunks.drop_last();
    let at = joined(chunks.take(k)).len() + 20 * k;
    let end = at + chunks[k].len() + 20;
    law_wire_len(s, chunks.take(k));
    law_wire_len(s, init);
    lemma_frame_len(chain_after(s, init), chunks.last());
    if k == chunks.len() - 1 {
        assert(chunks.take(k) =~= init);
        assert(wire_of(s, chunks).subrange(at, end) =~= frame_of(
            chain_after(s, init),
            chunks.last(),
        ));
    } else {
        law_frames_stand_in_order(s, init, k);
        assert(init.take(k) =~= chunks.take(k));
        assert(wire_of(s, chunks).subrange(at, end) =~= wire_of(s, init).subrange(at, end));
    }
}

/// The chunks before chunk `k` of some data are full.
proof fn lemma_chunks_before(data: Seq<u8>, k: int)
    requires
        0 <= k < chunks_of(data).len(),
    ensures
        joined(chunks_of(data).take(k)).len() == 65536 * k,
    decreases k,
{
    let chunks = chunks_of(data);
    if k > 0 {
        lemma_chunks_before(data, k - 1);
        law_chunks_of_data(data);
        assert(chunks.take(k).drop_last() =~= chunks.take(k - 1));
        assert(chunks.take(k).last() == chunks[k - 1]);
    }
}

/// Keys that follow one another as BLAKE3 makes them from the tags on the wire
/// are the keys of the chain.
proof fn lemma_keys_on_the_wire(k0: Seq<u8>, data: Seq<u8>, keys: Seq<Seq<u8>>, k: int)
    requires
        0 <= k < chunks_of(data).len(),
        keys.len() > k,
        keys[0] == k0,
        forall|i: int, j: int|
            0 <= i && i + 1 == j && j <= k ==> #[trigger] keys[j] == primitives::blake3_digest(
                #[trigger] keys[i] + wire_of(ChainState::start(k0), chunks_of(data)).subrange(
                    65556 * j - 16,
                    65556 * j,
                ),
            )@,
    ensures
        chain_after(ChainState::start(k0), chunks_of(data).take(k)).key == keys[k],
    decreases k,
{
    let s = ChainState::start(k0);
    let chunks = chunks_of(data);
    let wire = wire_of(s, chunks);
    if k > 0 {
        lemma_keys_on_the_wire(k0, data, keys, k - 1);
        lemma_chunks_before(data, k - 1);
        law_chunks_of_data(data);
        law_frames_stand_in_order(s, chunks, k - 1);
        let here = chain_after(s, chunks.take(k - 1));
        let c = chunks[k - 1];
        assert(chunks.take(k) =~= chunks.take(k - 1).push(c));
        law_one_more_chunk(s, chunks.take(k - 1), c);
        law_frame_moves_the_chain(here, c);
        assert(c.len() == 65536);
        assert(frame_of(here, c).skip(65540) =~= wire.subrange(65556 * k - 16, 65556 * k));
        assert(keys[k] == primitives::blake3_digest(
            keys[k - 1] + wire.subrange(65556 * k - 16, 65556 * k),
        )@);
    } else {
        assert(chunks.take(0) =~= Seq::empty());
    }
}

/// A frame that stands on a wire, byte for byte.
proof fn lemma_frame_at(s: ChainState, nonce: Seq<u8>, plain: Seq<u8>, wire: Seq<u8>, at: int)
    requires
        plain.len() < 0x1_0000_0000,
        nonce.len() == 12,
        nonce[0] == 0 && nonce[1] == 0 && nonce[2] == 0 && nonce[3] == 0,
        nonce[4] + 0x100 * nonce[5] + 0x1_0000 * nonce[6] + 0x100_0000 * nonce[7] + 0x1_0000_0000
            * nonce[8] + 0x100_0000_0000 * nonce[9] + 0x1_0000_0000_0000 * nonce[10]
            + 0x100_0000_0000_0000 * nonce[11] == s.counter,
        0 <= at,
        at + plain.len() + 20 <= wire.len(),
        wire.subrange(at, at + plain.len() + 20) == frame_of(s, plain),
    ensures
        ({
            let n = plain.len() as int;
            &&& wire[at] + 0x100 * wire[at + 1] + 0x1_0000 * wire[at + 2] + 0x100_0000 * wire[at + 3]
                == n
            &&& forall|j: int|
                at + 4 <= j < at + 4 + n ==> #[trigger] wire[j] == plain[j - at - 4]
                    ^ primitives::chacha20_keystream(s.key, nonce, (j - at - 4) as nat)
            &&& wire.subrange(at + 4 + n, at + n + 20) == primitives::poly1305_tag(
                s.key,
                nonce,
                wire.subrange(at, at + 4),
                wire.subrange(at + 4, at + 4 + n),
            )@
        }),
{
    let n = plain.len() as int;
    let f = frame_of(s, plain);
    law_frame_layout(s, nonce, plain);
    assert(f[0] == wire[at] && f[1] == wire[at + 1] && f[2] == wire[at + 2] && f[3] == wire[at + 3]);
    assert(f.take(4) =~= wire.subrange(at, at + 4));
    assert(f.subrange(4, 4 + n) =~= wire.subrange(at + 4, at + 4 + n));
    assert(f.subrange(4 + n, n + 20) =~= wire.subrange(at + 4 + n, at + n + 20));
    assert forall|j: int| at + 4 <= j < at + 4 + n implies #[trigger] wire[j] == plain[j - at - 4]
        ^ primitives::chacha20_keystream(s.key, nonce, (j - at - 4) as nat) by {
        assert(f[j - at] == wire[j]);
    }
}

/// What travels, byte for byte. Data sent from the key `k0` goes out 65536 bytes
/// at a time. Chunk `k` stands at `65556 * k` on the wire: its length in four
/// bytes; each of its bytes XOR the keystream under the key of the chunk and the
/// nonce of `k`; and the tag over those, with the four bytes as associated data.
/// The first key is `k0`, and each further one the BLAKE3 digest of the one
/// before and of the tag that stands before its chunk.
pub proof fn law_every_byte_on_the_wire(
    k0: Seq<u8>,
    data: Seq<u8>,
    wire: Seq<u8>,
    keys: Seq<Seq<u8>>,
    k: int,
    nonce: Seq<u8>,
)
    requires
        wire == wire_of(ChainState::start(k0), chunks_of(data)),
        0 <= k,
        65536 * k < data.len(),
        keys.len() > k,
        keys[0] == k0,
        forall|i: int, j: int|
            0 <= i && i + 1 == j && j <= k ==> #[trigger] keys[j] == primitives::blake3_digest(
                #[trigger] keys[i] + wire.subrange(65556 * j - 16, 65556 * j),
            )@,
        nonce.len() == 12,
        nonce[0] == 0 && nonce[1] == 0 && nonce[2] == 0 && nonce[3] == 0,
        nonce[4] + 0x100 * nonce[5] + 0x1_0000 * nonce[6] + 0x100_0000 * nonce[7] + 0x1_0000_0000
            * nonce[8] + 0x100_0000_0000 * nonce[9] + 0x1_0000_0000_0000 * nonce[10]
            + 0x100_0000_0000_0000 * nonce[11] == k % 0x1_0000_0000_0000_0000,
    ensures
        wire.len() == data.len() + 20 * ((data.len() + 65535) / 65536),
        ({
            let at = 65556 * k;
            let n = if 65536 * k + 65536 <= data.len() {
                65536
            } else {
                data.len() - 65536 * k
            };
            &&& at + n + 20 <= wire.len()
            &&& wire[at] + 0x100 * wire[at + 1] + 0x1_0000 * wire[at + 2] + 0x100_0000 * wire[at + 3]
                == n
            &&& forall|j: int|
                at + 4 <= j < at + 4 + n ==> #[trigger] wire[j] == data[65536 * k + j - at - 4]
                    ^ primitives::chacha20_keystream(keys[k], nonce, (j - at - 4) as nat)
            &&& wire.subrange(at + 4 + n, at + n + 20) == primitives::poly1305_tag(
                keys[k],
                nonce,
                wire.subrange(at, at + 4),
                wire.subrange(at + 4, at + 4 + n),
            )@
        }),
{
    let s = ChainState::start(k0);
    let chunks = chunks_of(data);
    let at = 65556 * k;
    let n = if 65536 * k + 65536 <= data.len() {
        65536
    } else {
        data.len() - 65536 * k
    };
    law_chunk_positions(data);
    assert(wire.len() == data.len() + 20 * chunks.len()) by {
        law_chunks_of_data(data);
        law_wire_len(s, chunks);
    }
    let here = chain_after(s, chunks.take(k));
    let c = chunks[k];
    assert(c == data.subrange(65536 * k, 65536 * k + n));
    assert(at + n + 20 <= wire.len() && wire.subrange(at, at + n + 20) == frame_of(here, c)) by {
        lemma_chunks_before(data, k);
        law_frames_stand_in_order(s, chunks, k);
    }
    assert(here.key == keys[k]) by {
        lemma_keys_on_the_wire(k0, data, keys, k);
    }
    assert(here.counter as int == k % 0x1_0000_0000_0000_0000) by {
        law_counter_counts_chunks(s, chunks.take(k));
    }
    lemma_frame_at(here, nonce, c, wire, at);
}

/// What a receiver makes of any wire, decided by its first frame. Fewer than
/// four bytes are a clean end. A length of 0 or over 65536, a frame that is not
/// all there, and a tag that is not the one over the four bytes of the header
/// and the payload, end the session with nothing handed on. Otherwise every byte
/// of the payload XOR the keystream is handed on, and the rest of the wire is
/// received under the next key.
pub proof fn law_first_frame_decides(
    s: ChainState,
    nonce: Seq<u8>,
    wire: Seq<u8>,
    n: int,
    next: ChainState,
)
    requires
        nonce.len() == 12,
        nonce[0] == 0 && nonce[1] == 0 && nonce[2] == 0 && nonce[3] == 0,
        nonce[4] + 0x100 * nonce[5] + 0x1_0000 * nonce[6] + 0x100_0000 * nonce[7] + 0x1_0000_0000
            * nonce[8] + 0x100_0000_0000 * nonce[9] + 0x1_0000_0000_0000 * nonce[10]
            + 0x100_0000_0000_0000 * nonce[11] == s.counter,
        wire.len() >= 4 ==> n == wire[0] + 0x100 * wire[1] + 0x1_0000 * wire[2] + 0x100_0000
            * wire[3],
        next.key == primitives::blake3_digest(s.key + wire.subrange(4 + n, n + 20))@,
        next.counter as int == (s.counter + 1) % 0x1_0000_0000_0000_0000,
    ensures
        ({
            let got = received(s, wire);
            let frames = accepted(s, wire);
            if wire.len() < 4 {
                got.plain.len() == 0 && got.ending == Ending::Clean && frames.len() == 0
            } else if n == 0 || n > 65536 {
                got.plain.len() == 0 && got.ending == Ending::BadLength && frames.len() == 0
            } else if wire.len() < n + 20 {
                got.plain.len() == 0 && got.ending == Ending::Truncated && frames.len() == 0
            } else if wire.subrange(4 + n, n + 20) != primitives::poly1305_tag(
                s.key,
                nonce,
                wire.take(4),
                wire.subrange(4, 4 + n),
            )@ {
                got.plain.len() == 0 && got.ending == Ending::NotAuthentic && frames.len() == 0
            } else {
                let later = received(next, wire.skip(n + 20));
                &&& got.ending == later.ending
                &&& got.plain.len() == n + later.plain.len()
                &&& got.plain.skip(n) == later.plain
                &&& forall|i: int|
                    0 <= i < n ==> #[trigger] got.plain[i] == wire[4 + i]
                        ^ primitives::chacha20_keystream(s.key, nonce, i as nat)
                &&& frames == seq![got.plain.take(n)] + accepted(next, wire.skip(n + 20))
            }
        }),
{
    if wire.len() >= 4 {
        law_announced_is_the_header(wire);
        if 1 <= n <= 65536 && wire.len() >= n + 20 {
            let sealed = wire.subrange(4, 4 + n);
            let tag = wire.subrange(4 + n, n + 20);
            crypto::law_open_checks_everything(s, nonce, wire.take(4), sealed, tag);
            crypto::law_next_link(s, tag);
            assert(s.next(tag) =~= next);
            if let Some(plain) = first_opened(s, wire) {
                let got = received(s, wire);
                let later = received(next, wire.skip(n + 20));
                assert(got.plain == plain + later.plain);
                assert(got.plain.skip(n) =~= later.plain);
                assert(got.plain.take(n) =~= plain);
                assert forall|i: int| 0 <= i < n implies #[trigger] got.plain[i] == wire[4 + i]
                    ^ primitives::chacha20_keystream(s.key, nonce, i as nat) by {
                    assert(got.plain[i] == plain[i]);
                    assert(sealed[i] == wire[4 + i]);
                }
            }
        }
    }
}

/// What opening the first frame of a wire gives: the payload, every byte XOR the
/// keystream, exactly if the 16 bytes behind it are the tag over the four bytes
/// of the header and the payload.
pub proof fn law_first_frame_opens(s: ChainState, nonce: Seq<u8>, wire: Seq<u8>, n: int)
    requires
        nonce.len() == 12,
        nonce[0] == 0 && nonce[1] == 0 && nonce[2] == 0 && nonce[3] == 0,
        nonce[4] + 0x100 * nonce[5] + 0x1_0000 * nonce[6] + 0x100_0000 * nonce[7] + 0x1_0000_0000
            * nonce[8] + 0x100_0000_0000 * nonce[9] + 0x1_0000_0000_0000 * nonce[10]
            + 0x100_0000_0000_0000 * nonce[11] == s.counter,
        wire.len() >= 4,
        n == wire[0] + 0x100 * wire[1] + 0x1_0000 * wire[2] + 0x100_0000 * wire[3],
        wire.len() >= n + 20,
    ensures
        first_opened(s, wire) is Some <==> wire.subrange(4 + n, n + 20)
            == primitives::poly1305_tag(s.key, nonce, wire.take(4), wire.subrange(4, 4 + n))@,
        first_opened(s, wire) matches Some(plain) ==> {
            &&& plain.len() == n
            &&& forall|i: int|
                0 <= i < n ==> #[trigger] plain[i] == wire[4 + i]
                    ^ primitives::chacha20_keystream(s.key, nonce, i as nat)
        },
{
    law_announced_is_the_header(wire);
    crypto::law_open_checks_everything(
        s,
        nonce,
        wire.take(4),
        wire.subrange(4, 4 + n),
        wire.subrange(4 + n, n + 20),
    );
}

} // verus!
