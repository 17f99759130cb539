//! What holds of the two sides of a session together.
use crate::crypto::ChainState;
use crate::network::FRAME_BUF;
use crate::receiver;
use crate::receiver::{ReceiveAction, ReceivePhase, ReceiverState};
use crate::sender;
use crate::sender::{SendAction, SendPhase, SenderState};
use crate::stream;
use crate::stream::{Ending, Received};
use vstd::prelude::*;

verus! {

/// A receiver that starts at the link where the sender started, and is given
/// what the sender wrote, hands on all the plaintext that the sender read, and
/// its session ends cleanly.
pub proof fn law_receiver_gets_what_sender_read(s: SenderState, r: ReceiverState)
    requires
        s.wf(),
        s.phase == SendPhase::Flushing,
        r.wf(),
        r.phase == ReceivePhase::Header,
        r.chain == s.start,
    ensures
        receiver::receiver_run(r, stream::wire_of(s.start, s.sent)) == (Received {
            plain: s.taken,
            ending: Ending::Clean,
        }),
{
    receiver::law_steps_compute_received(r, stream::wire_of(s.start, s.sent));
    stream::law_chunks_arrive(s.start, s.sent);
}

/// After the same chunks, sealed on one side and accepted on the other, the two
/// sides hold the same key and the same counter.
pub proof fn law_chains_are_mirrors(s: SenderState, r: ReceiverState)
    requires
        s.wf(),
        r.wf(),
        s.start == r.start,
        s.sent == r.accepted,
    ensures
        s.chain == r.chain,
{
}

/// The tunnel, end to end: from the first read of the sender to its flush, and
/// over the same bytes on the receiver's side, the plaintext that the source
/// gave is what the sink gets, and both sides end with its length.
pub proof fn law_stream_crosses_the_tunnel(
    start: ChainState,
    buffer: Seq<u8>,
    other_buffer: Seq<u8>,
    pieces: Seq<Seq<u8>>,
)
    requires
        buffer.len() == FRAME_BUF,
        other_buffer.len() == FRAME_BUF,
        sender::pieces_fit(SenderState::fresh(start, buffer), pieces),
        stream::joined(pieces).len() <= u64::MAX,
        sender::sender_run(SenderState::fresh(start, buffer), pieces).phase == SendPhase::Flushing,
    ensures
        receiver::receiver_run(
            ReceiverState::fresh(start, other_buffer),
            sender::sender_wire(SenderState::fresh(start, buffer), pieces),
        ) == (Received { plain: stream::joined(pieces), ending: Ending::Clean }),
        sender::sender_run(SenderState::fresh(start, buffer), pieces).done() == SendAction::Done(
            stream::joined(pieces).len() as u64,
        ),
        receiver::receiver_last(
            ReceiverState::fresh(start, other_buffer),
            sender::sender_wire(SenderState::fresh(start, buffer), pieces),
        ).phase == ReceivePhase::Flushing,
        receiver::receiver_last(
            ReceiverState::fresh(start, other_buffer),
            sender::sender_wire(SenderState::fresh(start, buffer), pieces),
        ).done() == ReceiveAction::Done(stream::joined(pieces).len() as u64),
{
    let s = SenderState::fresh(start, buffer);
    let r = ReceiverState::fresh(start, other_buffer);
    sender::lemma_run(start, buffer, pieces);
    law_receiver_gets_what_sender_read(sender::sender_run(s, pieces), r);
    receiver::law_clean_run_is_done_with_the_length(r, sender::sender_wire(s, pieces));
}

/// Every source that ends crosses the tunnel: whatever it gives, in reads of
/// whatever sizes, the sink gets just that, and both sides end with its length.
pub proof fn law_every_source_crosses_the_tunnel(
    start: ChainState,
    buffer: Seq<u8>,
    other_buffer: Seq<u8>,
    pieces: Seq<Seq<u8>>,
)
    requires
        buffer.len() == FRAME_BUF,
        other_buffer.len() == FRAME_BUF,
        sender::pieces_fit(SenderState::fresh(start, buffer), pieces),
        sender::none_empty(pieces),
        stream::joined(pieces).len() <= u64::MAX,
    ensures
        ({
            let s = SenderState::fresh(start, buffer);
            let r = ReceiverState::fresh(start, other_buffer);
            let reads = sender::with_end(s, pieces);
            let wire = sender::sender_wire(s, reads);
            let data = stream::joined(pieces);
            &&& sender::sender_run(s, reads).phase == SendPhase::Flushing
            &&& sender::sender_run(s, reads).done() == SendAction::Done(data.len() as u64)
            &&& receiver::receiver_run(r, wire) == (Received {
                plain: data,
                ending: Ending::Clean,
            })
            &&& receiver::receiver_last(r, wire).phase == ReceivePhase::Flushing
            &&& receiver::receiver_last(r, wire).done() == ReceiveAction::Done(data.len() as u64)
        }),
{
    let s = SenderState::fresh(start, buffer);
    sender::law_source_that_ends_is_flushed(start, buffer, pieces);
    law_stream_crosses_the_tunnel(start, buffer, other_buffer, sender::with_end(s, pieces));
}

/// From the first byte of a source to the last byte of the sink, between two
/// nodes with the key `k0`. The reads are of any sizes that the current chunk has
/// room for, and then report the end of the source, once more if a last part of
/// a chunk had to go out. The sink gets every byte that the source gave, in
/// order, and both sides end with their number.
pub proof fn law_source_reaches_sink(
    k0: Seq<u8>,
    buffer: Seq<u8>,
    other_buffer: Seq<u8>,
    pieces: Seq<Seq<u8>>,
    reads: Seq<Seq<u8>>,
)
    requires
        buffer.len() == 65556,
        other_buffer.len() == 65556,
        stream::joined(pieces).len() <= u64::MAX,
        forall|i: int|
            0 <= i < pieces.len() ==> 0 < (#[trigger] pieces[i]).len() <= 65536 - stream::joined(
                pieces.take(i),
            ).len() % 65536,
        reads == if stream::joined(pieces).len() % 65536 == 0 {
            pieces.push(Seq::empty())
        } else {
            pieces.push(Seq::empty()).push(Seq::empty())
        },
    ensures
        ({
            let start = ChainState { key: k0, counter: 0 };
            let s = SenderState::fresh(start, buffer);
            let r = ReceiverState::fresh(start, other_buffer);
            let wire = sender::sender_wire(s, reads);
            let data = stream::joined(pieces);
            &&& sender::sender_run(s, reads).phase == SendPhase::Flushing
            &&& sender::sender_run(s, reads).done() == SendAction::Done(data.len() as u64)
            &&& receiver::receiver_run(r, wire).plain == data
            &&& receiver::receiver_run(r, wire).ending == Ending::Clean
            &&& receiver::receiver_last(r, wire).phase == ReceivePhase::Flushing
            &&& receiver::receiver_last(r, wire).done() == ReceiveAction::Done(data.len() as u64)
        }),
{
    let start = ChainState { key: k0, counter: 0 };
    let s = SenderState::fresh(start, buffer);
    sender::law_reads_fill_chunks(start, buffer, pieces);
    assert(reads == sender::with_end(s, pieces));
    assert(sender::none_empty(pieces));
    law_every_source_crosses_the_tunnel(start, buffer, other_buffer, pieces);
}

} // verus!
