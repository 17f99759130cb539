//! The sending side of a session.
//!
//! [`Sender`] decides, the caller performs: it reads plaintext into
//! [`Sender::space`], writes [`Sender::frame`] to the network, flushes the
//! network, and tells [`Sender::step`] what came of it.
use crate::crypto::{ChainState, MorphingCipher, TAG_LEN};
use crate::frame::seal_frame;
use crate::network::{TunnelError, FRAME_BUF, LEN_LEN, MAX_PAYLOAD};
use crate::primitives;
use crate::stream;
use vstd::prelude::*;

verus! {

/// What a sender is waiting for.
#[derive(Debug, Clone, Copy, PartialEq, Eq, Structural)]
pub enum SendPhase {
    /// Plaintext for the current chunk.
    Filling,
    /// The network taking the current frame.
    Writing,
    /// The network being flushed, after the end of the plaintext.
    Flushing,
    /// Nothing: the session is over.
    Closed,
}

/// What came of the last action.
#[derive(Debug)]
pub enum SendEvent {
    /// So many bytes were read into the space; none at the end of the plaintext.
    Read(usize),
    /// The whole frame was written.
    Written,
    /// The network was flushed.
    Flushed,
    /// The action failed.
    Failed(std::io::Error),
}

/// What is to be done next.
#[derive(Debug)]
pub enum SendAction {
    /// Read plaintext into the space.
    Read,
    /// Write the frame to the network.
    Write,
    /// Flush the network.
    Flush,
    /// Nothing: the session ended after so many bytes of plaintext.
    Done(u64),
    /// Nothing: the session failed.
    Fail(TunnelError),
}

/// The state of a sender, together with what it has done since its start.
#[verifier::ext_equal]
pub struct SenderState {
    /// The current link of the key chain.
    pub chain: ChainState,
    pub phase: SendPhase,
    /// The buffer: room for the header, the payload and the tag of a frame.
    pub frame: Seq<u8>,
    /// Bytes of payload in the buffer.
    pub filled: nat,
    /// Bytes of plaintext whose frames were written.
    pub total: nat,
    /// The link of the key chain at the start.
    pub start: ChainState,
    /// The chunks sealed so far.
    pub sent: Seq<Seq<u8>>,
    /// The plaintext read so far.
    pub taken: Seq<u8>,
    /// The source has reported its end.
    pub ended: bool,
    /// The source has given more plaintext after it had reported its end.
    pub late: bool,
}

impl SenderState {
    /// The payload in the buffer.
    pub open spec fn payload(self) -> Seq<u8> {
        self.frame.subrange(LEN_LEN as int, LEN_LEN + self.filled)
    }

    /// The free part of the buffer, where plaintext is read into.
    pub open spec fn space(self) -> Seq<u8> {
        self.frame.subrange(LEN_LEN + self.filled, LEN_LEN + MAX_PAYLOAD)
    }

    /// The frame to be written.
    pub open spec fn outgoing(self) -> Seq<u8> {
        self.frame.take(LEN_LEN + self.filled + TAG_LEN)
    }

    /// The state with other bytes in the free part of the buffer.
    pub open spec fn with_space(self, region: Seq<u8>) -> SenderState {
        SenderState {
            frame: self.frame.take(LEN_LEN + self.filled) + region + self.frame.skip(
                LEN_LEN + MAX_PAYLOAD,
            ),
            ..self
        }
    }

    /// What holds of a sender at every moment.
    pub open spec fn wf(self) -> bool {
        &&& self.frame.len() == FRAME_BUF
        &&& self.filled <= MAX_PAYLOAD
        &&& self.total <= u64::MAX
        &&& stream::all_chunks(self.sent)
        &&& self.chain == stream::chain_after(self.start, self.sent)
        &&& match self.phase {
            SendPhase::Filling => {
                &&& self.filled < MAX_PAYLOAD
                &&& self.taken == stream::joined(self.sent) + self.payload()
                &&& self.total == stream::joined(self.sent).len()
                &&& self.ended && !self.late ==> self.filled == 0
            },
            SendPhase::Writing => {
                &&& self.sent.len() > 0
                &&& self.filled == self.sent.last().len()
                &&& self.outgoing() == stream::frame_of(
                    stream::chain_after(self.start, self.sent.drop_last()),
                    self.sent.last(),
                )
                &&& self.taken == stream::joined(self.sent)
                &&& self.total == stream::joined(self.sent.drop_last()).len()
            },
            SendPhase::Flushing => {
                &&& self.ended
                &&& self.taken == stream::joined(self.sent)
                &&& self.total == stream::joined(self.sent).len()
            },
            SendPhase::Closed => true,
        }
        &&& !self.late ==> forall|i: int|
            0 <= i < self.sent.len() && (!self.ended || i < self.sent.len() - 1) ==> (
            #[trigger] self.sent[i]).len() == MAX_PAYLOAD
    }

    /// The event is one that the phase waits for.
    pub open spec fn expects(self, event: SendEvent) -> bool {
        match event {
            SendEvent::Read(n) => self.phase == SendPhase::Filling && n <= self.space().len(),
            SendEvent::Written => self.phase == SendPhase::Writing && self.total + self.filled
                <= u64::MAX,
            SendEvent::Flushed => self.phase == SendPhase::Flushing,
            SendEvent::Failed(_) => self.phase != SendPhase::Closed,
        }
    }

    /// The state at the start of a session.
    pub open spec fn fresh(start: ChainState, frame: Seq<u8>) -> SenderState {
        SenderState {
            chain: start,
            phase: SendPhase::Filling,
            frame,
            filled: 0,
            total: 0,
            start,
            sent: Seq::empty(),
            taken: Seq::empty(),
            ended: false,
            late: false,
        }
    }

    /// The state after `n` bytes were read into the space. A chunk is sealed as
    /// soon as it is full, or the plaintext ends with bytes in the buffer; an end
    /// with none in the buffer leaves only the flush to be done.
    pub open spec fn after_read(self, n: nat) -> SenderState {
        let seen = SenderState {
            filled: self.filled + n,
            taken: self.taken + self.space().take(n as int),
            ended: self.ended || n == 0,
            late: self.late || (self.ended && n > 0),
            ..self
        };
        if n > 0 && seen.filled < MAX_PAYLOAD {
            seen
        } else if seen.filled == 0 {
            SenderState { phase: SendPhase::Flushing, ..seen }
        } else {
            SenderState {
                chain: stream::link_after(self.chain, seen.payload()),
                phase: SendPhase::Writing,
                frame: stream::frame_of(self.chain, seen.payload()) + self.frame.skip(
                    LEN_LEN + seen.filled + TAG_LEN,
                ),
                sent: self.sent.push(seen.payload()),
                ..seen
            }
        }
    }

    /// The state after the frame was written.
    pub open spec fn after_written(self) -> SenderState {
        SenderState {
            phase: SendPhase::Filling,
            filled: 0,
            total: self.total + self.filled,
            ..self
        }
    }

    /// How the session ends once the network is flushed.
    pub open spec fn done(self) -> SendAction {
        SendAction::Done(self.total as u64)
    }

    /// The state when the session is over.
    pub open spec fn closed(self) -> SenderState {
        SenderState { phase: SendPhase::Closed, ..self }
    }
}

/// The sending side of a session.
pub struct Sender {
    cipher: MorphingCipher,
    frame: Vec<u8>,
    filled: usize,
    total: u64,
    phase: SendPhase,
    start: Ghost<ChainState>,
    sent: Ghost<Seq<Seq<u8>>>,
    taken: Ghost<Seq<u8>>,
    ended: Ghost<bool>,
    late: Ghost<bool>,
}

impl View for Sender {
    type V = SenderState;

    closed spec fn view(&self) -> SenderState {
        SenderState {
            chain: self.cipher@,
            phase: self.phase,
            frame: self.frame@,
            filled: self.filled as nat,
            total: self.total as nat,
            start: self.start@,
            sent: self.sent@,
            taken: self.taken@,
            ended: self.ended@,
            late: self.late@,
        }
    }
}

impl Sender {
    /// Starts a session with `cipher`. The first action is to read.
    pub fn new(cipher: MorphingCipher) -> (r: Self)
        ensures
            r@ == SenderState::fresh(cipher@, Seq::new(FRAME_BUF as nat, |i: int| 0u8)),
            r@.wf(),
            r@.chain == cipher@ && r@.start == cipher@,
            r@.phase == SendPhase::Filling,
            r@.frame.len() == 65556,
            r@.filled == 0 && r@.total == 0,
            r@.sent.len() == 0 && r@.taken.len() == 0,
            !r@.ended && !r@.late,
    {
        let ghost start = cipher@;
        let r = Sender {
            cipher,
            frame: vec![0u8; FRAME_BUF],
            filled: 0,
            total: 0,
            phase: SendPhase::Filling,
            start: Ghost(start),
            sent: Ghost(Seq::empty()),
            taken: Ghost(Seq::empty()),
            ended: Ghost(false),
            late: Ghost(false),
        };
        assert(r.frame@ =~= Seq::new(FRAME_BUF as nat, |i: int| 0u8));
        assert(r@.taken =~= stream::joined(r@.sent) + r@.payload());
        r
    }

    /// What the sender is waiting for.
    pub fn phase(&self) -> (r: SendPhase)
        ensures
            r == self@.phase,
    {
        self.phase
    }

    /// Bytes of plaintext whose frames were written.
    pub fn total(&self) -> (r: u64)
        ensures
            r == self@.total,
    {
        self.total
    }

    /// The part of the buffer to read plaintext into.
    pub fn space(&mut self) -> (region: &mut [u8])
        requires
            old(self)@.wf(),
            old(self)@.phase == SendPhase::Filling,
        ensures
            region@ == old(self)@.space(),
            region@.len() > 0,
            region@.len() == 65536 - old(self)@.filled,
            final(self)@ == old(self)@.with_space(final(region)@),
            final(region)@.len() == region@.len() ==> final(self)@.wf(),
    {
        let filled: usize = self.filled;
        proof {
            let s = self@;
            assert forall|t: SenderState, r: Seq<u8>|
                r.len() == s.space().len() && t =~= #[trigger] s.with_space(
                    r,
                ) implies #[trigger] t.wf() by {
                lemma_with_space_keeps_wf(s, r);
            }
        }
        let (_, rest) = self.frame.as_mut_slice().split_at_mut(LEN_LEN + filled);
        let (region, _) = rest.split_at_mut(MAX_PAYLOAD - filled);
        region
    }

    /// The frame to be written.
    pub fn frame(&self) -> (r: &[u8])
        requires
            self@.wf(),
            self@.phase == SendPhase::Writing,
        ensures
            r@ == self@.outgoing(),
            r@ == self@.frame.take(self@.filled as int + 20),
    {
        let end: usize = LEN_LEN + self.filled + TAG_LEN;
        let r: &[u8] = &self.frame.as_slice()[0..end];
        assert(r@ =~= self@.outgoing());
        r
    }

    /// Takes note of what came of the last action and decides the next one.
    pub fn step(&mut self, event: SendEvent) -> (r: SendAction)
        requires
            old(self)@.wf(),
            old(self)@.expects(event),
        ensures
            final(self)@.wf(),
            event matches SendEvent::Read(n) ==> r == if 0 < n && old(self)@.filled + n < 65536 {
                SendAction::Read
            } else if old(self)@.filled + n == 0 {
                SendAction::Flush
            } else {
                SendAction::Write
            },
            event is Flushed ==> r == SendAction::Done(old(self)@.total as u64),
            match event {
                SendEvent::Read(n) => {
                    &&& final(self)@ == old(self)@.after_read(n as nat)
                    &&& r == match final(self)@.phase {
                        SendPhase::Writing => SendAction::Write,
                        SendPhase::Flushing => SendAction::Flush,
                        _ => SendAction::Read,
                    }
                },
                SendEvent::Written => {
                    &&& final(self)@ == old(self)@.after_written()
                    &&& r == SendAction::Read
                },
                SendEvent::Flushed => {
                    &&& final(self)@ == old(self)@.closed()
                    &&& r == old(self)@.done()
                },
                SendEvent::Failed(e) => {
                    &&& final(self)@ == old(self)@.closed()
                    &&& r == SendAction::Fail(TunnelError::Io(e))
                },
            },
    {
        match event {
            SendEvent::Read(n) => self.on_read(n),
            SendEvent::Written => {
                proof {
                    lemma_written_keeps_wf(self@);
                }
                self.total = self.total + self.filled as u64;
                self.filled = 0;
                self.phase = SendPhase::Filling;
                SendAction::Read
            },
            SendEvent::Flushed => {
                self.phase = SendPhase::Closed;
                SendAction::Done(self.total)
            },
            SendEvent::Failed(e) => {
                self.phase = SendPhase::Closed;
                SendAction::Fail(TunnelError::from(e))
            },
        }
    }

    /// The step for `n` bytes read.
    fn on_read(&mut self, n: usize) -> (r: SendAction)
        requires
            old(self)@.wf(),
            old(self)@.expects(SendEvent::Read(n)),
        ensures
            final(self)@.wf(),
            final(self)@ == old(self)@.after_read(n as nat),
            r == match final(self)@.phase {
                SendPhase::Writing => SendAction::Write,
                SendPhase::Flushing => SendAction::Flush,
                _ => SendAction::Read,
            },
    {
        proof {
            lemma_read_keeps_wf(self@, n as nat);
            let piece = self@.space().take(n as int);
            self.taken@ = self.taken@ + piece;
            self.late@ = self.late@ || (self.ended@ && n > 0);
            self.ended@ = self.ended@ || n == 0;
        }
        self.filled = self.filled + n;
        if n > 0 && self.filled < MAX_PAYLOAD {
            SendAction::Read
        } else if self.filled == 0 {
            self.phase = SendPhase::Flushing;
            SendAction::Flush
        } else {
            proof {
                self.sent@ = self.sent@.push(self@.payload());
            }
            match seal_frame(&mut self.cipher, &mut self.frame, self.filled) {
                Ok(_) => {
                    self.phase = SendPhase::Writing;
                    SendAction::Write
                },
                Err(e) => {
                    self.phase = SendPhase::Closed;
                    SendAction::Fail(TunnelError::from(e))
                },
            }
        }
    }
}

/// Other bytes in the free part of the buffer keep the sender's invariant.
proof fn lemma_with_space_keeps_wf(s: SenderState, region: Seq<u8>)
    requires
        s.wf(),
        s.phase == SendPhase::Filling,
        region.len() == s.space().len(),
    ensures
        s.with_space(region).wf(),
        s.with_space(region).space() == region,
{
    assert(s.with_space(region).payload() =~= s.payload());
    assert(s.with_space(region).space() =~= region);
}

/// Reading keeps the sender's invariant.
proof fn lemma_read_keeps_wf(s: SenderState, n: nat)
    requires
        s.wf(),
        s.phase == SendPhase::Filling,
        n <= s.space().len(),
    ensures
        s.after_read(n).wf(),
{
    let t = s.after_read(n);
    let payload = s.frame.subrange(LEN_LEN as int, LEN_LEN + s.filled + n);
    assert(payload =~= s.payload() + s.space().take(n as int));
    assert(s.taken + s.space().take(n as int) =~= stream::joined(s.sent) + payload);
    if n > 0 && s.filled + n < MAX_PAYLOAD {
    } else if s.filled + n == 0 {
        assert(payload =~= Seq::empty());
        assert(t.taken =~= stream::joined(t.sent));
    } else {
        stream::lemma_frame_len(s.chain, payload);
        assert(t.sent.drop_last() =~= s.sent);
        assert(t.sent.last() == payload);
        assert(t.outgoing() =~= stream::frame_of(s.chain, payload));
        assert forall|i: int| 0 <= i < t.sent.len() implies stream::is_chunk(
            #[trigger] t.sent[i],
        ) by {
            if i < s.sent.len() {
                assert(t.sent[i] == s.sent[i]);
            }
        }
    }
}

/// Writing the frame keeps the sender's invariant.
proof fn lemma_written_keeps_wf(s: SenderState)
    requires
        s.wf(),
        s.expects(SendEvent::Written),
    ensures
        s.after_written().wf(),
{
    let t = s.after_written();
    assert(t.payload() =~= Seq::empty());
    assert(t.taken =~= stream::joined(t.sent) + t.payload());
}

/// The frames that a sender writes, one after the other, make up the wire of
/// the chunks that it has sealed.
pub proof fn law_written_frames_make_the_wire(s: SenderState)
    requires
        s.wf(),
        s.phase == SendPhase::Writing,
    ensures
        stream::wire_of(s.start, s.sent) == stream::wire_of(s.start, s.sent.drop_last())
            + s.outgoing(),
{
}

/// When all that is left is the flush, the sender has sealed all the plaintext
/// that it has read, cut into full chunks but for the last, and counted its
/// bytes; provided that the source gave nothing after its end.
pub proof fn law_all_plaintext_is_sent(s: SenderState)
    requires
        s.wf(),
        s.phase == SendPhase::Flushing,
        !s.late,
    ensures
        s.sent == stream::chunks_of(s.taken),
        s.total == s.taken.len(),
{
    stream::law_full_chunks_are_the_cutting(s.sent);
}

/// The state after `piece` was read into the space and, if that made a frame,
/// the frame was written.
pub open spec fn after_piece(s: SenderState, piece: Seq<u8>) -> SenderState {
    let t = read_piece(s, piece);
    if t.phase == SendPhase::Writing {
        t.after_written()
    } else {
        t
    }
}

/// The state after `piece` was read into the space.
pub open spec fn read_piece(s: SenderState, piece: Seq<u8>) -> SenderState {
    s.with_space(piece + s.space().skip(piece.len() as int)).after_read(piece.len())
}

/// What is written on account of `piece`: a frame or nothing.
pub open spec fn written_for(s: SenderState, piece: Seq<u8>) -> Seq<u8> {
    let t = read_piece(s, piece);
    if t.phase == SendPhase::Writing {
        t.outgoing()
    } else {
        Seq::empty()
    }
}

/// The state after the source gave `pieces`, one a read, and the network took
/// everything.
pub open spec fn sender_run(s: SenderState, pieces: Seq<Seq<u8>>) -> SenderState
    decreases pieces.len(),
{
    if pieces.len() == 0 {
        s
    } else {
        after_piece(sender_run(s, pieces.drop_last()), pieces.last())
    }
}

/// What the network took meanwhile.
pub open spec fn sender_wire(s: SenderState, pieces: Seq<Seq<u8>>) -> Seq<u8>
    decreases pieces.len(),
{
    if pieces.len() == 0 {
        Seq::empty()
    } else {
        sender_wire(s, pieces.drop_last()) + written_for(
            sender_run(s, pieces.drop_last()),
            pieces.last(),
        )
    }
}

/// Each piece is read while the sender waits for plaintext, and fits in the
/// space.
pub open spec fn pieces_fit(s: SenderState, pieces: Seq<Seq<u8>>) -> bool
    decreases pieces.len(),
{
    pieces.len() > 0 ==> {
        let t = sender_run(s, pieces.drop_last());
        &&& pieces_fit(s, pieces.drop_last())
        &&& t.phase == SendPhase::Filling
        &&& pieces.last().len() <= t.space().len()
    }
}

/// The source reports its end at most at the end: no piece after an empty one
/// holds anything.
pub open spec fn ends_once(pieces: Seq<Seq<u8>>) -> bool {
    forall|i: int, j: int|
        0 <= i < j < pieces.len() && (#[trigger] pieces[i]).len() == 0 ==> (
        #[trigger] pieces[j]).len() == 0
}

/// What a run from a fresh state has done so far.
pub proof fn lemma_run(start: ChainState, buffer: Seq<u8>, pieces: Seq<Seq<u8>>)
    requires
        buffer.len() == FRAME_BUF,
        pieces_fit(SenderState::fresh(start, buffer), pieces),
        stream::joined(pieces).len() <= u64::MAX,
    ensures
        ({
            let s = SenderState::fresh(start, buffer);
            let t = sender_run(s, pieces);
            &&& t.wf()
            &&& t.phase == SendPhase::Filling || t.phase == SendPhase::Flushing
            &&& t.start == start
            &&& t.taken == stream::joined(pieces)
            &&& sender_wire(s, pieces) == stream::wire_of(start, t.sent)
            &&& t.ended <==> exists|i: int| 0 <= i < pieces.len() && (#[trigger] pieces[i]).len()
                == 0
            &&& ends_once(pieces) ==> !t.late
        }),
    decreases pieces.len(),
{
    let s = SenderState::fresh(start, buffer);
    if pieces.len() == 0 {
        assert(s.taken =~= stream::joined(s.sent) + s.payload());
    } else {
        let init = pieces.drop_last();
        let piece = pieces.last();
        let before = sender_run(s, init);
        lemma_run(start, buffer, init);
        let region = piece + before.space().skip(piece.len() as int);
        lemma_with_space_keeps_wf(before, region);
        let filled = before.with_space(region);
        assert(filled.space().take(piece.len() as int) =~= piece);
        let read = filled.after_read(piece.len());
        lemma_read_keeps_wf(filled, piece.len());
        if read.phase == SendPhase::Writing {
            assert(read.sent.drop_last() =~= before.sent);
            assert(stream::joined(read.sent) == read.taken);
            lemma_written_keeps_wf(read);
        } else {
            assert(sender_wire(s, pieces) =~= sender_wire(s, init));
        }
        let t = sender_run(s, pieces);
        assert(t.ended == (before.ended || piece.len() == 0));
        if before.ended {
            let i = choose|i: int| 0 <= i < init.len() && (#[trigger] init[i]).len() == 0;
            assert(pieces[i] == init[i]);
        }
        if piece.len() == 0 {
            assert(pieces[pieces.len() - 1].len() == 0);
        }
        if exists|i: int| 0 <= i < pieces.len() && (#[trigger] pieces[i]).len() == 0 {
            let i = choose|i: int| 0 <= i < pieces.len() && (#[trigger] pieces[i]).len() == 0;
            if i < init.len() {
                assert(init[i] == pieces[i]);
            }
        }
        if ends_once(pieces) {
            assert forall|i: int, j: int|
                0 <= i < j < init.len() && (#[trigger] init[i]).len() == 0 implies (
            #[trigger] init[j]).len() == 0 by {
                assert(init[i] == pieces[i] && init[j] == pieces[j]);
            }
            if before.ended {
                let i = choose|i: int| 0 <= i < init.len() && (#[trigger] init[i]).len() == 0;
                assert(pieces[i] == init[i]);
                assert(pieces[pieces.len() - 1] == piece);
            }
        }
    }
}

/// However the reads cut up the plaintext, a sender that has come to the flush
/// has written the frames of the plaintext in full chunks, the last of which
/// may be shorter, and counted its bytes.
pub proof fn law_sender_writes_the_wire_of_the_data(
    start: ChainState,
    buffer: Seq<u8>,
    pieces: Seq<Seq<u8>>,
)
    requires
        buffer.len() == FRAME_BUF,
        pieces_fit(SenderState::fresh(start, buffer), pieces),
        ends_once(pieces),
        stream::joined(pieces).len() <= u64::MAX,
        sender_run(SenderState::fresh(start, buffer), pieces).phase == SendPhase::Flushing,
    ensures
        sender_wire(SenderState::fresh(start, buffer), pieces) == stream::wire_of(
            start,
            stream::chunks_of(stream::joined(pieces)),
        ),
        sender_run(SenderState::fresh(start, buffer), pieces).total == stream::joined(
            pieces,
        ).len(),
{
    lemma_run(start, buffer, pieces);
    law_all_plaintext_is_sent(sender_run(SenderState::fresh(start, buffer), pieces));
}

/// An empty read with nothing in the buffer leaves only the flush to be done.
pub proof fn law_empty_read_leads_to_flush(s: SenderState)
    requires
        s.wf(),
        s.phase == SendPhase::Filling,
        s.filled == 0,
    ensures
        read_piece(s, Seq::empty()).phase == SendPhase::Flushing,
        after_piece(s, Seq::empty()).phase == SendPhase::Flushing,
{
}

/// The reads of a source that gives `pieces` and then ends: it reports its end
/// once if the buffer is empty then, and once more if a last chunk had to be
/// sent first.
pub open spec fn with_end(s: SenderState, pieces: Seq<Seq<u8>>) -> Seq<Seq<u8>> {
    if sender_run(s, pieces).filled == 0 {
        pieces.push(Seq::empty())
    } else {
        pieces.push(Seq::empty()).push(Seq::empty())
    }
}

/// None of the pieces is empty.
pub open spec fn none_empty(pieces: Seq<Seq<u8>>) -> bool {
    forall|i: int| 0 <= i < pieces.len() ==> (#[trigger] pieces[i]).len() > 0
}

/// A source that ends always brings the sender to the flush.
pub proof fn law_source_that_ends_is_flushed(
    start: ChainState,
    buffer: Seq<u8>,
    pieces: Seq<Seq<u8>>,
)
    requires
        buffer.len() == FRAME_BUF,
        pieces_fit(SenderState::fresh(start, buffer), pieces),
        none_empty(pieces),
        stream::joined(pieces).len() <= u64::MAX,
    ensures
        ({
            let s = SenderState::fresh(start, buffer);
            let reads = with_end(s, pieces);
            &&& pieces_fit(s, reads)
            &&& ends_once(reads)
            &&& stream::joined(reads) == stream::joined(pieces)
            &&& sender_run(s, reads).phase == SendPhase::Flushing
        }),
{
    let s = SenderState::fresh(start, buffer);
    let none = Seq::<u8>::empty();
    let once = pieces.push(none);
    let twice = once.push(none);
    lemma_run(start, buffer, pieces);
    let t = sender_run(s, pieces);
    assert(t.phase == SendPhase::Filling);
    assert(once.drop_last() =~= pieces);
    assert(twice.drop_last() =~= once);
    assert(stream::joined(once) =~= stream::joined(pieces));
    assert(stream::joined(twice) =~= stream::joined(pieces));
    assert(pieces_fit(s, once));
    if t.filled == 0 {
        law_empty_read_leads_to_flush(t);
    } else {
        lemma_run(start, buffer, once);
        let u = sender_run(s, once);
        assert(u.phase == SendPhase::Filling && u.filled == 0);
        assert(pieces_fit(s, twice));
        law_empty_read_leads_to_flush(u);
    }
}

/// Whatever a source gives, in reads of whatever sizes, once it has ended the
/// sender has written the frames of it all, in full chunks but for the last, and
/// the session ends with its length.
pub proof fn law_every_source_is_sent(start: ChainState, buffer: Seq<u8>, pieces: Seq<Seq<u8>>)
    requires
        buffer.len() == FRAME_BUF,
        pieces_fit(SenderState::fresh(start, buffer), pieces),
        none_empty(pieces),
        stream::joined(pieces).len() <= u64::MAX,
    ensures
        ({
            let s = SenderState::fresh(start, buffer);
            let reads = with_end(s, pieces);
            let data = stream::joined(pieces);
            &&& sender_run(s, reads).phase == SendPhase::Flushing
            &&& sender_run(s, reads).done() == SendAction::Done(data.len() as u64)
            &&& sender_wire(s, reads) == stream::wire_of(start, stream::chunks_of(data))
        }),
{
    law_source_that_ends_is_flushed(start, buffer, pieces);
    law_sender_writes_the_wire_of_the_data(
        start,
        buffer,
        with_end(SenderState::fresh(start, buffer), pieces),
    );
}

/// A new session waits for plaintext, at the given link, with an empty buffer.
pub proof fn law_fresh_sender(start: ChainState, frame: Seq<u8>)
    ensures
        ({
            let s = SenderState::fresh(start, frame);
            &&& s.chain == start && s.start == start
            &&& s.phase == SendPhase::Filling
            &&& s.frame == frame
            &&& s.filled == 0 && s.total == 0
            &&& s.sent == Seq::<Seq<u8>>::empty()
            &&& s.taken == Seq::<u8>::empty()
            &&& !s.ended && !s.late
        }),
{
}

/// Where things stand in the buffer: the payload behind the four bytes of the
/// header, and behind it what is still free of the 65536 bytes of a chunk. A
/// frame to be written is 20 bytes longer than its payload.
pub proof fn law_sender_buffer(s: SenderState, region: Seq<u8>)
    requires
        s.frame.len() == 65556,
        s.filled <= 65536,
        region.len() == 65536 - s.filled,
    ensures
        s.payload() == s.frame.subrange(4, s.filled as int + 4),
        s.space() == s.frame.subrange(s.filled as int + 4, 65540),
        s.outgoing() == s.frame.take(s.filled as int + 20),
        ({
            let t = s.with_space(region);
            &&& t.frame.len() == 65556
            &&& t.frame.take(s.filled as int + 4) == s.frame.take(s.filled as int + 4)
            &&& t.frame.subrange(s.filled as int + 4, 65540) == region
            &&& t.frame.skip(65540) == s.frame.skip(65540)
            &&& t == SenderState { frame: t.frame, ..s }
        }),
{
    let t = s.with_space(region);
    assert(t.frame.take(s.filled as int + 4) =~= s.frame.take(s.filled as int + 4));
    assert(t.frame.subrange(s.filled as int + 4, 65540) =~= region);
    assert(t.frame.skip(65540) =~= s.frame.skip(65540));
}

/// The events that a sender takes: a read of no more than what the chunk lacks
/// while it waits for plaintext, a write while it waits for the network, a flush
/// at the end, and a failure at any time before the session is over.
pub proof fn law_sender_expects(s: SenderState, n: usize, e: std::io::Error)
    requires
        s.frame.len() == 65556,
        s.filled <= 65536,
    ensures
        s.expects(SendEvent::Read(n)) <==> s.phase == SendPhase::Filling && s.filled + n <= 65536,
        s.expects(SendEvent::Written) <==> s.phase == SendPhase::Writing && s.total + s.filled
            <= u64::MAX,
        s.expects(SendEvent::Flushed) <==> s.phase == SendPhase::Flushing,
        s.expects(SendEvent::Failed(e)) <==> s.phase != SendPhase::Closed,
{
}

/// What a read of `n` bytes does. They count as taken. If the chunk is neither
/// full nor at its end, the sender waits for more. If there is nothing in the
/// buffer at the end of the source, only the flush is left. Otherwise the buffer
/// becomes a frame: the length of the payload in four bytes, every byte of the
/// payload XOR the keystream, and the tag; and the chain moves on by that tag.
pub proof fn law_read_step(s: SenderState, n: nat, nonce: Seq<u8>)
    requires
        s.frame.len() == 65556,
        s.filled + n <= 65536,
        nonce.len() == 12,
        nonce[0] == 0 && nonce[1] == 0 && nonce[2] == 0 && nonce[3] == 0,
        nonce[4] + 0x100 * nonce[5] + 0x1_0000 * nonce[6] + 0x100_0000 * nonce[7] + 0x1_0000_0000
            * nonce[8] + 0x100_0000_0000 * nonce[9] + 0x1_0000_0000_0000 * nonce[10]
            + 0x100_0000_0000_0000 * nonce[11] == s.chain.counter,
    ensures
        ({
            let t = s.after_read(n);
            let m = s.filled as int + n;
            &&& t.start == s.start
            &&& t.total == s.total
            &&& t.filled == m
            &&& t.taken == s.taken + s.frame.subrange(s.filled as int + 4, 4 + m)
            &&& t.ended <==> s.ended || n == 0
            &&& t.late <==> s.late || (s.ended && n > 0)
            &&& if 0 < n && m < 65536 {
                &&& t.phase == s.phase
                &&& t.frame == s.frame
                &&& t.chain == s.chain
                &&& t.sent == s.sent
            } else if m == 0 {
                &&& t.phase == SendPhase::Flushing
                &&& t.frame == s.frame
                &&& t.chain == s.chain
                &&& t.sent == s.sent
            } else {
                &&& t.phase == SendPhase::Writing
                &&& t.sent == s.sent.push(s.frame.subrange(4, 4 + m))
                &&& t.frame.len() == 65556
                &&& t.frame[0] + 0x100 * t.frame[1] + 0x1_0000 * t.frame[2] + 0x100_0000
                    * t.frame[3] == m
                &&& forall|j: int|
                    4 <= j < 4 + m ==> #[trigger] t.frame[j] == s.frame[j]
                        ^ primitives::chacha20_keystream(s.chain.key, nonce, (j - 4) as nat)
                &&& t.frame.subrange(4 + m, m + 20) == primitives::poly1305_tag(
                    s.chain.key,
                    nonce,
                    t.frame.take(4),
                    t.frame.subrange(4, 4 + m),
                )@
                &&& t.chain.key == primitives::blake3_digest(
                    s.chain.key + t.frame.subrange(4 + m, m + 20),
                )@
                &&& t.chain.counter as int == (s.chain.counter + 1) % 0x1_0000_0000_0000_0000
            }
        }),
{
    let t = s.after_read(n);
    let m = s.filled as int + n;
    assert(s.space().take(n as int) =~= s.frame.subrange(s.filled as int + 4, 4 + m));
    if !(0 < n && m < 65536) && m != 0 {
        let plain = s.frame.subrange(4, 4 + m);
        let f = stream::frame_of(s.chain, plain);
        stream::law_frame_layout(s.chain, nonce, plain);
        stream::law_frame_moves_the_chain(s.chain, plain);
        assert(t.frame == f + s.frame.skip(m + 20));
        assert(t.frame[0] == f[0] && t.frame[1] == f[1] && t.frame[2] == f[2] && t.frame[3]
            == f[3]);
        assert(t.frame.take(4) =~= f.take(4));
        assert(t.frame.subrange(4, 4 + m) =~= f.subrange(4, 4 + m));
        assert(t.frame.subrange(4 + m, m + 20) =~= f.subrange(4 + m, m + 20));
        assert(f.skip(m + 4) =~= t.frame.subrange(4 + m, m + 20));
        assert forall|j: int| 4 <= j < 4 + m implies #[trigger] t.frame[j] == s.frame[j]
            ^ primitives::chacha20_keystream(s.chain.key, nonce, (j - 4) as nat) by {
            assert(t.frame[j] == f[j]);
            assert(plain[j - 4] == s.frame[j]);
        }
    }
}

/// A written frame counts its payload to the total and empties the buffer. A
/// session that is over changes nothing else, and one that was flushed ends with
/// the total.
pub proof fn law_written_and_closed(s: SenderState)
    ensures
        s.after_written() == (SenderState {
            phase: SendPhase::Filling,
            filled: 0,
            total: s.total + s.filled,
            ..s
        }),
        s.closed() == (SenderState { phase: SendPhase::Closed, ..s }),
        s.done() == SendAction::Done(s.total as u64),
{
}

/// One more read: its bytes go to the front of the free space. If that makes a
/// frame, the frame and nothing else goes out.
pub proof fn law_one_more_read(s: SenderState, pieces: Seq<Seq<u8>>, piece: Seq<u8>)
    ensures
        sender_run(s, Seq::empty()) == s,
        sender_wire(s, Seq::empty()) == Seq::<u8>::empty(),
        pieces_fit(s, Seq::empty()),
        ({
            let t = sender_run(s, pieces);
            let u = t.with_space(piece + t.space().skip(piece.len() as int)).after_read(
                piece.len(),
            );
            &&& sender_run(s, pieces.push(piece)) == if u.phase == SendPhase::Writing {
                u.after_written()
            } else {
                u
            }
            &&& sender_wire(s, pieces.push(piece)) == sender_wire(s, pieces) + if u.phase
                == SendPhase::Writing {
                u.frame.take(u.filled as int + 20)
            } else {
                Seq::empty()
            }
            &&& pieces_fit(s, pieces.push(piece)) <==> {
                &&& pieces_fit(s, pieces)
                &&& t.phase == SendPhase::Filling
                &&& piece.len() <= t.space().len()
            }
        }),
{
    let all = pieces.push(piece);
    assert(all.drop_last() =~= pieces);
    assert(all.last() == piece);
}

/// Full chunks make up 65536 bytes each.
proof fn lemma_full_chunks_len(chunks: Seq<Seq<u8>>)
    requires
        forall|i: int| 0 <= i < chunks.len() ==> (#[trigger] chunks[i]).len() == 65536,
    ensures
        stream::joined(chunks).len() == 65536 * chunks.len(),
    decreases chunks.len(),
{
    if chunks.len() > 0 {
        let init = chunks.drop_last();
        assert forall|i: int| 0 <= i < init.len() implies (#[trigger] init[i]).len() == 65536 by {
            assert(init[i] == chunks[i]);
        }
        lemma_full_chunks_len(init);
        assert(chunks[chunks.len() - 1].len() == 65536);
    }
}

/// What a sender holds back while the source has not ended.
proof fn lemma_held_back(start: ChainState, buffer: Seq<u8>, pieces: Seq<Seq<u8>>)
    requires
        buffer.len() == FRAME_BUF,
        pieces_fit(SenderState::fresh(start, buffer), pieces),
        none_empty(pieces),
        stream::joined(pieces).len() <= u64::MAX,
    ensures
        ({
            let t = sender_run(SenderState::fresh(start, buffer), pieces);
            let n = stream::joined(pieces).len();
            &&& t.phase == SendPhase::Filling
            &&& t.filled == n % 65536
            &&& t.space().len() == 65536 - n % 65536
            &&& t.total == n - n % 65536
        }),
{
    lemma_run(start, buffer, pieces);
    let t = sender_run(SenderState::fresh(start, buffer), pieces);
    let sent = t.sent;
    assert(!t.ended);
    assert(ends_once(pieces));
    assert(t.phase == SendPhase::Filling);
    assert forall|i: int| 0 <= i < sent.len() implies (#[trigger] sent[i]).len() == 65536 by {}
    lemma_full_chunks_len(sent);
    assert(t.taken.len() == 65536 * sent.len() + t.filled);
}

/// As long as the source has not ended, the sender takes every read of no more
/// than what the current chunk lacks, and holds back just the bytes beyond the
/// last multiple of 65536.
pub proof fn law_reads_fill_chunks(start: ChainState, buffer: Seq<u8>, pieces: Seq<Seq<u8>>)
    requires
        buffer.len() == 65556,
        stream::joined(pieces).len() <= u64::MAX,
        forall|i: int|
            0 <= i < pieces.len() ==> 0 < (#[trigger] pieces[i]).len() <= 65536 - stream::joined(
                pieces.take(i),
            ).len() % 65536,
    ensures
        ({
            let s = SenderState::fresh(start, buffer);
            let t = sender_run(s, pieces);
            let n = stream::joined(pieces).len();
            &&& pieces_fit(s, pieces)
            &&& t.phase == SendPhase::Filling
            &&& t.filled == n % 65536
            &&& t.space().len() == 65536 - n % 65536
            &&& t.total == n - n % 65536
        }),
    decreases pieces.len(),
{
    let s = SenderState::fresh(start, buffer);
    assert(none_empty(pieces));
    assert(pieces_fit(s, pieces)) by {
        if pieces.len() > 0 {
            let init = pieces.drop_last();
            assert forall|i: int| 0 <= i < init.len() implies 0 < (#[trigger] init[i]).len()
                <= 65536 - stream::joined(init.take(i)).len() % 65536 by {
                assert(init[i] == pieces[i]);
                assert(init.take(i) =~= pieces.take(i));
            }
            law_reads_fill_chunks(start, buffer, init);
            assert(pieces.take(pieces.len() - 1) =~= init);
            assert(pieces[pieces.len() - 1] == pieces.last());
        }
    }
    lemma_held_back(start, buffer, pieces);
}

/// Every source, from its first byte to its end. The reads are of any sizes that
/// the current chunk has room for. The source then reports its end, and once more
/// if a last part of a chunk had to go out. What the network has taken is the
/// wire of the data from the key `k0`, cut every 65536 bytes; only the flush is
/// left, and the session ends with the length of the data.
pub proof fn law_source_to_its_end(
    k0: Seq<u8>,
    buffer: Seq<u8>,
    pieces: Seq<Seq<u8>>,
    reads: Seq<Seq<u8>>,
)
    requires
        buffer.len() == 65556,
        stream::joined(pieces).len() <= u64::MAX,
        forall|i: int|
            0 <= i < pieces.len() ==> 0 < (#[trigger] pieces[i]).len() <= 65536 - stream::joined(
                pieces.take(i),
            ).len() % 65536,
        reads == if stream::joined(pieces).len() % 65536 == 0 {
            pieces.push(Seq::empty())
        } else {
            pieces.push(Seq::empty()).push(Seq::empty())
        },
    ensures
        ({
            let s = SenderState::fresh(ChainState { key: k0, counter: 0 }, buffer);
            let data = stream::joined(pieces);
            let t = sender_run(s, reads);
            &&& pieces_fit(s, reads)
            &&& t.phase == SendPhase::Flushing
            &&& t.total == data.len()
            &&& t.done() == SendAction::Done(data.len() as u64)
            &&& sender_wire(s, reads) == stream::wire_of(
                ChainState::start(k0),
                stream::chunks_of(data),
            )
        }),
{
    let start = ChainState { key: k0, counter: 0 };
    let s = SenderState::fresh(start, buffer);
    law_reads_fill_chunks(start, buffer, pieces);
    assert(reads == with_end(s, pieces));
    assert(none_empty(pieces));
    assert(start == ChainState::start(k0));
    law_source_that_ends_is_flushed(start, buffer, pieces);
    law_every_source_is_sent(start, buffer, pieces);
    lemma_run(start, buffer, reads);
}

} // verus!
