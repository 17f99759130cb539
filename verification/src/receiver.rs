//! The receiving side of a session.
//!
//! [`Receiver`] decides, the caller performs: it fills [`Receiver::space`] from
//! the network, writes [`Receiver::payload`] to the sink, flushes the sink, and
//! tells [`Receiver::step`] what came of it.
use crate::bytes;
use crate::crypto::{ChainState, CryptoError, MorphingCipher, TAG_LEN};
use crate::frame::open_frame;
use crate::network::{TunnelError, FRAME_BUF, LEN_LEN, MAX_PAYLOAD};
use crate::crypto;
use crate::primitives;
use crate::stream;
use crate::stream::{Ending, Received};
use vstd::prelude::*;

verus! {

/// What a receiver is waiting for.
#[derive(Debug, Clone, Copy, PartialEq, Eq, Structural)]
pub enum ReceivePhase {
    /// The header of the next frame.
    Header,
    /// The payload and the tag of the current frame.
    Body,
    /// The sink taking the plaintext of the current frame.
    Delivering,
    /// The sink being flushed, after the end of the session.
    Flushing,
    /// Nothing: the session is over.
    Closed,
}

/// What came of the last action.
#[derive(Debug)]
pub enum ReceiveEvent {
    /// The space was filled.
    Filled,
    /// The network ended before the space was full.
    Eof(std::io::Error),
    /// The whole plaintext was written.
    Written,
    /// The sink was flushed.
    Flushed,
    /// The action failed.
    Failed(std::io::Error),
}

/// What is to be done next.
#[derive(Debug)]
pub enum ReceiveAction {
    /// Fill the space from the network.
    Read,
    /// Write the payload to the sink.
    Write,
    /// Flush the sink.
    Flush,
    /// Nothing: the session ended after so many bytes of plaintext.
    Done(u64),
    /// Nothing: the session failed.
    Fail(TunnelError),
}

/// The state of a receiver, together with what it has done since its start.
#[verifier::ext_equal]
pub struct ReceiverState {
    /// The current link of the key chain.
    pub chain: ChainState,
    pub phase: ReceivePhase,
    /// The buffer: room for the header, the payload and the tag of a frame.
    pub frame: Seq<u8>,
    /// The payload length of the current frame.
    pub len: nat,
    /// Bytes of plaintext that were written.
    pub total: nat,
    /// The link of the key chain at the start.
    pub start: ChainState,
    /// The plaintexts of the frames accepted so far.
    pub accepted: Seq<Seq<u8>>,
}

/// The text of the error for a header out of range.
pub open spec fn bad_length_text() -> Seq<char> {
    "lunghezza frame fuori range (0 o > 64 KiB)"@
}

impl ReceiverState {
    /// Where the part of the buffer that is to be filled begins.
    pub open spec fn space_start(self) -> int {
        if self.phase == ReceivePhase::Header {
            0
        } else {
            LEN_LEN as int
        }
    }

    /// Where the part of the buffer that is to be filled ends.
    pub open spec fn space_end(self) -> int {
        if self.phase == ReceivePhase::Header {
            LEN_LEN as int
        } else {
            LEN_LEN + self.len + TAG_LEN
        }
    }

    /// The part of the buffer that is to be filled.
    pub open spec fn space(self) -> Seq<u8> {
        self.frame.subrange(self.space_start(), self.space_end())
    }

    /// The state with other bytes in that part of the buffer.
    pub open spec fn with_space(self, region: Seq<u8>) -> ReceiverState {
        ReceiverState {
            frame: self.frame.take(self.space_start()) + region + self.frame.skip(
                self.space_end(),
            ),
            ..self
        }
    }

    /// The payload in the buffer.
    pub open spec fn payload(self) -> Seq<u8> {
        self.frame.subrange(LEN_LEN as int, LEN_LEN + self.len)
    }

    /// The receiver waits for the network.
    pub open spec fn reading(self) -> bool {
        self.phase == ReceivePhase::Header || self.phase == ReceivePhase::Body
    }

    /// What holds of a receiver at every moment.
    pub open spec fn wf(self) -> bool {
        &&& self.frame.len() == FRAME_BUF
        &&& self.len <= MAX_PAYLOAD
        &&& self.total <= u64::MAX
        &&& stream::all_chunks(self.accepted)
        &&& self.chain == stream::chain_after(self.start, self.accepted)
        &&& match self.phase {
            ReceivePhase::Header | ReceivePhase::Flushing => self.total == stream::joined(
                self.accepted,
            ).len(),
            ReceivePhase::Body => {
                &&& self.len == stream::announced(self.frame)
                &&& 1 <= self.len
                &&& self.total == stream::joined(self.accepted).len()
            },
            ReceivePhase::Delivering => {
                &&& self.accepted.len() > 0
                &&& self.payload() == self.accepted.last()
                &&& self.total == stream::joined(self.accepted.drop_last()).len()
            },
            ReceivePhase::Closed => true,
        }
    }

    /// The event is one that the phase waits for.
    pub open spec fn expects(self, event: ReceiveEvent) -> bool {
        match event {
            ReceiveEvent::Filled => self.reading(),
            ReceiveEvent::Eof(_) => self.reading(),
            ReceiveEvent::Written => self.phase == ReceivePhase::Delivering && self.total
                + self.len <= u64::MAX,
            ReceiveEvent::Flushed => self.phase == ReceivePhase::Flushing,
            ReceiveEvent::Failed(_) => self.phase != ReceivePhase::Closed,
        }
    }

    /// The state at the start of a session.
    pub open spec fn fresh(start: ChainState, frame: Seq<u8>) -> ReceiverState {
        ReceiverState {
            chain: start,
            phase: ReceivePhase::Header,
            frame,
            len: 0,
            total: 0,
            start,
            accepted: Seq::empty(),
        }
    }

    /// The header in the buffer announces a legal payload.
    pub open spec fn header_is_legal(self) -> bool {
        1 <= stream::announced(self.frame) <= MAX_PAYLOAD
    }

    /// The state after the header was read.
    pub open spec fn after_header(self) -> ReceiverState {
        if self.header_is_legal() {
            ReceiverState {
                phase: ReceivePhase::Body,
                len: stream::announced(self.frame),
                ..self
            }
        } else {
            self.closed()
        }
    }

    /// The state after the payload and the tag were read. A frame that opens is
    /// delivered and moves the chain on; one that does not ends the session and
    /// moves nothing.
    pub open spec fn after_body(self) -> ReceiverState {
        match stream::first_opened(self.chain, self.frame) {
            Some(plain) => ReceiverState {
                chain: self.chain.next(
                    self.frame.subrange(LEN_LEN + self.len, LEN_LEN + self.len + TAG_LEN),
                ),
                phase: ReceivePhase::Delivering,
                frame: self.frame.take(LEN_LEN as int) + plain + self.frame.skip(
                    LEN_LEN + self.len,
                ),
                accepted: self.accepted.push(plain),
                ..self
            },
            None => self.closed(),
        }
    }

    /// The state after the plaintext was written.
    pub open spec fn after_written(self) -> ReceiverState {
        ReceiverState { phase: ReceivePhase::Header, total: self.total + self.len, ..self }
    }

    /// How the session ends once the sink is flushed.
    pub open spec fn done(self) -> ReceiveAction {
        ReceiveAction::Done(self.total as u64)
    }

    /// The state when only the flush is left.
    pub open spec fn flushing(self) -> ReceiverState {
        ReceiverState { phase: ReceivePhase::Flushing, ..self }
    }

    /// The state when the session is over.
    pub open spec fn closed(self) -> ReceiverState {
        ReceiverState { phase: ReceivePhase::Closed, ..self }
    }
}

/// The receiving side of a session.
pub struct Receiver {
    cipher: MorphingCipher,
    frame: Vec<u8>,
    len: usize,
    total: u64,
    phase: ReceivePhase,
    start: Ghost<ChainState>,
    accepted: Ghost<Seq<Seq<u8>>>,
}

impl View for Receiver {
    type V = ReceiverState;

    closed spec fn view(&self) -> ReceiverState {
        ReceiverState {
            chain: self.cipher@,
            phase: self.phase,
            frame: self.frame@,
            len: self.len as nat,
            total: self.total as nat,
            start: self.start@,
            accepted: self.accepted@,
        }
    }
}

impl Receiver {
    /// Starts a session with `cipher`. The first action is to read.
    pub fn new(cipher: MorphingCipher) -> (r: Self)
        ensures
            r@ == ReceiverState::fresh(cipher@, Seq::new(FRAME_BUF as nat, |i: int| 0u8)),
            r@.wf(),
            r@.chain == cipher@ && r@.start == cipher@,
            r@.phase == ReceivePhase::Header,
            r@.frame.len() == 65556,
            r@.total == 0,
            r@.accepted.len() == 0,
    {
        let ghost start = cipher@;
        let r = Receiver {
            cipher,
            frame: vec![0u8; FRAME_BUF],
            len: 0,
            total: 0,
            phase: ReceivePhase::Header,
            start: Ghost(start),
            accepted: Ghost(Seq::empty()),
        };
        assert(r.frame@ =~= Seq::new(FRAME_BUF as nat, |i: int| 0u8));
        r
    }

    /// What the receiver is waiting for.
    pub fn phase(&self) -> (r: ReceivePhase)
        ensures
            r == self@.phase,
    {
        self.phase
    }

    /// Bytes of plaintext that were written.
    pub fn total(&self) -> (r: u64)
        ensures
            r == self@.total,
    {
        self.total
    }

    /// The part of the buffer to fill from the network.
    pub fn space(&mut self) -> (region: &mut [u8])
        requires
            old(self)@.wf(),
            old(self)@.reading(),
        ensures
            region@ == old(self)@.space(),
            region@.len() > 0,
            region@.len() == if old(self)@.phase == ReceivePhase::Header {
                4
            } else {
                old(self)@.len as int + 16
            },
            final(self)@ == old(self)@.with_space(final(region)@),
            final(region)@.len() == region@.len() ==> final(self)@.wf(),
    {
        proof {
            let s = self@;
            assert forall|t: ReceiverState, r: Seq<u8>|
                r.len() == s.space().len() && t =~= #[trigger] s.with_space(
                    r,
                ) implies #[trigger] t.wf() by {
                lemma_with_space_keeps_wf(s, r);
            }
        }
        let from: usize = match self.phase {
            ReceivePhase::Header => 0,
            _ => LEN_LEN,
        };
        let count: usize = match self.phase {
            ReceivePhase::Header => LEN_LEN,
            _ => self.len + TAG_LEN,
        };
        let (_, rest) = self.frame.as_mut_slice().split_at_mut(from);
        let (region, _) = rest.split_at_mut(count);
        region
    }

    /// The plaintext to be written.
    pub fn payload(&self) -> (r: &[u8])
        requires
            self@.wf(),
            self@.phase == ReceivePhase::Delivering,
        ensures
            r@ == self@.payload(),
            r@ == self@.frame.subrange(4, self@.len as int + 4),
    {
        let end: usize = LEN_LEN + self.len;
        &self.frame.as_slice()[LEN_LEN..end]
    }

    /// Takes note of what came of the last action and decides the next one.
    pub fn step(&mut self, event: ReceiveEvent) -> (r: ReceiveAction)
        requires
            old(self)@.wf(),
            old(self)@.expects(event),
        ensures
            final(self)@.wf(),
            event is Filled && old(self)@.phase == ReceivePhase::Header ==> {
                let f = old(self)@.frame;
                let n = f[0] + 0x100 * f[1] + 0x1_0000 * f[2] + 0x100_0000 * f[3];
                if 1 <= n <= 65536 {
                    &&& r == ReceiveAction::Read
                    &&& final(self)@.phase == ReceivePhase::Body
                    &&& final(self)@.len == n
                } else {
                    &&& r matches ReceiveAction::Fail(TunnelError::Protocol(m)) && m@
                        == "lunghezza frame fuori range (0 o > 64 KiB)"@
                    &&& final(self)@.phase == ReceivePhase::Closed
                }
            },
            event is Filled && old(self)@.phase == ReceivePhase::Body ==> {
                let s = old(self)@;
                let n = s.len as int;
                r == if s.frame.subrange(4 + n, n + 20) == primitives::poly1305_tag(
                    s.chain.key,
                    crypto::nonce_of(s.chain.counter),
                    s.frame.take(4),
                    s.frame.subrange(4, 4 + n),
                )@ {
                    ReceiveAction::Write
                } else {
                    ReceiveAction::Fail(TunnelError::Crypto(CryptoError::Open))
                }
            },
            event is Flushed ==> r == ReceiveAction::Done(old(self)@.total as u64),
            match event {
                ReceiveEvent::Filled => if old(self)@.phase == ReceivePhase::Header {
                    &&& final(self)@ == old(self)@.after_header()
                    &&& if old(self)@.header_is_legal() {
                        r == ReceiveAction::Read
                    } else {
                        r matches ReceiveAction::Fail(TunnelError::Protocol(m)) && m@
                            == bad_length_text()
                    }
                } else {
                    &&& final(self)@ == old(self)@.after_body()
                    &&& r == if stream::first_opened(old(self)@.chain, old(self)@.frame) is Some {
                        ReceiveAction::Write
                    } else {
                        ReceiveAction::Fail(TunnelError::Crypto(CryptoError::Open))
                    }
                },
                ReceiveEvent::Eof(e) => if old(self)@.phase == ReceivePhase::Header {
                    &&& final(self)@ == old(self)@.flushing()
                    &&& r == ReceiveAction::Flush
                } else {
                    &&& final(self)@ == old(self)@.closed()
                    &&& r == ReceiveAction::Fail(TunnelError::Io(e))
                },
                ReceiveEvent::Written => {
                    &&& final(self)@ == old(self)@.after_written()
                    &&& r == ReceiveAction::Read
                },
                ReceiveEvent::Flushed => {
                    &&& final(self)@ == old(self)@.closed()
                    &&& r == old(self)@.done()
                },
                ReceiveEvent::Failed(e) => {
                    &&& final(self)@ == old(self)@.closed()
                    &&& r == ReceiveAction::Fail(TunnelError::Io(e))
                },
            },
    {
        proof {
            let s = self@;
            stream::law_announced_is_the_header(s.frame);
            if s.phase == ReceivePhase::Body {
                crypto::law_nonce_layout(s.chain.counter);
                stream::law_first_frame_opens(
                    s.chain,
                    crypto::nonce_of(s.chain.counter),
                    s.frame,
                    s.len as int,
                );
            }
        }
        match event {
            ReceiveEvent::Filled => match self.phase {
                ReceivePhase::Header => self.on_header(),
                _ => self.on_body(),
            },
            ReceiveEvent::Eof(e) => match self.phase {
                ReceivePhase::Header => {
                    self.phase = ReceivePhase::Flushing;
                    ReceiveAction::Flush
                },
                _ => {
                    self.phase = ReceivePhase::Closed;
                    ReceiveAction::Fail(TunnelError::from(e))
                },
            },
            ReceiveEvent::Written => {
                self.total = self.total + self.len as u64;
                self.phase = ReceivePhase::Header;
                ReceiveAction::Read
            },
            ReceiveEvent::Flushed => {
                self.phase = ReceivePhase::Closed;
                ReceiveAction::Done(self.total)
            },
            ReceiveEvent::Failed(e) => {
                self.phase = ReceivePhase::Closed;
                ReceiveAction::Fail(TunnelError::from(e))
            },
        }
    }

    /// The step for a header read.
    fn on_header(&mut self) -> (r: ReceiveAction)
        requires
            old(self)@.wf(),
            old(self)@.phase == ReceivePhase::Header,
        ensures
            final(self)@.wf(),
            final(self)@ == old(self)@.after_header(),
            if old(self)@.header_is_legal() {
                r == ReceiveAction::Read
            } else {
                r matches ReceiveAction::Fail(TunnelError::Protocol(m)) && m@ == bad_length_text()
            },
    {
        let header: [u8; 4] = [self.frame[0], self.frame[1], self.frame[2], self.frame[3]];
        assert(header@ =~= self@.frame.take(LEN_LEN as int));
        let n: usize = bytes::u32_from_le(&header) as usize;
        if n == 0 || n > MAX_PAYLOAD {
            self.phase = ReceivePhase::Closed;
            return ReceiveAction::Fail(
                TunnelError::Protocol("lunghezza frame fuori range (0 o > 64 KiB)"),
            );
        }
        self.len = n;
        self.phase = ReceivePhase::Body;
        ReceiveAction::Read
    }

    /// The step for a payload and a tag read.
    fn on_body(&mut self) -> (r: ReceiveAction)
        requires
            old(self)@.wf(),
            old(self)@.phase == ReceivePhase::Body,
        ensures
            final(self)@.wf(),
            final(self)@ == old(self)@.after_body(),
            r == if stream::first_opened(old(self)@.chain, old(self)@.frame) is Some {
                ReceiveAction::Write
            } else {
                ReceiveAction::Fail(TunnelError::Crypto(CryptoError::Open))
            },
    {
        proof {
            lemma_body_keeps_wf(self@);
        }
        match open_frame(&mut self.cipher, &mut self.frame, self.len) {
            Ok(_) => {
                self.phase = ReceivePhase::Delivering;
                proof {
                    self.accepted@ = self.accepted@.push(self@.payload());
                    assert(self@.payload() =~= stream::first_opened(
                        old(self)@.chain,
                        old(self)@.frame,
                    )->Some_0);
                }
                ReceiveAction::Write
            },
            Err(e) => {
                self.phase = ReceivePhase::Closed;
                ReceiveAction::Fail(TunnelError::from(e))
            },
        }
    }
}

/// Other bytes in the part of the buffer that is to be filled keep the
/// receiver's invariant.
proof fn lemma_with_space_keeps_wf(s: ReceiverState, region: Seq<u8>)
    requires
        s.wf(),
        s.reading(),
        region.len() == s.space().len(),
    ensures
        s.with_space(region).wf(),
{
    if s.phase == ReceivePhase::Body {
        assert(s.with_space(region).frame.take(LEN_LEN as int) =~= s.frame.take(LEN_LEN as int));
    }
}

/// Opening a frame keeps the receiver's invariant.
proof fn lemma_body_keeps_wf(s: ReceiverState)
    requires
        s.wf(),
        s.phase == ReceivePhase::Body,
    ensures
        s.after_body().wf(),
{
    let t = s.after_body();
    if let Some(plain) = stream::first_opened(s.chain, s.frame) {
        let header = s.frame.take(LEN_LEN as int);
        let sealed = s.payload();
        let tag = s.frame.subrange(LEN_LEN + s.len, LEN_LEN + s.len + TAG_LEN);
        crate::crypto::law_opened_was_sealed(s.chain, header, sealed, tag, plain);
        bytes::lemma_le_value_writes_back(header);
        assert(header == stream::header_of(plain.len()));
        assert(t.accepted.drop_last() =~= s.accepted);
        assert(t.accepted.last() == plain);
        assert(t.payload() =~= plain);
        assert forall|i: int| 0 <= i < t.accepted.len() implies stream::is_chunk(
            #[trigger] t.accepted[i],
        ) by {
            if i < s.accepted.len() {
                assert(t.accepted[i] == s.accepted[i]);
            }
        }
    }
}

/// What a receiver that waits for a header hands on, and how its session ends,
/// if the network gives it `wire` and then ends, and the sink takes everything.
pub open spec fn receiver_run(s: ReceiverState, wire: Seq<u8>) -> Received
    decreases wire.len(),
{
    if wire.len() < LEN_LEN {
        Received { plain: Seq::empty(), ending: Ending::Clean }
    } else {
        let headed = s.with_space(wire.take(LEN_LEN as int)).after_header();
        let end = headed.space_end();
        if headed.phase == ReceivePhase::Closed {
            Received { plain: Seq::empty(), ending: Ending::BadLength }
        } else if wire.len() < end {
            Received { plain: Seq::empty(), ending: Ending::Truncated }
        } else {
            let opened = headed.with_space(wire.subrange(LEN_LEN as int, end)).after_body();
            if opened.phase == ReceivePhase::Closed {
                Received { plain: Seq::empty(), ending: Ending::NotAuthentic }
            } else {
                let rest = receiver_run(opened.after_written(), wire.skip(end));
                Received { plain: opened.payload() + rest.plain, ending: rest.ending }
            }
        }
    }
}

/// The steps of a receiver, one after the other, compute what the wire format
/// says a receiver makes of a wire.
pub proof fn law_steps_compute_received(s: ReceiverState, wire: Seq<u8>)
    requires
        s.wf(),
        s.phase == ReceivePhase::Header,
    ensures
        receiver_run(s, wire) == stream::received(s.chain, wire),
{
    lemma_steps_compute_received(s, wire);
}

/// The same, without the part of the invariant that the steps do not read.
proof fn lemma_steps_compute_received(s: ReceiverState, wire: Seq<u8>)
    requires
        s.frame.len() == FRAME_BUF,
        s.phase == ReceivePhase::Header,
    ensures
        receiver_run(s, wire) == stream::received(s.chain, wire),
    decreases wire.len(),
{
    if wire.len() >= LEN_LEN {
        let filled = s.with_space(wire.take(LEN_LEN as int));
        assert(filled.frame.take(LEN_LEN as int) =~= wire.take(LEN_LEN as int));
        let headed = filled.after_header();
        let end = headed.space_end();
        if headed.phase != ReceivePhase::Closed && wire.len() >= end {
            let body = headed.with_space(wire.subrange(LEN_LEN as int, end));
            assert(body.frame.take(LEN_LEN as int) =~= wire.take(LEN_LEN as int));
            let n = headed.len as int;
            assert(body.frame.subrange(LEN_LEN as int, LEN_LEN + n) =~= wire.subrange(
                LEN_LEN as int,
                LEN_LEN + n,
            ));
            assert(body.frame.subrange(LEN_LEN + n, end) =~= wire.subrange(LEN_LEN + n, end));
            let opened = body.after_body();
            if let Some(plain) = stream::first_opened(s.chain, wire) {
                assert(opened.payload() =~= plain);
                lemma_steps_compute_received(opened.after_written(), wire.skip(end));
            }
        }
    }
}

/// The state of that receiver when the network has ended or the session has
/// failed, but for the bytes of a cut-off read in its buffer.
pub open spec fn receiver_last(s: ReceiverState, wire: Seq<u8>) -> ReceiverState
    decreases wire.len(),
{
    if wire.len() < LEN_LEN {
        s.flushing()
    } else {
        let headed = s.with_space(wire.take(LEN_LEN as int)).after_header();
        let end = headed.space_end();
        if headed.phase == ReceivePhase::Closed {
            headed
        } else if wire.len() < end {
            headed.closed()
        } else {
            let opened = headed.with_space(wire.subrange(LEN_LEN as int, end)).after_body();
            if opened.phase == ReceivePhase::Closed {
                opened
            } else {
                receiver_last(opened.after_written(), wire.skip(end))
            }
        }
    }
}

/// Where a run ends: a clean one has only the flush left and is then done, with
/// the number of bytes handed on; any other one is closed. The frames that the
/// receiver has accepted are those that the wire format says.
pub proof fn law_clean_run_is_done_with_the_length(s: ReceiverState, wire: Seq<u8>)
    requires
        s.wf(),
        s.phase == ReceivePhase::Header,
        s.total + receiver_run(s, wire).plain.len() <= u64::MAX,
    ensures
        ({
            let got = receiver_run(s, wire);
            let last = receiver_last(s, wire);
            &&& last.wf()
            &&& last.start == s.start
            &&& last.accepted == s.accepted + stream::accepted(s.chain, wire)
            &&& got.ending == Ending::Clean ==> {
                &&& last.phase == ReceivePhase::Flushing
                &&& last.done() == ReceiveAction::Done((s.total + got.plain.len()) as u64)
            }
            &&& got.ending != Ending::Clean ==> last.phase == ReceivePhase::Closed
        }),
    decreases wire.len(),
{
    let last = receiver_last(s, wire);
    if wire.len() < LEN_LEN {
        assert(last.accepted =~= s.accepted + stream::accepted(s.chain, wire));
    } else {
        let first = wire.take(LEN_LEN as int);
        let filled = s.with_space(first);
        lemma_with_space_keeps_wf(s, first);
        assert(filled.frame.take(LEN_LEN as int) =~= first);
        let headed = filled.after_header();
        let end = headed.space_end();
        if headed.phase == ReceivePhase::Closed || wire.len() < end {
            assert(last.accepted =~= s.accepted + stream::accepted(s.chain, wire));
        } else {
            let n = headed.len as int;
            let region = wire.subrange(LEN_LEN as int, end);
            let body = headed.with_space(region);
            lemma_with_space_keeps_wf(headed, region);
            assert(body.frame.take(LEN_LEN as int) =~= first);
            assert(body.frame.subrange(LEN_LEN as int, LEN_LEN + n) =~= wire.subrange(
                LEN_LEN as int,
                LEN_LEN + n,
            ));
            assert(body.frame.subrange(LEN_LEN + n, end) =~= wire.subrange(LEN_LEN + n, end));
            assert(stream::first_opened(s.chain, body.frame) == stream::first_opened(
                s.chain,
                wire,
            ));
            let opened = body.after_body();
            lemma_body_keeps_wf(body);
            match stream::first_opened(s.chain, wire) {
                None => {
                    assert(last.accepted =~= s.accepted + stream::accepted(s.chain, wire));
                },
                Some(plain) => {
                    let next = opened.after_written();
                    let rest = wire.skip(end);
                    assert(opened.payload() =~= plain);
                    assert(opened.accepted.drop_last() =~= s.accepted);
                    assert(next.wf());
                    law_clean_run_is_done_with_the_length(next, rest);
                    assert(s.accepted.push(plain) + stream::accepted(next.chain, rest)
                        =~= s.accepted + (seq![plain] + stream::accepted(next.chain, rest)));
                },
            }
        }
    }
}

/// A new session waits for a header, at the given link.
pub proof fn law_fresh_receiver(start: ChainState, frame: Seq<u8>)
    ensures
        ({
            let s = ReceiverState::fresh(start, frame);
            &&& s.chain == start && s.start == start
            &&& s.phase == ReceivePhase::Header
            &&& s.frame == frame
            &&& s.total == 0
            &&& s.accepted == Seq::<Seq<u8>>::empty()
        }),
{
}

/// Where things stand in the buffer: four bytes of header are read to its front,
/// and the payload and the 16 bytes of the tag behind them.
pub proof fn law_receiver_buffer(s: ReceiverState, from: int, to: int, region: Seq<u8>)
    requires
        s.frame.len() == 65556,
        s.len <= 65536,
        s.phase == ReceivePhase::Header && from == 0 && to == 4 || s.phase == ReceivePhase::Body
            && from == 4 && to == s.len + 20,
        region.len() == to - from,
    ensures
        s.payload() == s.frame.subrange(4, s.len as int + 4),
        s.space() == s.frame.subrange(from, to),
        ({
            let t = s.with_space(region);
            &&& t.frame.len() == 65556
            &&& t.frame.take(from) == s.frame.take(from)
            &&& t.frame.subrange(from, to) == region
            &&& t.frame.skip(to) == s.frame.skip(to)
            &&& t == ReceiverState { frame: t.frame, ..s }
        }),
{
    let t = s.with_space(region);
    assert(t.frame.take(from) =~= s.frame.take(from));
    assert(t.frame.subrange(from, to) =~= region);
    assert(t.frame.skip(to) =~= s.frame.skip(to));
}

/// The events that a receiver takes: a full or a cut-off read while it waits for
/// the network, a write while it waits for the sink, a flush at the end, and a
/// failure at any time before the session is over.
pub proof fn law_receiver_expects(s: ReceiverState, e: std::io::Error)
    ensures
        s.reading() <==> s.phase == ReceivePhase::Header || s.phase == ReceivePhase::Body,
        s.expects(ReceiveEvent::Filled) <==> s.phase == ReceivePhase::Header || s.phase
            == ReceivePhase::Body,
        s.expects(ReceiveEvent::Eof(e)) <==> s.phase == ReceivePhase::Header || s.phase
            == ReceivePhase::Body,
        s.expects(ReceiveEvent::Written) <==> s.phase == ReceivePhase::Delivering && s.total
            + s.len <= u64::MAX,
        s.expects(ReceiveEvent::Flushed) <==> s.phase == ReceivePhase::Flushing,
        s.expects(ReceiveEvent::Failed(e)) <==> s.phase != ReceivePhase::Closed,
{
}

/// What a header does: its four bytes, read as a little-endian number, are the
/// length of the payload. A length from 1 to 65536 is waited for; any other one
/// ends the session.
pub proof fn law_header_step(s: ReceiverState, n: int)
    requires
        s.frame.len() == 65556,
        n == s.frame[0] + 0x100 * s.frame[1] + 0x1_0000 * s.frame[2] + 0x100_0000 * s.frame[3],
    ensures
        s.header_is_legal() <==> 1 <= n <= 65536,
        s.after_header() == if 1 <= n <= 65536 {
            ReceiverState { phase: ReceivePhase::Body, len: n as nat, ..s }
        } else {
            ReceiverState { phase: ReceivePhase::Closed, ..s }
        },
{
    stream::law_announced_is_the_header(s.frame);
}

/// What a payload and a tag do. If the tag is the one over the four bytes of the
/// header and the payload, every byte of the payload is XORed with the
/// keystream, the plaintext is delivered, and the chain moves on by the tag.
/// Otherwise the session is over and nothing else changes.
pub proof fn law_body_step(s: ReceiverState, n: int, nonce: Seq<u8>)
    requires
        s.frame.len() == 65556,
        n == s.frame[0] + 0x100 * s.frame[1] + 0x1_0000 * s.frame[2] + 0x100_0000 * s.frame[3],
        n == s.len,
        n <= 65536,
        nonce.len() == 12,
        nonce[0] == 0 && nonce[1] == 0 && nonce[2] == 0 && nonce[3] == 0,
        nonce[4] + 0x100 * nonce[5] + 0x1_0000 * nonce[6] + 0x100_0000 * nonce[7] + 0x1_0000_0000
            * nonce[8] + 0x100_0000_0000 * nonce[9] + 0x1_0000_0000_0000 * nonce[10]
            + 0x100_0000_0000_0000 * nonce[11] == s.chain.counter,
    ensures
        ({
            let t = s.after_body();
            let tag = s.frame.subrange(4 + n, n + 20);
            if tag == primitives::poly1305_tag(
                s.chain.key,
                nonce,
                s.frame.take(4),
                s.frame.subrange(4, 4 + n),
            )@ {
                &&& t.phase == ReceivePhase::Delivering
                &&& t.len == s.len && t.total == s.total && t.start == s.start
                &&& t.frame.len() == 65556
                &&& t.frame.take(4) == s.frame.take(4)
                &&& forall|j: int|
                    4 <= j < 4 + n ==> #[trigger] t.frame[j] == s.frame[j]
                        ^ primitives::chacha20_keystream(s.chain.key, nonce, (j - 4) as nat)
                &&& t.frame.skip(4 + n) == s.frame.skip(4 + n)
                &&& t.accepted == s.accepted.push(t.frame.subrange(4, 4 + n))
                &&& t.chain.key == primitives::blake3_digest(s.chain.key + tag)@
                &&& t.chain.counter as int == (s.chain.counter + 1) % 0x1_0000_0000_0000_0000
            } else {
                t == ReceiverState { phase: ReceivePhase::Closed, ..s }
            }
        }),
{
    let t = s.after_body();
    let tag = s.frame.subrange(4 + n, n + 20);
    stream::law_first_frame_opens(s.chain, nonce, s.frame, n);
    crypto::law_next_link(s.chain, tag);
    if let Some(plain) = stream::first_opened(s.chain, s.frame) {
        assert(t.frame.take(4) =~= s.frame.take(4));
        assert(t.frame.subrange(4, 4 + n) =~= plain);
        assert(t.frame.skip(4 + n) =~= s.frame.skip(4 + n));
        assert forall|j: int| 4 <= j < 4 + n implies #[trigger] t.frame[j] == s.frame[j]
            ^ primitives::chacha20_keystream(s.chain.key, nonce, (j - 4) as nat) by {
            assert(t.frame[j] == plain[j - 4]);
            assert(s.frame[4 + (j - 4)] == s.frame[j]);
        }
    }
}

/// A delivered plaintext counts to the total, and the next header is waited for.
/// A session that is flushed ends with the total. What was wrong with a header
/// is said in these words.
pub proof fn law_delivered_and_closed(s: ReceiverState)
    ensures
        s.after_written() == (ReceiverState {
            phase: ReceivePhase::Header,
            total: s.total + s.len,
            ..s
        }),
        s.flushing() == (ReceiverState { phase: ReceivePhase::Flushing, ..s }),
        s.closed() == (ReceiverState { phase: ReceivePhase::Closed, ..s }),
        s.done() == ReceiveAction::Done(s.total as u64),
        bad_length_text() == "lunghezza frame fuori range (0 o > 64 KiB)"@,
{
}

} // verus!
