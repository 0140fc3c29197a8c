//! Receiving replies without touching the transport.
//!
//! The caller reads the transport one byte at a time and hands every byte, or
//! the failure to read one, to a receiver. The receiver answers with `None`
//! while it needs more input, and with the outcome once there is one.

use crate::protocol::{
    is_reply, packet_view, size_field, Error, Packet, DIRECTION_REPLY, HEADER_LEN, MAX_BODY_LEN,
};
use crate::slip::{
    slip_frame, stuffed, stuffed_byte, SLIP_END, SLIP_ESC, SLIP_ESC_END, SLIP_ESC_ESC,
};
use vstd::prelude::*;

verus! {

/// What one read from the transport brought.
#[derive(Debug, Clone, Copy, PartialEq, Eq, Structural)]
pub enum ReadEvent {
    /// The next byte on the wire.
    Byte(u8),
    /// The read failed: end of input, an I/O error or a timeout.
    Failed,
}

/// Which part of a frame comes next.
#[derive(Debug, Clone, Copy, PartialEq, Eq, Structural)]
pub enum Stage {
    /// The opening delimiter.
    Opening,
    /// The stuffed bytes of the packet.
    Payload,
    /// The closing delimiter.
    Closing,
}

/// What a receiver answers while it needs more input (`None`) or once it has
/// an outcome, with the received packet as plain bytes.
pub type Answer = Option<Result<Seq<u8>, Error>>;

/// The answer of an executable receiver, as plain bytes.
pub open spec fn answer_view(answer: Option<Result<Packet, Error>>) -> Answer {
    match answer {
        Some(outcome) => Some(packet_view(outcome)),
        None => None,
    }
}

/// State of the frame receiver.
#[verifier::ext_equal]
pub struct FrameState {
    /// The part of the frame that comes next.
    pub stage: Stage,
    /// The last byte was an escape introducer, and its code is still to come.
    pub escape: bool,
    /// The packet bytes received so far.
    pub packet: Seq<u8>,
}

impl FrameState {
    /// Between frames.
    pub open spec fn idle() -> FrameState {
        FrameState { stage: Stage::Opening, escape: false, packet: Seq::empty() }
    }

    /// The states that a receiver can be in.
    pub open spec fn wf(self) -> bool {
        match self.stage {
            Stage::Opening => !self.escape && self.packet.len() == 0,
            Stage::Payload => self.packet.len() < HEADER_LEN || (self.packet[0] == DIRECTION_REPLY
                && self.packet.len() < HEADER_LEN + size_field(self.packet)),
            Stage::Closing => !self.escape && is_reply(self.packet),
        }
    }

    /// Takes one more packet byte. The direction is judged as soon as the
    /// header is there, and the body length is the one that the header gives.
    pub open spec fn accept(self, byte: u8) -> (FrameState, Answer) {
        let packet = self.packet.push(byte);
        if packet.len() < HEADER_LEN {
            (FrameState { stage: Stage::Payload, escape: false, packet }, None)
        } else if packet[0] != DIRECTION_REPLY {
            (FrameState::idle(), Some(Err(Error::Direction)))
        } else if packet.len() < HEADER_LEN + size_field(packet) {
            (FrameState { stage: Stage::Payload, escape: false, packet }, None)
        } else {
            (FrameState { stage: Stage::Closing, escape: false, packet }, None)
        }
    }

    /// One step of the receiver: the state after `event`, and the answer.
    ///
    /// A failed read ends the frame with `Device`. A delimiter is demanded
    /// before and behind the packet. In between, an escape introducer and its
    /// code give one packet byte, and every other byte stands for itself,
    /// but for the delimiter: a delimiter that comes before the packet is
    /// all there ends the frame with `Length`. After an answer the receiver
    /// is between frames again.
    pub open spec fn step(self, event: ReadEvent) -> (FrameState, Answer) {
        match event {
            ReadEvent::Failed => (FrameState::idle(), Some(Err(Error::Device))),
            ReadEvent::Byte(byte) => match self.stage {
                Stage::Opening => if byte == SLIP_END {
                    (FrameState { stage: Stage::Payload, escape: false, packet: Seq::empty() }, None)
                } else {
                    (FrameState::idle(), Some(Err(Error::SLIPFrame)))
                },
                Stage::Payload => if self.escape {
                    if byte == SLIP_ESC_END {
                        self.accept(SLIP_END)
                    } else if byte == SLIP_ESC_ESC {
                        self.accept(SLIP_ESC)
                    } else {
                        (FrameState::idle(), Some(Err(Error::SLIPFrame)))
                    }
                } else if byte == SLIP_ESC {
                    (FrameState { stage: Stage::Payload, escape: true, packet: self.packet }, None)
                } else if byte == SLIP_END {
                    (FrameState::idle(), Some(Err(Error::Length)))
                } else {
                    self.accept(byte)
                },
                Stage::Closing => if byte == SLIP_END {
                    (FrameState::idle(), Some(Ok(self.packet)))
                } else {
                    (FrameState::idle(), Some(Err(Error::SLIPFrame)))
                },
            },
        }
    }

    /// How many bytes the receiver can take at most before it answers: what
    /// the longest packet still needs, and the closing delimiter.
    pub open spec fn patience(self) -> nat {
        match self.stage {
            Stage::Opening => MAX_FRAME_LEN as nat,
            Stage::Payload => (2 * (HEADER_LEN + MAX_BODY_LEN - self.packet.len()) + 1 - (if self.escape {
                1int
            } else {
                0int
            })) as nat,
            Stage::Closing => 1,
        }
    }

    /// The receiver fed with the bytes of `wire` one after the other, up to
    /// its first answer: the state it is left in, the answer if there was
    /// one, and the number of bytes that it took.
    pub open spec fn run(self, wire: Seq<u8>) -> (FrameState, Answer, nat)
        decreases wire.len(),
    {
        if wire.len() == 0 {
            (self, None, 0)
        } else {
            let (next, answer) = self.step(ReadEvent::Byte(wire[0]));
            if answer is Some {
                (next, answer, 1)
            } else {
                let (last, answer, taken) = next.run(wire.skip(1));
                (last, answer, taken + 1)
            }
        }
    }
}

/// The longest frame on the wire: two delimiters, and two bytes for every
/// byte of the longest packet.
pub const MAX_FRAME_LEN: usize = 2 * (HEADER_LEN + MAX_BODY_LEN) + 2;

/// A receiver stays in one of its states, and the packets that it answers
/// with are complete replies, whatever it is fed.
pub proof fn lemma_receiver_answers_replies(state: FrameState, event: ReadEvent)
    requires
        state.wf(),
    ensures
        state.step(event).0.wf(),
        state.step(event).1 matches Some(Ok(packet)) ==> is_reply(packet),
{
}

/// Every byte that a receiver takes without an answer brings the answer
/// nearer: the number of bytes that it can still take goes down.
pub proof fn lemma_receiver_patience_goes_down(state: FrameState, event: ReadEvent)
    requires
        state.wf(),
    ensures
        1 <= state.patience() <= MAX_FRAME_LEN,
        state.step(event).1 is None ==> state.step(event).0.patience() < state.patience(),
{
    if state.stage == Stage::Payload && state.packet.len() >= HEADER_LEN {
        assert(size_field(state.packet) <= MAX_BODY_LEN);
    }
}

/// The state of a receiver that has taken the first `count` bytes of the
/// reply `packet`.
pub open spec fn receiving(packet: Seq<u8>, count: int) -> FrameState {
    if count < packet.len() {
        FrameState { stage: Stage::Payload, escape: false, packet: packet.take(count) }
    } else {
        FrameState { stage: Stage::Closing, escape: false, packet }
    }
}

/// A receiver in the middle of a reply takes the next byte of the reply
/// without an answer.
proof fn lemma_accept_reply_byte(packet: Seq<u8>, count: int)
    requires
        is_reply(packet),
        0 <= count < packet.len(),
    ensures
        receiving(packet, count).accept(packet[count]) == (
            receiving(packet, count + 1),
            None::<Result<Seq<u8>, Error>>,
        ),
{
    let grown = packet.take(count).push(packet[count]);
    assert(grown =~= packet.take(count + 1));
    if count + 1 >= HEADER_LEN {
        assert(grown[0] == packet[0]);
        assert(grown[2] == packet[2]);
        assert(grown[3] == packet[3]);
        assert(size_field(grown) == size_field(packet));
        if count + 1 == packet.len() {
            assert(grown =~= packet);
        }
    }
    assert(receiving(packet, count).accept(packet[count]).0 =~= receiving(packet, count + 1));
}

/// A receiver in the middle of a packet that is fed the wire bytes of one
/// packet byte takes this byte, and goes on with what follows where this
/// gives no answer.
proof fn lemma_run_stuffed_byte(state: FrameState, byte: u8, tail: Seq<u8>)
    requires
        state.stage == Stage::Payload,
        !state.escape,
    ensures
        state.run(stuffed_byte(byte) + tail) == ({
            let (next, answer) = state.accept(byte);
            if answer is Some {
                (next, answer, stuffed_byte(byte).len())
            } else {
                let (last, answer, taken) = next.run(tail);
                (last, answer, taken + stuffed_byte(byte).len())
            }
        }),
{
    let wire = stuffed_byte(byte) + tail;
    if byte == SLIP_END || byte == SLIP_ESC {
        let escaped = FrameState { stage: Stage::Payload, escape: true, packet: state.packet };
        assert(wire[0] == SLIP_ESC);
        assert(state.step(ReadEvent::Byte(wire[0])) == (
            escaped,
            None::<Result<Seq<u8>, Error>>,
        ));
        let inner = wire.skip(1);
        assert(inner[0] == stuffed_byte(byte)[1]);
        assert(escaped.step(ReadEvent::Byte(inner[0])) == state.accept(byte));
        assert(inner.skip(1) =~= tail);
        let (next, answer) = state.accept(byte);
        if answer is Some {
            assert(escaped.run(inner) == (next, answer, 1nat));
        } else {
            assert(escaped.run(inner) == ({
                let (last, answer, taken) = next.run(tail);
                (last, answer, taken + 1)
            }));
        }
    } else {
        assert(wire[0] == byte);
        assert(state.step(ReadEvent::Byte(wire[0])) == state.accept(byte));
        assert(wire.skip(1) =~= tail);
    }
}

/// A receiver in the middle of a reply, fed with the stuffed rest of the
/// reply, arrives at the closing delimiter without an answer.
proof fn lemma_run_reply_bytes(packet: Seq<u8>, count: int, tail: Seq<u8>)
    requires
        is_reply(packet),
        0 <= count <= packet.len(),
    ensures
        receiving(packet, count).run(stuffed(packet.skip(count)) + tail) == ({
            let (last, answer, taken) = receiving(packet, packet.len() as int).run(tail);
            (last, answer, taken + stuffed(packet.skip(count)).len())
        }),
    decreases packet.len() - count,
{
    let rest = packet.skip(count);
    if count == packet.len() {
        assert(stuffed(rest) =~= Seq::<u8>::empty());
        assert(stuffed(rest) + tail =~= tail);
    } else {
        let byte = packet[count];
        let after = packet.skip(count + 1);
        assert(rest[0] == byte);
        assert(rest.skip(1) =~= after);
        assert(stuffed(rest) + tail =~= stuffed_byte(byte) + (stuffed(after) + tail));
        lemma_run_stuffed_byte(receiving(packet, count), byte, stuffed(after) + tail);
        lemma_accept_reply_byte(packet, count);
        lemma_run_reply_bytes(packet, count + 1, tail);
    }
}

/// A receiver in the middle of a header that does not begin with the
/// direction byte of a reply, fed with the stuffed rest of the header,
/// answers `Direction` at its last byte.
proof fn lemma_run_header_bytes(header: Seq<u8>, count: int, tail: Seq<u8>)
    requires
        header.len() == HEADER_LEN,
        header[0] != DIRECTION_REPLY,
        0 <= count < HEADER_LEN,
    ensures
        receiving(header, count).run(stuffed(header.skip(count)) + tail) == (
            FrameState::idle(),
            Some(Err::<Seq<u8>, Error>(Error::Direction)),
            stuffed(header.skip(count)).len(),
        ),
    decreases HEADER_LEN - count,
{
    let rest = header.skip(count);
    let byte = header[count];
    let after = header.skip(count + 1);
    let state = receiving(header, count);
    let grown = header.take(count).push(byte);
    assert(rest[0] == byte);
    assert(rest.skip(1) =~= after);
    assert(stuffed(rest) + tail =~= stuffed_byte(byte) + (stuffed(after) + tail));
    assert(grown =~= header.take(count + 1));
    lemma_run_stuffed_byte(state, byte, stuffed(after) + tail);
    if count + 1 < HEADER_LEN {
        assert(state.accept(byte).0 =~= receiving(header, count + 1));
        lemma_run_header_bytes(header, count + 1, tail);
    } else {
        assert(grown[0] == header[0]);
        assert(stuffed(after) =~= Seq::<u8>::empty());
    }
}

/// The state of a receiver that has taken the first `count` bytes of a packet
/// which it still waits for.
pub open spec fn collecting(packet: Seq<u8>, count: int) -> FrameState {
    FrameState { stage: Stage::Payload, escape: false, packet: packet.take(count) }
}

/// Whether `packet` is the beginning of a reply and not yet all of it: the
/// header is not all there, or it is the header of a reply and the body is
/// shorter than it says.
pub open spec fn is_cut_short(packet: Seq<u8>) -> bool {
    packet.len() < HEADER_LEN || (packet[0] == DIRECTION_REPLY && packet.len() < HEADER_LEN
        + size_field(packet))
}

/// A receiver in the middle of a packet that is cut short, fed with the
/// stuffed rest of it and a delimiter, answers `Length` at the delimiter.
proof fn lemma_run_cut_short(packet: Seq<u8>, count: int, tail: Seq<u8>)
    requires
        is_cut_short(packet),
        0 <= count <= packet.len(),
    ensures
        collecting(packet, count).run(stuffed(packet.skip(count)) + seq![SLIP_END] + tail) == (
            FrameState::idle(),
            Some(Err::<Seq<u8>, Error>(Error::Length)),
            stuffed(packet.skip(count)).len() + 1,
        ),
    decreases packet.len() - count,
{
    let rest = packet.skip(count);
    let state = collecting(packet, count);
    let closing = seq![SLIP_END] + tail;
    if count == packet.len() {
        assert(stuffed(rest) =~= Seq::<u8>::empty());
        assert(stuffed(rest) + seq![SLIP_END] + tail =~= closing);
        assert(closing[0] == SLIP_END);
        assert(state.step(ReadEvent::Byte(closing[0])) == (
            FrameState::idle(),
            Some(Err::<Seq<u8>, Error>(Error::Length)),
        ));
    } else {
        let byte = packet[count];
        let after = packet.skip(count + 1);
        let grown = packet.take(count).push(byte);
        assert(rest[0] == byte);
        assert(rest.skip(1) =~= after);
        assert(stuffed(rest) + seq![SLIP_END] + tail =~= stuffed_byte(byte) + (stuffed(after)
            + seq![SLIP_END] + tail));
        assert(grown =~= packet.take(count + 1));
        if count + 1 >= HEADER_LEN {
            assert(grown[0] == packet[0]);
            assert(grown[2] == packet[2]);
            assert(grown[3] == packet[3]);
            assert(size_field(grown) == size_field(packet));
        }
        assert(state.accept(byte).0 =~= collecting(packet, count + 1));
        lemma_run_stuffed_byte(state, byte, stuffed(after) + seq![SLIP_END] + tail);
        lemma_run_cut_short(packet, count + 1, tail);
    }
}

/// A receiver between frames that is fed the frame of a packet which is cut
/// short answers `Length` at the closing delimiter of the frame, and takes
/// nothing of what follows.
pub proof fn lemma_cut_short_frame_fails(packet: Seq<u8>, tail: Seq<u8>)
    requires
        is_cut_short(packet),
    ensures
        FrameState::idle().run(slip_frame(packet) + tail) == (
            FrameState::idle(),
            Some(Err::<Seq<u8>, Error>(Error::Length)),
            slip_frame(packet).len(),
        ),
{
    let wire = slip_frame(packet) + tail;
    assert(wire[0] == SLIP_END);
    assert(packet.skip(0) =~= packet);
    assert(wire.skip(1) =~= stuffed(packet.skip(0)) + seq![SLIP_END] + tail);
    assert(collecting(packet, 0) =~= FrameState {
        stage: Stage::Payload,
        escape: false,
        packet: Seq::empty(),
    });
    assert(FrameState::idle().step(ReadEvent::Byte(wire[0])) == (
        collecting(packet, 0),
        None::<Result<Seq<u8>, Error>>,
    ));
    lemma_run_cut_short(packet, 0, tail);
}

/// A receiver between frames that is fed a frame with fewer packet bytes than
/// a header has answers `Length` at the closing delimiter of the frame.
pub proof fn lemma_short_frame_fails(packet: Seq<u8>, tail: Seq<u8>)
    requires
        packet.len() < HEADER_LEN,
    ensures
        FrameState::idle().run(slip_frame(packet) + tail) == (
            FrameState::idle(),
            Some(Err::<Seq<u8>, Error>(Error::Length)),
            slip_frame(packet).len(),
        ),
{
    lemma_cut_short_frame_fails(packet, tail);
}

/// A receiver between frames that is fed a frame whose header does not begin
/// with the direction byte of a reply answers `Direction` at the last byte of
/// the header: before a byte of the body is read, whatever the header says of
/// its length.
pub proof fn lemma_wrong_direction_fails_fast(header: Seq<u8>, tail: Seq<u8>)
    requires
        header.len() == HEADER_LEN,
        header[0] != DIRECTION_REPLY,
    ensures
        FrameState::idle().run(seq![SLIP_END] + stuffed(header) + tail) == (
            FrameState::idle(),
            Some(Err::<Seq<u8>, Error>(Error::Direction)),
            1 + stuffed(header).len(),
        ),
{
    let wire = seq![SLIP_END] + stuffed(header) + tail;
    assert(wire[0] == SLIP_END);
    assert(header.skip(0) =~= header);
    assert(wire.skip(1) =~= stuffed(header.skip(0)) + tail);
    assert(receiving(header, 0) =~= FrameState {
        stage: Stage::Payload,
        escape: false,
        packet: Seq::empty(),
    });
    assert(FrameState::idle().step(ReadEvent::Byte(wire[0])) == (
        receiving(header, 0),
        None::<Result<Seq<u8>, Error>>,
    ));
    lemma_run_header_bytes(header, 0, tail);
}

/// A receiver between frames that is fed the frame of a reply gives the
/// reply back, at the last byte of the frame and not before, whatever bytes
/// follow the frame.
pub proof fn lemma_receive_frame(packet: Seq<u8>, tail: Seq<u8>)
    requires
        is_reply(packet),
    ensures
        FrameState::idle().run(slip_frame(packet) + tail) == (
            FrameState::idle(),
            Some(Ok::<Seq<u8>, Error>(packet)),
            slip_frame(packet).len(),
        ),
{
    let wire = slip_frame(packet) + tail;
    let closing = seq![SLIP_END] + tail;
    assert(wire[0] == SLIP_END);
    assert(packet.skip(0) =~= packet);
    assert(wire.skip(1) =~= stuffed(packet.skip(0)) + closing);
    assert(receiving(packet, 0) =~= FrameState {
        stage: Stage::Payload,
        escape: false,
        packet: Seq::empty(),
    });
    assert(FrameState::idle().step(ReadEvent::Byte(wire[0])) == (
        receiving(packet, 0),
        None::<Result<Seq<u8>, Error>>,
    ));
    lemma_run_reply_bytes(packet, 0, closing);
    let last = receiving(packet, packet.len() as int);
    assert(closing[0] == SLIP_END);
    assert(last.step(ReadEvent::Byte(closing[0])) == (
        FrameState::idle(),
        Some(Ok::<Seq<u8>, Error>(packet)),
    ));
    assert(last.run(closing) == (FrameState::idle(), Some(Ok::<Seq<u8>, Error>(packet)), 1nat));
}

/// Receives one frame after the other, a byte at a time.
pub struct FrameReceiver {
    stage: Stage,
    escape: bool,
    packet: Vec<u8>,
}

impl View for FrameReceiver {
    type V = FrameState;

    closed spec fn view(&self) -> FrameState {
        FrameState { stage: self.stage, escape: self.escape, packet: self.packet@ }
    }
}

impl FrameReceiver {
    #[verifier::type_invariant]
    spec fn inv(self) -> bool {
        self@.wf()
    }

    /// A receiver between frames.
    pub fn new() -> (receiver: FrameReceiver)
        ensures
            receiver@ == FrameState::idle(),
    {
        FrameReceiver { stage: Stage::Opening, escape: false, packet: Vec::new() }
    }

    /// Hands the receiver what the last read brought.
    pub fn feed(&mut self, event: ReadEvent) -> (answer: Option<Result<Packet, Error>>)
        ensures
            (final(self)@, answer_view(answer)) == old(self)@.step(event),
            final(self)@.wf(),
            answer matches Some(Ok(packet)) ==> is_reply(packet@),
    {
        proof {
            use_type_invariant(&*self);
        }
        let mut current = FrameReceiver::new();
        core::mem::swap(self, &mut current);
        let FrameReceiver { stage, escape, packet } = current;
        let byte: u8 = match event {
            ReadEvent::Failed => {
                return Some(Err(Error::Device));
            },
            ReadEvent::Byte(byte) => byte,
        };
        match stage {
            Stage::Opening => {
                if byte == SLIP_END {
                    *self = FrameReceiver { stage: Stage::Payload, escape: false, packet };
                    None
                } else {
                    Some(Err(Error::SLIPFrame))
                }
            },
            Stage::Payload => {
                let plain: u8 = if escape {
                    if byte == SLIP_ESC_END {
                        SLIP_END
                    } else if byte == SLIP_ESC_ESC {
                        SLIP_ESC
                    } else {
                        return Some(Err(Error::SLIPFrame));
                    }
                } else if byte == SLIP_ESC {
                    *self = FrameReceiver { stage: Stage::Payload, escape: true, packet };
                    return None;
                } else if byte == SLIP_END {
                    return Some(Err(Error::Length));
                } else {
                    byte
                };
                let mut packet = packet;
                packet.push(plain);
                if packet.len() < HEADER_LEN {
                    *self = FrameReceiver { stage: Stage::Payload, escape: false, packet };
                    None
                } else if packet[0] != DIRECTION_REPLY {
                    Some(Err(Error::Direction))
                } else {
                    let size: usize = packet[2] as usize + packet[3] as usize * 256;
                    if packet.len() - HEADER_LEN < size {
                        *self = FrameReceiver { stage: Stage::Payload, escape: false, packet };
                    } else {
                        *self = FrameReceiver { stage: Stage::Closing, escape: false, packet };
                    }
                    None
                }
            },
            Stage::Closing => {
                if byte == SLIP_END {
                    Some(Ok(Packet::from_bytes(packet)))
                } else {
                    Some(Err(Error::SLIPFrame))
                }
            },
        }
    }
}

/// How many frames one wait for a reply may use up before it gives up.
pub const RETRY_BUDGET: usize = 100;

/// Whether `frame` is a packet with the opcode `expected`.
pub open spec fn is_match(expected: u8, frame: Result<Seq<u8>, Error>) -> bool {
    match frame {
        Ok(packet) => packet.len() >= 2 && packet[1] == expected,
        Err(_) => false,
    }
}

/// Whether `frame` ends the wait at once: a failure of the transport does.
pub open spec fn is_fatal(frame: Result<Seq<u8>, Error>) -> bool {
    frame == Err::<Seq<u8>, Error>(Error::Device)
}

/// State of the wait for a reply.
pub struct FilterState {
    /// The opcode that the reply must carry.
    pub expected: u8,
    /// How many frames were passed over since the wait began.
    pub attempts: nat,
    /// The error of the last frame that could not be received, if there was one.
    pub last_error: Option<Error>,
}

impl FilterState {
    /// The start of a wait for a reply with the opcode `expected`.
    pub open spec fn fresh(expected: u8) -> FilterState {
        FilterState { expected, attempts: 0, last_error: None }
    }

    /// The states that a wait can be in.
    pub open spec fn wf(self) -> bool {
        self.attempts < RETRY_BUDGET
    }

    /// The error that the wait ends with when the budget is used up: the last
    /// error met, or `Command` where every frame was a packet of another opcode.
    pub open spec fn giving_up(last_error: Option<Error>) -> Error {
        match last_error {
            Some(error) => error,
            None => Error::Command,
        }
    }

    /// One step of the wait: the state after the outcome `frame` of one
    /// attempt to receive a frame, and the answer.
    ///
    /// A packet with the expected opcode is the reply. A failure of the
    /// transport ends the wait. Anything else is passed over: a packet with
    /// another opcode is dropped, a frame that could not be received is
    /// remembered by its error. The frame that uses up the budget ends the
    /// wait with an error. After an answer the next wait begins.
    pub open spec fn offer(self, frame: Result<Seq<u8>, Error>) -> (FilterState, Answer) {
        if is_match(self.expected, frame) || is_fatal(frame) {
            (FilterState::fresh(self.expected), Some(frame))
        } else {
            let last_error = match frame {
                Err(error) => Some(error),
                Ok(_) => self.last_error,
            };
            if self.attempts + 1 >= RETRY_BUDGET {
                (
                    FilterState::fresh(self.expected),
                    Some(Err(FilterState::giving_up(last_error))),
                )
            } else {
                (
                    FilterState { expected: self.expected, attempts: self.attempts + 1, last_error },
                    None,
                )
            }
        }
    }

    /// The wait offered the outcomes `frames` one after the other, up to its
    /// first answer: the state it is left in, the answer if there was one,
    /// and the number of outcomes that it took.
    pub open spec fn run(self, frames: Seq<Result<Seq<u8>, Error>>) -> (FilterState, Answer, nat)
        decreases frames.len(),
    {
        if frames.len() == 0 {
            (self, None, 0)
        } else {
            let (next, answer) = self.offer(frames[0]);
            if answer is Some {
                (next, answer, 1)
            } else {
                let (last, answer, taken) = next.run(frames.skip(1));
                (last, answer, taken + 1)
            }
        }
    }
}

/// Whether the wait passes over `frame`: it is neither the reply nor fatal.
pub open spec fn is_passed_over(expected: u8, frame: Result<Seq<u8>, Error>) -> bool {
    !is_match(expected, frame) && !is_fatal(frame)
}

/// The error of the last of `frames` that is an error, if one of them is.
pub open spec fn last_error(frames: Seq<Result<Seq<u8>, Error>>) -> Option<Error>
    decreases frames.len(),
{
    if frames.len() == 0 {
        None
    } else {
        match last_error(frames.skip(1)) {
            Some(error) => Some(error),
            None => match frames[0] {
                Err(error) => Some(error),
                Ok(_) => None,
            },
        }
    }
}

/// The last error of `frames`, or `before` where none of them is an error.
pub open spec fn last_error_since(before: Option<Error>, frames: Seq<Result<Seq<u8>, Error>>)
    -> Option<Error> {
    match last_error(frames) {
        Some(error) => Some(error),
        None => before,
    }
}

/// The last error of a sequence that ends in `frame`.
proof fn lemma_last_error_push(
    frames: Seq<Result<Seq<u8>, Error>>,
    frame: Result<Seq<u8>, Error>,
)
    ensures
        last_error(frames.push(frame)) == match frame {
            Err(error) => Some(error),
            Ok(_) => last_error(frames),
        },
    decreases frames.len(),
{
    let all = frames.push(frame);
    if frames.len() == 0 {
        assert(all.skip(1).len() == 0);
        assert(last_error(all.skip(1)) == None::<Error>);
    } else {
        lemma_last_error_push(frames.skip(1), frame);
        assert(all.skip(1) =~= frames.skip(1).push(frame));
        assert(all[0] == frames[0]);
    }
}

/// A wait that is offered outcomes which it passes over, fewer than it has
/// budget left, takes them all without an answer and remembers the last error.
proof fn lemma_run_passed_over(
    state: FilterState,
    skipped: Seq<Result<Seq<u8>, Error>>,
    tail: Seq<Result<Seq<u8>, Error>>,
)
    requires
        state.attempts + skipped.len() < RETRY_BUDGET,
        forall|i: int| 0 <= i < skipped.len() ==> is_passed_over(state.expected, skipped[i]),
    ensures
        state.run(skipped + tail) == ({
            let (last, answer, taken) = FilterState {
                expected: state.expected,
                attempts: state.attempts + skipped.len(),
                last_error: last_error_since(state.last_error, skipped),
            }.run(tail);
            (last, answer, taken + skipped.len())
        }),
    decreases skipped.len(),
{
    let frames = skipped + tail;
    if skipped.len() == 0 {
        assert(frames =~= tail);
    } else {
        let first = skipped[0];
        assert(frames[0] == first);
        assert(is_passed_over(state.expected, first));
        let (next, answer) = state.offer(first);
        assert(answer is None);
        let rest = skipped.skip(1);
        assert(frames.skip(1) =~= rest + tail);
        assert forall|i: int| 0 <= i < rest.len() implies is_passed_over(
            next.expected,
            rest[i],
        ) by {
            assert(rest[i] == skipped[i + 1]);
        }
        lemma_run_passed_over(next, rest, tail);
        assert(last_error_since(next.last_error, rest) == last_error_since(
            state.last_error,
            skipped,
        ));
    }
}

/// The wait for a reply ends at the first outcome that is a packet with the
/// expected opcode or a failure of the transport, with this outcome as its
/// answer, provided that fewer outcomes than the retry budget come before it.
/// The outcomes before it are passed over.
pub proof fn lemma_wait_ends_at_first_match(
    expected: u8,
    frames: Seq<Result<Seq<u8>, Error>>,
    index: int,
)
    requires
        0 <= index < frames.len(),
        index < RETRY_BUDGET,
        forall|i: int| 0 <= i < index ==> is_passed_over(expected, frames[i]),
        is_match(expected, frames[index]) || is_fatal(frames[index]),
    ensures
        FilterState::fresh(expected).run(frames) == (
            FilterState::fresh(expected),
            Some(frames[index]),
            (index + 1) as nat,
        ),
{
    let skipped = frames.take(index);
    let tail = frames.skip(index);
    assert(frames =~= skipped + tail);
    lemma_run_passed_over(FilterState::fresh(expected), skipped, tail);
    assert(tail[0] == frames[index]);
}

/// The wait for a reply gives up at the outcome that uses up the retry
/// budget, where all outcomes up to it are passed over: with the last error
/// among them, or with `Command` where all of them were packets.
pub proof fn lemma_wait_gives_up(expected: u8, frames: Seq<Result<Seq<u8>, Error>>)
    requires
        frames.len() >= RETRY_BUDGET,
        forall|i: int| 0 <= i < RETRY_BUDGET ==> is_passed_over(expected, frames[i]),
    ensures
        FilterState::fresh(expected).run(frames) == (
            FilterState::fresh(expected),
            Some(
                Err::<Seq<u8>, Error>(
                    FilterState::giving_up(last_error(frames.take(RETRY_BUDGET as int))),
                ),
            ),
            RETRY_BUDGET as nat,
        ),
{
    let count = RETRY_BUDGET - 1;
    let skipped = frames.take(count);
    let tail = frames.skip(count);
    assert(frames =~= skipped + tail);
    lemma_run_passed_over(FilterState::fresh(expected), skipped, tail);
    assert(tail[0] == frames[count]);
    assert(is_passed_over(expected, frames[count]));
    lemma_last_error_push(skipped, frames[count]);
    assert(skipped.push(frames[count]) =~= frames.take(RETRY_BUDGET as int));
}

/// Waits for the reply to one command among the frames that arrive.
pub struct ReplyFilter {
    expected: u8,
    attempts: usize,
    last_error: Option<Error>,
}

impl View for ReplyFilter {
    type V = FilterState;

    closed spec fn view(&self) -> FilterState {
        FilterState {
            expected: self.expected,
            attempts: self.attempts as nat,
            last_error: self.last_error,
        }
    }
}

impl ReplyFilter {
    #[verifier::type_invariant]
    spec fn inv(self) -> bool {
        self@.wf()
    }

    /// The start of a wait for a reply with the opcode `expected`.
    pub fn new(expected: u8) -> (filter: ReplyFilter)
        ensures
            filter@ == FilterState::fresh(expected),
    {
        ReplyFilter { expected, attempts: 0, last_error: None }
    }

    /// The opcode that the reply must carry.
    pub fn expected(&self) -> (opcode: u8)
        ensures
            opcode == self@.expected,
    {
        self.expected
    }

    /// Hands the filter the outcome of one attempt to receive a frame.
    pub fn offer(&mut self, frame: Result<Packet, Error>) -> (answer: Option<Result<Packet, Error>>)
        ensures
            (final(self)@, answer_view(answer)) == old(self)@.offer(packet_view(frame)),
            final(self)@.wf(),
    {
        proof {
            use_type_invariant(&*self);
        }
        let expected: u8 = self.expected;
        let last_error: Option<Error> = match frame {
            Ok(packet) => {
                if packet.as_bytes().len() >= 2 && packet.command() == expected {
                    *self = ReplyFilter::new(expected);
                    return Some(Ok(packet));
                }
                self.last_error
            },
            Err(Error::Device) => {
                *self = ReplyFilter::new(expected);
                return Some(Err(Error::Device));
            },
            Err(error) => Some(error),
        };
        if self.attempts + 1 >= RETRY_BUDGET {
            *self = ReplyFilter::new(expected);
            Some(
                Err(
                    match last_error {
                        Some(error) => error,
                        None => Error::Command,
                    },
                ),
            )
        } else {
            *self = ReplyFilter { expected, attempts: self.attempts + 1, last_error };
            None
        }
    }
}

} // verus!
