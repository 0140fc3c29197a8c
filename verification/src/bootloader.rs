//! The commands of the bootloader: what to send, which replies to wait for,
//! and what a reply means.

use crate::protocol::{
    create_request, is_reply, le_bytes, le_value, request_bytes, size_field, status_of, Error,
    Opcode, Packet, HEADER_LEN,
};
use crate::receiver::{
    answer_view, lemma_receive_frame, lemma_receiver_answers_replies,
    lemma_receiver_patience_goes_down, Answer, FilterState, FrameReceiver, FrameState, ReadEvent,
    ReplyFilter, MAX_FRAME_LEN, RETRY_BUDGET,
};
use crate::slip::{slip_encode, slip_frame, SLIPPacket};
use vstd::prelude::*;

verus! {

/// Base addresses of the registers that the commands read.
#[derive(Debug, Clone, Copy, PartialEq, Eq, Structural)]
pub enum Register {
    UartDataReg,
    EFuseRegBase,
}

impl Register {
    /// The address of the register.
    pub open spec fn base(self) -> u32 {
        match self {
            Register::UartDataReg => 0x6000_0078,
            Register::EFuseRegBase => 0x6001_A000,
        }
    }
}

impl From<Register> for u32 {
    fn from(register: Register) -> (address: u32) {
        match register {
            Register::UartDataReg => 0x6000_0078,
            Register::EFuseRegBase => 0x6001_A000,
        }
    }
}

impl vstd::std_specs::convert::FromSpecImpl<Register> for u32 {
    open spec fn obeys_from_spec() -> bool {
        true
    }

    open spec fn from_spec(register: Register) -> u32 {
        register.base()
    }
}

/// How many replies the bootloader sends to one sync request.
pub const SYNC_REPLIES: usize = 8;

/// Body of the sync request: four fixed bytes, then `0x55` thirty-two times.
pub open spec fn sync_body() -> Seq<u8> {
    seq![0x07u8, 0x07u8, 0x12u8, 0x20u8] + Seq::new(32, |i: int| 0x55u8)
}

/// Body of the request that attaches the SPI flash: the pin configuration,
/// least significant byte first, then four zero bytes.
pub open spec fn enable_flash_body(hspi: u32) -> Seq<u8> {
    le_bytes(hspi) + seq![0u8, 0u8, 0u8, 0u8]
}

/// What a reply to a register read holds. The header must be all there and
/// announce a body of four bytes, else the reply is refused with `Length`.
/// A status trailer that reports a failure of the command gives `Failure`
/// with the error code of the device. Otherwise the reply holds the value
/// word as a number, least significant byte first.
pub open spec fn reg_value(reply: Seq<u8>) -> Result<u32, Error> {
    if reply.len() < HEADER_LEN || size_field(reply) != 4 {
        Err(Error::Length)
    } else if status_of(reply) is Err {
        Err(Error::Failure(reply[reply.len() - 1]))
    } else {
        Ok(le_value(reply.subrange(4, 8)))
    }
}

/// The six bytes of the MAC address that the eFuse words 1 and 2 hold.
pub open spec fn mac_bytes(efuse1: u32, efuse2: u32) -> Seq<u8> {
    seq![
        ((efuse2 >> 8) & 0xFF) as u8,
        (efuse2 & 0xFF) as u8,
        ((efuse1 >> 24) & 0xFF) as u8,
        ((efuse1 >> 16) & 0xFF) as u8,
        ((efuse1 >> 8) & 0xFF) as u8,
        (efuse1 & 0xFF) as u8,
    ]
}

/// The four bytes of `value`, least significant first.
fn le_array(value: u32) -> (bytes: [u8; 4])
    ensures
        bytes@ == le_bytes(value),
{
    let bytes: [u8; 4] = [
        (value % 256) as u8,
        (value / 256 % 256) as u8,
        (value / 65536 % 256) as u8,
        (value / 16777216) as u8,
    ];
    assert(bytes@ =~= le_bytes(value));
    bytes
}

/// The sync request.
pub fn sync_request() -> (packet: Packet)
    ensures
        packet@ == request_bytes(Opcode::SyncFrame, sync_body()),
{
    let mut body: Vec<u8> = Vec::new();
    body.push(0x07);
    body.push(0x07);
    body.push(0x12);
    body.push(0x20);
    let mut i: usize = 0;
    while i < 32
        invariant
            i <= 32,
            body@ == seq![0x07u8, 0x07u8, 0x12u8, 0x20u8] + Seq::new(i as nat, |k: int| 0x55u8),
        decreases 32 - i,
    {
        body.push(0x55);
        assert(body@ =~= seq![0x07u8, 0x07u8, 0x12u8, 0x20u8] + Seq::new(
            (i + 1) as nat,
            |k: int| 0x55u8,
        ));
        i += 1;
    }
    create_request(Opcode::SyncFrame, body.as_slice())
}

/// The request that reads the register `offset` bytes behind `reg`.
pub fn read_reg_request(reg: Register, offset: u32) -> (packet: Packet)
    requires
        reg.base() + offset <= u32::MAX,
    ensures
        packet@ == request_bytes(Opcode::ReadReg, le_bytes((reg.base() + offset) as u32)),
{
    let base: u32 = u32::from(reg);
    let address: u32 = base + offset;
    let body = le_array(address);
    create_request(Opcode::ReadReg, body.as_slice())
}

/// The request that reads the eFuse word `index`.
pub fn read_efuse_request(index: u32) -> (packet: Packet)
    requires
        Register::EFuseRegBase.base() + 4 * index <= u32::MAX,
    ensures
        packet@ == request_bytes(
            Opcode::ReadReg,
            le_bytes((Register::EFuseRegBase.base() + 4 * index) as u32),
        ),
{
    read_reg_request(Register::EFuseRegBase, 4 * index)
}

/// The request that attaches the SPI flash.
pub fn enable_flash_request(hspi: u32) -> (packet: Packet)
    ensures
        packet@ == request_bytes(Opcode::SPIAttach, enable_flash_body(hspi)),
{
    let low = le_array(hspi);
    let body: [u8; 8] = [low[0], low[1], low[2], low[3], 0, 0, 0, 0];
    assert(body@ =~= enable_flash_body(hspi));
    create_request(Opcode::SPIAttach, body.as_slice())
}

/// Reads the register value out of the reply to a register read, or the
/// failure that the reply reports.
pub fn read_reg_value(reply: &Packet) -> (r: Result<u32, Error>)
    ensures
        r == reg_value(reply@),
{
    if reply.as_bytes().len() < HEADER_LEN || reply.size() != 4 {
        return Err(Error::Length);
    }
    match reply.status() {
        Err(failure) => {
            return Err(failure);
        },
        Ok(()) => {},
    }
    let value = reply.value();
    Ok(
        value[0] as u32 + 256 * (value[1] as u32) + 65536 * (value[2] as u32) + 16777216 * (
        value[3] as u32),
    )
}

/// Puts the MAC address together from the eFuse words 1 and 2.
pub fn mac_from_efuse(efuse1: u32, efuse2: u32) -> (mac: [u8; 6])
    ensures
        mac@ == mac_bytes(efuse1, efuse2),
{
    let mac: [u8; 6] = [
        ((efuse2 >> 8) & 0xFF) as u8,
        (efuse2 & 0xFF) as u8,
        ((efuse1 >> 24) & 0xFF) as u8,
        ((efuse1 >> 16) & 0xFF) as u8,
        ((efuse1 >> 8) & 0xFF) as u8,
        (efuse1 & 0xFF) as u8,
    ];
    assert(mac@ =~= mac_bytes(efuse1, efuse2));
    mac
}

/// State of one exchange: a request, and the replies that answer it.
pub struct ExchangeState {
    /// The framed request.
    pub request: Seq<u8>,
    /// How many replies answer the request.
    pub replies: nat,
    /// How many of them are still to come.
    pub remaining: nat,
    /// The frame that is being received.
    pub frame: FrameState,
    /// The wait for the next reply.
    pub filter: FilterState,
}

impl ExchangeState {
    /// The exchange that sends `request` and waits for `replies` replies.
    pub open spec fn start(request: Seq<u8>, replies: nat) -> ExchangeState {
        ExchangeState {
            request: slip_frame(request),
            replies,
            remaining: replies,
            frame: FrameState::idle(),
            filter: FilterState::fresh(request[1]),
        }
    }

    /// The states that an exchange can be in.
    pub open spec fn wf(self) -> bool {
        &&& 1 <= self.remaining <= self.replies
        &&& self.frame.wf()
        &&& self.filter.wf()
    }

    /// How many bytes the exchange can take at most before it answers: a
    /// frame of the greatest length for every outcome that the waits for its
    /// replies can still pass over or count, and what the frame that is
    /// being received still needs.
    pub open spec fn patience(self) -> nat {
        (((self.remaining - 1) * RETRY_BUDGET + (RETRY_BUDGET - 1 - self.filter.attempts))
            * MAX_FRAME_LEN + self.frame.patience()) as nat
    }

    /// The exchange as it begins again, with the same request.
    pub open spec fn restarted(self) -> ExchangeState {
        ExchangeState {
            remaining: self.replies,
            frame: FrameState::idle(),
            filter: FilterState::fresh(self.filter.expected),
            ..self
        }
    }

    /// What the outcome `frame` of one attempt to receive a frame does to the
    /// exchange.
    ///
    /// Before the first reply, the wait for a reply judges the outcome, and
    /// passes over frames that could not be received as far as its budget
    /// goes. Once a reply has been taken and more are to come, an outcome
    /// that is an error ends the exchange with this error. An error of the
    /// wait ends the exchange. A reply ends it where it is the last one, and
    /// is given as the answer; before that, the wait for the next reply
    /// begins.
    pub open spec fn deliver(self, frame: Result<Seq<u8>, Error>) -> (ExchangeState, Answer) {
        if frame is Err && self.remaining < self.replies {
            (self.restarted(), Some(frame))
        } else {
            let (filter, verdict) = self.filter.offer(frame);
            match verdict {
                None => (ExchangeState { filter, ..self }, None),
                Some(Err(error)) => (self.restarted(), Some(Err(error))),
                Some(Ok(reply)) => if self.remaining <= 1 {
                    (self.restarted(), Some(Ok(reply)))
                } else {
                    (
                        ExchangeState { filter, remaining: (self.remaining - 1) as nat, ..self },
                        None,
                    )
                },
            }
        }
    }

    /// One step of the exchange: the state after `event`, and the answer.
    pub open spec fn step(self, event: ReadEvent) -> (ExchangeState, Answer) {
        let (frame, outcome) = self.frame.step(event);
        match outcome {
            None => (ExchangeState { frame, ..self }, None),
            Some(received) => ExchangeState { frame, ..self }.deliver(received),
        }
    }

    /// The exchange fed with the bytes of `wire` one after the other, up to
    /// its first answer: the state it is left in, the answer if there was
    /// one, and the number of bytes that it took.
    pub open spec fn run(self, wire: Seq<u8>) -> (ExchangeState, Answer, nat)
        decreases wire.len(),
    {
        if wire.len() == 0 {
            (self, None, 0)
        } else {
            let (next, answer) = self.step(ReadEvent::Byte(wire[0]));
            if answer is Some {
                (next, answer, 1)
            } else {
                let (last, answer, taken) = next.run(wire.skip(1));
                (last, answer, taken + 1)
            }
        }
    }
}

/// Every byte that an exchange takes without an answer brings the answer
/// nearer: the number of bytes that it can still take goes down.
pub proof fn lemma_exchange_patience_goes_down(state: ExchangeState, event: ReadEvent)
    requires
        state.wf(),
    ensures
        state.step(event).0.wf(),
        state.step(event).1 is None ==> state.step(event).0.patience() < state.patience(),
{
    assert(MAX_FRAME_LEN == 131088);
    assert(RETRY_BUDGET == 100);
    lemma_receiver_answers_replies(state.frame, event);
    lemma_receiver_patience_goes_down(state.frame, event);
    let (frame, outcome) = state.frame.step(event);
    let (next, answer) = state.step(event);
    if let Some(received) = outcome {
        assert(frame == FrameState::idle());
        assert(frame.patience() == 131088);
        if answer is None {
            let before = (state.remaining - 1) * 100 + (99 - state.filter.attempts);
            let after = (next.remaining - 1) * 100 + (99 - next.filter.attempts);
            assert(after + 1 <= before);
            assert(next.patience() == after * 131088 + 131088);
            assert(state.patience() == before * 131088 + state.frame.patience());
        }
    }
}

/// An exchange answers, whatever bytes it is fed: after no more of them than
/// its patience says.
pub proof fn lemma_exchange_answers(state: ExchangeState, wire: Seq<u8>)
    requires
        state.wf(),
        wire.len() >= state.patience(),
    ensures
        state.run(wire).1 is Some,
        state.run(wire).2 <= state.patience(),
    decreases wire.len(),
{
    lemma_receiver_patience_goes_down(state.frame, ReadEvent::Byte(0));
    let event = ReadEvent::Byte(wire[0]);
    lemma_exchange_patience_goes_down(state, event);
    if state.step(event).1 is None {
        lemma_exchange_answers(state.step(event).0, wire.skip(1));
    }
}

/// The read loop of a command ends: the exchange of a request with `replies`
/// replies answers after no more bytes than a frame of the greatest length
/// for every outcome that its waits can take.
pub proof fn lemma_command_ends(request: Seq<u8>, replies: nat, wire: Seq<u8>)
    requires
        replies >= 1,
        wire.len() >= replies * RETRY_BUDGET * MAX_FRAME_LEN,
    ensures
        ExchangeState::start(request, replies).run(wire).1 is Some,
        ExchangeState::start(request, replies).run(wire).2 <= replies * RETRY_BUDGET
            * MAX_FRAME_LEN,
{
    let state = ExchangeState::start(request, replies);
    assert(state.patience() == replies * RETRY_BUDGET * MAX_FRAME_LEN) by (nonlinear_arith)
        requires
            state.patience() == ((replies - 1) * RETRY_BUDGET + (RETRY_BUDGET - 1)) * MAX_FRAME_LEN
                + MAX_FRAME_LEN,
    ;
    lemma_exchange_answers(state, wire);
}

/// The frames of `replies`, one behind the other.
pub open spec fn frames_of(replies: Seq<Seq<u8>>) -> Seq<u8>
    decreases replies.len(),
{
    if replies.len() == 0 {
        Seq::empty()
    } else {
        slip_frame(replies[0]) + frames_of(replies.skip(1))
    }
}

/// An exchange takes bytes as its frame receiver does, and judges the
/// outcome of the receiver where there is one.
proof fn lemma_run_follows_receiver(state: ExchangeState, wire: Seq<u8>)
    ensures
        state.run(wire) == ({
            let (frame, outcome, taken) = state.frame.run(wire);
            match outcome {
                None => (ExchangeState { frame, ..state }, None::<Result<Seq<u8>, Error>>, taken),
                Some(received) => {
                    let (next, answer) = ExchangeState { frame, ..state }.deliver(received);
                    if answer is Some {
                        (next, answer, taken)
                    } else {
                        let (last, answer, more) = next.run(wire.skip(taken as int));
                        (last, answer, more + taken)
                    }
                },
            }
        }),
        state.frame.run(wire).2 <= wire.len(),
    decreases wire.len(),
{
    if wire.len() == 0 {
        assert(ExchangeState { frame: state.frame, ..state } == state);
    } else {
        let (frame, outcome) = state.frame.step(ReadEvent::Byte(wire[0]));
        if outcome is None {
            let next = ExchangeState { frame, ..state };
            lemma_run_follows_receiver(next, wire.skip(1));
            let (last_frame, last_outcome, taken) = frame.run(wire.skip(1));
            assert(ExchangeState { frame: last_frame, ..next } == ExchangeState {
                frame: last_frame,
                ..state
            });
            if last_outcome is Some {
                assert(wire.skip(1).skip(taken as int) =~= wire.skip(taken as int + 1));
            }
        } else {
            assert(wire.skip(1) =~= wire.skip(1int));
        }
    }
}

/// An exchange between frames that is fed the frame of a reply judges the
/// reply at the last byte of the frame, and goes on with what follows.
proof fn lemma_run_reply_frame(state: ExchangeState, reply: Seq<u8>, tail: Seq<u8>)
    requires
        state.frame == FrameState::idle(),
        is_reply(reply),
    ensures
        state.run(slip_frame(reply) + tail) == ({
            let (next, answer) = state.deliver(Ok(reply));
            if answer is Some {
                (next, answer, slip_frame(reply).len())
            } else {
                let (last, answer, more) = next.run(tail);
                (last, answer, more + slip_frame(reply).len())
            }
        }),
{
    let wire = slip_frame(reply) + tail;
    lemma_receive_frame(reply, tail);
    lemma_run_follows_receiver(state, wire);
    assert(wire.skip(slip_frame(reply).len() as int) =~= tail);
    assert(ExchangeState { frame: FrameState::idle(), ..state } == state);
}

/// An exchange that still waits for `state.remaining` replies and is fed the
/// frames of no more than so many replies with the expected opcode takes
/// them all, and answers at the last byte of the last frame it waits for.
proof fn lemma_run_reply_frames(state: ExchangeState, replies: Seq<Seq<u8>>, tail: Seq<u8>)
    requires
        state.frame == FrameState::idle(),
        state.filter == FilterState::fresh(state.filter.expected),
        1 <= replies.len() <= state.remaining,
        forall|i: int|
            0 <= i < replies.len() ==> is_reply(#[trigger] replies[i]) && replies[i][1]
                == state.filter.expected,
    ensures
        state.run(frames_of(replies) + tail) == (if replies.len() == state.remaining {
            (
                state.restarted(),
                Some(Ok::<Seq<u8>, Error>(replies.last())),
                frames_of(replies).len(),
            )
        } else {
            let (last, answer, more) = ExchangeState {
                remaining: (state.remaining - replies.len()) as nat,
                ..state
            }.run(tail);
            (last, answer, more + frames_of(replies).len())
        }),
    decreases replies.len(),
{
    let first = replies[0];
    let rest = replies.skip(1);
    let wire = frames_of(replies) + tail;
    assert(is_reply(first) && first[1] == state.filter.expected);
    assert(wire =~= slip_frame(first) + (frames_of(rest) + tail));
    lemma_run_reply_frame(state, first, frames_of(rest) + tail);
    let (next, answer) = state.deliver(Ok(first));
    if state.remaining <= 1 {
        assert(rest.len() == 0);
        assert(frames_of(rest) =~= Seq::<u8>::empty());
        assert(frames_of(replies) =~= slip_frame(first));
    } else {
        assert(answer is None);
        assert(next == ExchangeState { remaining: (state.remaining - 1) as nat, ..state });
        if rest.len() == 0 {
            assert(frames_of(rest) =~= Seq::<u8>::empty());
            assert(frames_of(rest) + tail =~= tail);
            assert(frames_of(replies) =~= slip_frame(first));
        } else {
            assert forall|i: int| 0 <= i < rest.len() implies is_reply(#[trigger] rest[i])
                && rest[i][1] == next.filter.expected by {
                assert(rest[i] == replies[i + 1]);
            }
            lemma_run_reply_frames(next, rest, tail);
            assert(rest.last() == replies.last());
            assert(next.restarted() == state.restarted());
            assert(ExchangeState {
                remaining: (next.remaining - rest.len()) as nat,
                ..next
            } == ExchangeState { remaining: (state.remaining - replies.len()) as nat, ..state });
        }
    }
}

/// An exchange that is fed the frames of all the replies that it waits for,
/// each with the opcode of the request, answers with the last reply at the
/// last byte of its frame: not before, and without taking a byte of what
/// follows. It is then ready to begin again.
pub proof fn lemma_exchange_takes_all_replies(
    request: Seq<u8>,
    replies: Seq<Seq<u8>>,
    tail: Seq<u8>,
)
    requires
        replies.len() >= 1,
        forall|i: int|
            0 <= i < replies.len() ==> is_reply(#[trigger] replies[i]) && replies[i][1]
                == request[1],
    ensures
        ExchangeState::start(request, replies.len()).run(frames_of(replies) + tail) == (
            ExchangeState::start(request, replies.len()),
            Some(Ok::<Seq<u8>, Error>(replies.last())),
            frames_of(replies).len(),
        ),
{
    let state = ExchangeState::start(request, replies.len());
    lemma_run_reply_frames(state, replies, tail);
    assert(state.restarted() == state);
}

/// Once an exchange has taken a reply and waits for more, a frame that
/// cannot be received ends it with the error of the frame: the exchange that
/// is fed the frames of some of its replies, but not all, and then bytes on
/// which a receiver answers with an error, answers with this error.
pub proof fn lemma_error_between_replies_ends_exchange(
    request: Seq<u8>,
    replies: nat,
    taken: Seq<Seq<u8>>,
    wire: Seq<u8>,
    error: Error,
)
    requires
        1 <= taken.len() < replies,
        forall|i: int|
            0 <= i < taken.len() ==> is_reply(#[trigger] taken[i]) && taken[i][1] == request[1],
        FrameState::idle().run(wire).1 == Some(Err::<Seq<u8>, Error>(error)),
    ensures
        ExchangeState::start(request, replies).run(frames_of(taken) + wire) == (
            ExchangeState::start(request, replies),
            Some(Err::<Seq<u8>, Error>(error)),
            frames_of(taken).len() + FrameState::idle().run(wire).2,
        ),
{
    let state = ExchangeState::start(request, replies);
    let waiting = ExchangeState { remaining: (replies - taken.len()) as nat, ..state };
    lemma_run_reply_frames(state, taken, wire);
    lemma_run_follows_receiver(waiting, wire);
    let (frame, outcome, count) = FrameState::idle().run(wire);
    assert(ExchangeState { frame, ..waiting }.restarted() == state);
}

/// The sync exchange that is fed the eight replies of the bootloader answers
/// at the last byte of the eighth: none of them is left behind unread, and
/// nothing that follows them is taken.
pub proof fn lemma_sync_drains_replies(replies: Seq<Seq<u8>>, tail: Seq<u8>)
    requires
        replies.len() == SYNC_REPLIES,
        forall|i: int|
            0 <= i < replies.len() ==> is_reply(#[trigger] replies[i]) && replies[i][1]
                == Opcode::SyncFrame.code(),
    ensures
        ExchangeState::start(
            request_bytes(Opcode::SyncFrame, sync_body()),
            SYNC_REPLIES as nat,
        ).run(frames_of(replies) + tail) == (
            ExchangeState::start(
                request_bytes(Opcode::SyncFrame, sync_body()),
                SYNC_REPLIES as nat,
            ),
            Some(Ok::<Seq<u8>, Error>(replies.last())),
            frames_of(replies).len(),
        ),
{
    let request = request_bytes(Opcode::SyncFrame, sync_body());
    assert(request[1] == Opcode::SyncFrame.code());
    lemma_exchange_takes_all_replies(request, replies, tail);
}

/// One command in progress: the request to send, and the receiver of its
/// replies.
pub struct Exchange {
    request: SLIPPacket,
    replies: usize,
    remaining: usize,
    receiver: FrameReceiver,
    filter: ReplyFilter,
}

impl View for Exchange {
    type V = ExchangeState;

    closed spec fn view(&self) -> ExchangeState {
        ExchangeState {
            request: self.request@,
            replies: self.replies as nat,
            remaining: self.remaining as nat,
            frame: self.receiver@,
            filter: self.filter@,
        }
    }
}

impl Exchange {
    /// The exchange that sends `request` and waits for `replies` replies with
    /// the opcode of the request.
    pub fn new(request: Packet, replies: usize) -> (exchange: Exchange)
        requires
            request@.len() >= 2,
            replies >= 1,
        ensures
            exchange@ == ExchangeState::start(request@, replies as nat),
    {
        let expected: u8 = request.command();
        Exchange {
            request: slip_encode(request),
            replies,
            remaining: replies,
            receiver: FrameReceiver::new(),
            filter: ReplyFilter::new(expected),
        }
    }

    /// The frame to write to the transport before the first read.
    pub fn request(&self) -> (frame: &SLIPPacket)
        ensures
            frame@ == self@.request,
    {
        &self.request
    }

    /// Hands the exchange what the last read brought. The answer is `None`
    /// while another read is needed, and the outcome of the command once it
    /// is known: the last reply, or the error that ended the exchange.
    pub fn feed(&mut self, event: ReadEvent) -> (answer: Option<Result<Packet, Error>>)
        ensures
            (final(self)@, answer_view(answer)) == old(self)@.step(event),
            answer matches Some(Ok(reply)) ==> is_reply(reply@) && reply@[1] == old(
                self,
            )@.filter.expected,
    {
        let received = match self.receiver.feed(event) {
            None => {
                return None;
            },
            Some(received) => received,
        };
        if self.remaining < self.replies {
            if let Err(error) = received {
                self.filter = ReplyFilter::new(self.filter.expected());
                self.remaining = self.replies;
                return Some(Err(error));
            }
        }
        match self.filter.offer(received) {
            None => None,
            Some(Err(error)) => {
                self.remaining = self.replies;
                Some(Err(error))
            },
            Some(Ok(reply)) => {
                if self.remaining <= 1 {
                    self.remaining = self.replies;
                    Some(Ok(reply))
                } else {
                    self.remaining = self.remaining - 1;
                    None
                }
            },
        }
    }
}

/// The handshake that puts the bootloader into command mode. The bootloader
/// answers one sync request with eight replies, and all of them are received
/// before the exchange ends. A frame that cannot be received between the
/// replies ends the exchange with its error.
pub fn sync() -> (exchange: Exchange)
    ensures
        exchange@ == ExchangeState::start(
            request_bytes(Opcode::SyncFrame, sync_body()),
            SYNC_REPLIES as nat,
        ),
{
    Exchange::new(sync_request(), SYNC_REPLIES)
}

/// Reads the register `offset` bytes behind `reg`. The value, or the failure
/// that the device reports, is in the reply: see `read_reg_value`.
pub fn read_reg(reg: Register, offset: u32) -> (exchange: Exchange)
    requires
        reg.base() + offset <= u32::MAX,
    ensures
        exchange@ == ExchangeState::start(
            request_bytes(Opcode::ReadReg, le_bytes((reg.base() + offset) as u32)),
            1,
        ),
{
    Exchange::new(read_reg_request(reg, offset), 1)
}

/// Reads the eFuse word `index`. The value, or the failure that the device
/// reports, is in the reply: see `read_reg_value`.
pub fn read_efuse(index: u32) -> (exchange: Exchange)
    requires
        Register::EFuseRegBase.base() + 4 * index <= u32::MAX,
    ensures
        exchange@ == ExchangeState::start(
            request_bytes(
                Opcode::ReadReg,
                le_bytes((Register::EFuseRegBase.base() + 4 * index) as u32),
            ),
            1,
        ),
{
    Exchange::new(read_efuse_request(index), 1)
}

/// Attaches the SPI flash. The reply counts only by being there.
pub fn enable_flash(hspi: u32) -> (exchange: Exchange)
    ensures
        exchange@ == ExchangeState::start(
            request_bytes(Opcode::SPIAttach, enable_flash_body(hspi)),
            1,
        ),
{
    Exchange::new(enable_flash_request(hspi), 1)
}

} // verus!
