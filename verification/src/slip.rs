//! SLIP framing: a packet on the wire stands between two delimiter bytes, and
//! the delimiter and escape bytes inside it are replaced by two-byte escapes.

use crate::protocol::{parsed_reply, Error, Packet, HEADER_LEN};
use vstd::prelude::*;

verus! {

/// Frame delimiter.
pub const SLIP_END: u8 = 0xC0;

/// Escape introducer.
pub const SLIP_ESC: u8 = 0xDB;

/// Behind the escape introducer: stands for a delimiter byte in the payload.
pub const SLIP_ESC_END: u8 = 0xDC;

/// Behind the escape introducer: stands for an escape byte in the payload.
pub const SLIP_ESC_ESC: u8 = 0xDD;

/// The wire bytes that stand for one payload byte.
pub open spec fn stuffed_byte(byte: u8) -> Seq<u8> {
    if byte == SLIP_END {
        seq![SLIP_ESC, SLIP_ESC_END]
    } else if byte == SLIP_ESC {
        seq![SLIP_ESC, SLIP_ESC_ESC]
    } else {
        seq![byte]
    }
}

/// The wire bytes that stand for `payload`, byte by byte, without delimiters.
pub open spec fn stuffed(payload: Seq<u8>) -> Seq<u8>
    decreases payload.len(),
{
    if payload.len() == 0 {
        Seq::empty()
    } else {
        stuffed_byte(payload[0]) + stuffed(payload.skip(1))
    }
}

/// The frame of `payload`: a delimiter, the stuffed payload, a delimiter.
pub open spec fn slip_frame(payload: Seq<u8>) -> Seq<u8> {
    seq![SLIP_END] + stuffed(payload) + seq![SLIP_END]
}

/// The payload that the stuffed bytes `wire` stand for. There is none where
/// `wire` holds a bare delimiter, or an escape introducer that is not followed
/// by one of its two codes.
pub open spec fn unstuffed(wire: Seq<u8>) -> Option<Seq<u8>>
    decreases wire.len(),
{
    if wire.len() == 0 {
        Some(Seq::empty())
    } else if wire[0] == SLIP_END {
        None
    } else if wire[0] == SLIP_ESC {
        if wire.len() >= 2 && (wire[1] == SLIP_ESC_END || wire[1] == SLIP_ESC_ESC) {
            let byte = if wire[1] == SLIP_ESC_END {
                SLIP_END
            } else {
                SLIP_ESC
            };
            match unstuffed(wire.skip(2)) {
                Some(rest) => Some(seq![byte] + rest),
                None => None,
            }
        } else {
            None
        }
    } else {
        match unstuffed(wire.skip(1)) {
            Some(rest) => Some(seq![wire[0]] + rest),
            None => None,
        }
    }
}

/// The payload of one whole frame, or `SLIPFrame` where `frame` is not one:
/// where a delimiter is missing at either end, or what stands between them
/// is not stuffed properly.
pub open spec fn slip_payload(frame: Seq<u8>) -> Result<Seq<u8>, Error> {
    if frame.len() < 2 || frame[0] != SLIP_END || frame.last() != SLIP_END {
        Err(Error::SLIPFrame)
    } else {
        match unstuffed(frame.subrange(1, frame.len() - 1)) {
            Some(payload) => Ok(payload),
            None => Err(Error::SLIPFrame),
        }
    }
}

/// No delimiter stands in `wire`, and every escape introducer in it is
/// followed by one of its two codes.
pub open spec fn well_stuffed(wire: Seq<u8>) -> bool {
    unstuffed(wire) is Some
}

/// Stuffing goes through concatenation.
pub proof fn lemma_stuffed_concat(a: Seq<u8>, b: Seq<u8>)
    ensures
        stuffed(a + b) == stuffed(a) + stuffed(b),
    decreases a.len(),
{
    if a.len() == 0 {
        assert(a + b =~= b);
        assert(stuffed(a) + stuffed(b) =~= stuffed(b));
    } else {
        lemma_stuffed_concat(a.skip(1), b);
        assert((a + b).skip(1) =~= a.skip(1) + b);
        assert(stuffed_byte(a[0]) + (stuffed(a.skip(1)) + stuffed(b)) =~= (stuffed_byte(a[0])
            + stuffed(a.skip(1))) + stuffed(b));
    }
}

/// Stuffing a payload that ends in `byte`.
pub proof fn lemma_stuffed_push(payload: Seq<u8>, byte: u8)
    ensures
        stuffed(payload.push(byte)) == stuffed(payload) + stuffed_byte(byte),
{
    lemma_stuffed_concat(payload, seq![byte]);
    assert(payload.push(byte) =~= payload + seq![byte]);
    let single = seq![byte];
    assert(single.skip(1).len() == 0);
    assert(stuffed(single.skip(1)) =~= Seq::<u8>::empty());
    assert(stuffed(single) =~= stuffed_byte(byte));
}

/// Unstuffing undoes stuffing, whatever follows.
pub proof fn lemma_unstuffed_stuffed(payload: Seq<u8>, tail: Seq<u8>)
    ensures
        unstuffed(stuffed(payload) + tail) == match unstuffed(tail) {
            Some(rest) => Some(payload + rest),
            None => None,
        },
    decreases payload.len(),
{
    if payload.len() == 0 {
        assert(stuffed(payload) + tail =~= tail);
        if let Some(rest) = unstuffed(tail) {
            assert(payload + rest =~= rest);
        }
    } else {
        let head = payload[0];
        let wire = stuffed(payload) + tail;
        let inner = stuffed(payload.skip(1)) + tail;
        lemma_unstuffed_stuffed(payload.skip(1), tail);
        if head == SLIP_END || head == SLIP_ESC {
            assert(wire.skip(2) =~= inner);
        } else {
            assert(wire.skip(1) =~= inner);
        }
        if let Some(rest) = unstuffed(tail) {
            assert(seq![head] + (payload.skip(1) + rest) =~= payload + rest);
        }
    }
}

/// Decoding the frame of any payload gives the payload back.
pub proof fn lemma_slip_round_trip(payload: Seq<u8>)
    ensures
        slip_payload(slip_frame(payload)) == Ok::<Seq<u8>, Error>(payload),
{
    let frame = slip_frame(payload);
    lemma_unstuffed_stuffed(payload, Seq::empty());
    assert(stuffed(payload) + Seq::<u8>::empty() =~= stuffed(payload));
    assert(payload + Seq::<u8>::empty() =~= payload);
    assert(frame.subrange(1, frame.len() - 1) =~= stuffed(payload));
}

/// Between its two delimiters, the frame of any payload holds no delimiter
/// byte, and no escape introducer but in front of one of its two codes.
pub proof fn lemma_slip_frame_escaped(payload: Seq<u8>)
    ensures
        slip_frame(payload).len() >= 2,
        slip_frame(payload)[0] == SLIP_END,
        slip_frame(payload).last() == SLIP_END,
        well_stuffed(slip_frame(payload).subrange(1, slip_frame(payload).len() - 1)),
        forall|i: int|
            0 < i < slip_frame(payload).len() - 1 ==> slip_frame(payload)[i] != SLIP_END,
        forall|i: int|
            #![trigger slip_frame(payload)[i]]
            0 < i < slip_frame(payload).len() - 1 && slip_frame(payload)[i] == SLIP_ESC ==> {
                ||| slip_frame(payload)[i + 1] == SLIP_ESC_END
                ||| slip_frame(payload)[i + 1] == SLIP_ESC_ESC
            },
{
    let frame = slip_frame(payload);
    let inner = frame.subrange(1, frame.len() - 1);
    lemma_unstuffed_stuffed(payload, Seq::empty());
    assert(stuffed(payload) + Seq::<u8>::empty() =~= stuffed(payload));
    assert(inner =~= stuffed(payload));
    lemma_well_stuffed_bytes(inner);
    assert forall|i: int| 0 < i < frame.len() - 1 implies frame[i] != SLIP_END by {
        assert(frame[i] == inner[i - 1]);
    }
    assert forall|i: int|
        #![trigger frame[i]]
        0 < i < frame.len() - 1 && frame[i] == SLIP_ESC implies {
        ||| frame[i + 1] == SLIP_ESC_END
        ||| frame[i + 1] == SLIP_ESC_ESC
    } by {
        assert(frame[i] == inner[i - 1]);
        assert(i < inner.len());
        assert(frame[i + 1] == inner[i]);
    }
}

/// What being well stuffed means byte by byte.
pub proof fn lemma_well_stuffed_bytes(wire: Seq<u8>)
    requires
        well_stuffed(wire),
    ensures
        forall|i: int| 0 <= i < wire.len() ==> wire[i] != SLIP_END,
        forall|i: int|
            #![trigger wire[i]]
            0 <= i < wire.len() && wire[i] == SLIP_ESC ==> i + 1 < wire.len() && (wire[i + 1]
                == SLIP_ESC_END || wire[i + 1] == SLIP_ESC_ESC),
    decreases wire.len(),
{
    if wire.len() > 0 {
        let step: int = if wire[0] == SLIP_ESC {
            2
        } else {
            1
        };
        let rest = wire.skip(step);
        lemma_well_stuffed_bytes(rest);
        assert forall|i: int| 0 <= i < wire.len() implies wire[i] != SLIP_END by {
            if i >= step {
                assert(wire[i] == rest[i - step]);
            }
        }
        assert forall|i: int|
            #![trigger wire[i]]
            0 <= i < wire.len() && wire[i] == SLIP_ESC implies i + 1 < wire.len() && (wire[i + 1]
            == SLIP_ESC_END || wire[i + 1] == SLIP_ESC_ESC) by {
            if i >= step {
                assert(wire[i] == rest[i - step]);
                assert(wire[i + 1] == rest[i + 1 - step]);
            }
        }
    }
}

/// A payload is no longer than the stuffed bytes that stand for it.
proof fn lemma_unstuffed_len(wire: Seq<u8>)
    ensures
        unstuffed(wire) matches Some(payload) ==> payload.len() <= wire.len(),
    decreases wire.len(),
{
    if wire.len() > 0 && wire[0] != SLIP_END {
        if wire[0] == SLIP_ESC {
            if wire.len() >= 2 {
                lemma_unstuffed_len(wire.skip(2));
            }
        } else {
            lemma_unstuffed_len(wire.skip(1));
        }
    }
}

/// A frame of fewer than ten bytes holds no reply: either it is no frame, or
/// its payload is too short for a header.
pub proof fn lemma_short_frame_is_invalid(frame: Seq<u8>)
    requires
        frame.len() < HEADER_LEN + 2,
    ensures
        match slip_payload(frame) {
            Ok(payload) => parsed_reply(payload) == Err::<Seq<u8>, Error>(Error::Length),
            Err(error) => error == Error::SLIPFrame,
        },
{
    if frame.len() >= 2 {
        lemma_unstuffed_len(frame.subrange(1, frame.len() - 1));
    }
}

/// The bytes of a decoded payload, for contracts that speak of a payload that
/// may be missing.
pub open spec fn bytes_view(outcome: Result<Vec<u8>, Error>) -> Result<Seq<u8>, Error> {
    match outcome {
        Ok(bytes) => Ok(bytes@),
        Err(error) => Err(error),
    }
}

/// A packet in its wire form: delimited and byte-stuffed.
#[derive(Debug, PartialEq, Eq)]
pub struct SLIPPacket(Vec<u8>);

impl Clone for SLIPPacket {
    fn clone(&self) -> (copy: Self)
        ensures
            copy@ == self@,
    {
        let bytes = self.0.clone();
        assert(bytes@ =~= self.0@);
        SLIPPacket(bytes)
    }
}

impl View for SLIPPacket {
    type V = Seq<u8>;

    closed spec fn view(&self) -> Seq<u8> {
        self.0@
    }
}

impl SLIPPacket {
    /// The bytes to put on the wire.
    pub fn as_bytes(&self) -> (bytes: &[u8])
        ensures
            bytes@ == self@,
    {
        self.0.as_slice()
    }
}

/// Frames `packet` for the wire.
pub fn slip_encode(packet: Packet) -> (frame: SLIPPacket)
    ensures
        frame@ == slip_frame(packet@),
        slip_payload(frame@) == Ok::<Seq<u8>, Error>(packet@),
{
    let bytes = packet.into_bytes();
    let mut encoded: Vec<u8> = Vec::new();
    encoded.push(SLIP_END);
    let mut i: usize = 0;
    while i < bytes.len()
        invariant
            i <= bytes.len(),
            encoded@ == seq![SLIP_END] + stuffed(bytes@.take(i as int)),
        decreases bytes.len() - i,
    {
        let byte: u8 = bytes[i];
        proof {
            lemma_stuffed_push(bytes@.take(i as int), byte);
            assert(bytes@.take(i as int).push(byte) =~= bytes@.take(i + 1));
        }
        if byte == SLIP_END {
            encoded.push(SLIP_ESC);
            encoded.push(SLIP_ESC_END);
        } else if byte == SLIP_ESC {
            encoded.push(SLIP_ESC);
            encoded.push(SLIP_ESC_ESC);
        } else {
            encoded.push(byte);
        }
        assert(encoded@ =~= seq![SLIP_END] + stuffed(bytes@.take(i + 1)));
        i += 1;
    }
    encoded.push(SLIP_END);
    proof {
        assert(bytes@.take(bytes.len() as int) =~= bytes@);
        lemma_slip_round_trip(bytes@);
    }
    SLIPPacket(encoded)
}

/// Takes one whole frame apart and gives its payload.
pub fn slip_decode(frame: &[u8]) -> (r: Result<Vec<u8>, Error>)
    ensures
        bytes_view(r) == slip_payload(frame@),
{
    let n: usize = frame.len();
    if n < 2 || frame[0] != SLIP_END || frame[n - 1] != SLIP_END {
        return Err(Error::SLIPFrame);
    }
    let ghost inner = frame@.subrange(1, n - 1);
    let mut payload: Vec<u8> = Vec::new();
    let mut i: usize = 1;
    while i < n - 1
        invariant
            n == frame@.len(),
            n >= 2,
            1 <= i <= n - 1,
            inner == frame@.subrange(1, n - 1),
            unstuffed(inner) == match unstuffed(frame@.subrange(i as int, n - 1)) {
                Some(rest) => Some(payload@ + rest),
                None => None,
            },
        decreases n - i,
    {
        let ghost here = frame@.subrange(i as int, n - 1);
        let byte: u8 = frame[i];
        assert(here[0] == byte);
        if byte == SLIP_END {
            return Err(Error::SLIPFrame);
        } else if byte == SLIP_ESC {
            if i + 1 >= n - 1 {
                return Err(Error::SLIPFrame);
            }
            let code: u8 = frame[i + 1];
            assert(here[1] == code);
            let ghost before = payload@;
            if code == SLIP_ESC_END {
                payload.push(SLIP_END);
            } else if code == SLIP_ESC_ESC {
                payload.push(SLIP_ESC);
            } else {
                return Err(Error::SLIPFrame);
            }
            proof {
                let rest_wire = frame@.subrange(i + 2, n - 1);
                assert(here.skip(2) =~= rest_wire);
                if let Some(rest) = unstuffed(rest_wire) {
                    assert(before + (seq![payload@.last()] + rest) =~= payload@ + rest);
                }
            }
            i += 2;
        } else {
            let ghost before = payload@;
            payload.push(byte);
            proof {
                let rest_wire = frame@.subrange(i + 1, n - 1);
                assert(here.skip(1) =~= rest_wire);
                if let Some(rest) = unstuffed(rest_wire) {
                    assert(before + (seq![byte] + rest) =~= payload@ + rest);
                }
            }
            i += 1;
        }
    }
    proof {
        assert(frame@.subrange(i as int, n - 1) =~= Seq::<u8>::empty());
        assert(payload@ + Seq::<u8>::empty() =~= payload@);
    }
    Ok(payload)
}

} // verus!
