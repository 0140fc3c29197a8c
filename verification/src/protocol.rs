//! The packets of the ROM bootloader: errors, opcodes, requests and replies.

use vstd::prelude::*;

verus! {

/// What can go wrong while talking to the bootloader.
#[derive(Debug, Clone, Copy, PartialEq, Eq, Structural)]
pub enum Error {
    /// The underlying transport failed: end of input, a read or write error, a timeout.
    Device,
    /// Malformed framing: a missing delimiter or an invalid escape.
    SLIPFrame,
    /// The first byte of a reply was not `0x01`.
    Direction,
    /// No reply with the expected opcode arrived within the retry budget.
    Command,
    /// The size of a reply disagrees with what the command expects.
    Length,
    /// A checksum-bearing reply failed verification.
    Checksum,
    /// The reply was well formed, but its status trailer reports this error code.
    Failure(u8),
    /// The connection loop ran out of reset and sync attempts.
    Connection,
}

/// The commands that the ROM bootloader recognizes.
#[derive(Debug, Clone, Copy, PartialEq, Eq, Structural)]
pub enum Opcode {
    FlashStart,
    FlashData,
    FlashFinish,
    RAMStart,
    RAMFinish,
    RAMData,
    SyncFrame,
    WriteReg,
    ReadReg,
    SPISetParams,
    SPIAttach,
    ChangeBaudrate,
    FlashDeflBegin,
    FlashDeflData,
    FlashDeflEnd,
    SPIFlashMD5,
    EraseFlash,
    EraseRegion,
    ReadFlash,
    RunUserCode,
}

impl Opcode {
    /// The byte that stands for this command on the wire.
    pub open spec fn code(self) -> u8 {
        match self {
            Opcode::FlashStart => 0x02,
            Opcode::FlashData => 0x03,
            Opcode::FlashFinish => 0x04,
            Opcode::RAMStart => 0x05,
            Opcode::RAMFinish => 0x06,
            Opcode::RAMData => 0x07,
            Opcode::SyncFrame => 0x08,
            Opcode::WriteReg => 0x09,
            Opcode::ReadReg => 0x0A,
            Opcode::SPISetParams => 0x0B,
            Opcode::SPIAttach => 0x0D,
            Opcode::ChangeBaudrate => 0x0F,
            Opcode::FlashDeflBegin => 0x10,
            Opcode::FlashDeflData => 0x11,
            Opcode::FlashDeflEnd => 0x12,
            Opcode::SPIFlashMD5 => 0x13,
            Opcode::EraseFlash => 0xD0,
            Opcode::EraseRegion => 0xD1,
            Opcode::ReadFlash => 0xD2,
            Opcode::RunUserCode => 0xD3,
        }
    }

    /// Whether requests of this command carry the XOR checksum of their body in
    /// the value word. Only the commands that write flash data do.
    pub open spec fn checksummed(self) -> bool {
        self == Opcode::FlashData || self == Opcode::FlashDeflData
    }

    /// Tells whether requests of this command carry a checksum.
    pub fn carries_checksum(self) -> (r: bool)
        ensures
            r == self.checksummed(),
    {
        match self {
            Opcode::FlashData => true,
            Opcode::FlashDeflData => true,
            _ => false,
        }
    }
}

impl From<Opcode> for u8 {
    fn from(opcode: Opcode) -> (byte: u8) {
        match opcode {
            Opcode::FlashStart => 0x02,
            Opcode::FlashData => 0x03,
            Opcode::FlashFinish => 0x04,
            Opcode::RAMStart => 0x05,
            Opcode::RAMFinish => 0x06,
            Opcode::RAMData => 0x07,
            Opcode::SyncFrame => 0x08,
            Opcode::WriteReg => 0x09,
            Opcode::ReadReg => 0x0A,
            Opcode::SPISetParams => 0x0B,
            Opcode::SPIAttach => 0x0D,
            Opcode::ChangeBaudrate => 0x0F,
            Opcode::FlashDeflBegin => 0x10,
            Opcode::FlashDeflData => 0x11,
            Opcode::FlashDeflEnd => 0x12,
            Opcode::SPIFlashMD5 => 0x13,
            Opcode::EraseFlash => 0xD0,
            Opcode::EraseRegion => 0xD1,
            Opcode::ReadFlash => 0xD2,
            Opcode::RunUserCode => 0xD3,
        }
    }
}

impl vstd::std_specs::convert::FromSpecImpl<Opcode> for u8 {
    open spec fn obeys_from_spec() -> bool {
        true
    }

    open spec fn from_spec(opcode: Opcode) -> u8 {
        opcode.code()
    }
}

/// Length of the fixed header that every packet starts with.
pub const HEADER_LEN: usize = 8;

/// Direction byte of a request, host to device.
pub const DIRECTION_REQUEST: u8 = 0x00;

/// Direction byte of a reply, device to host.
pub const DIRECTION_REPLY: u8 = 0x01;

/// Seed of the XOR checksum.
pub const CHECKSUM_SEED: u8 = 0xEF;

/// The longest body that the 16-bit size field can announce.
pub const MAX_BODY_LEN: usize = 0xFFFF;

/// The four bytes of `value`, least significant first.
pub open spec fn le_bytes(value: u32) -> Seq<u8> {
    seq![
        (value % 256) as u8,
        (value / 256 % 256) as u8,
        (value / 65536 % 256) as u8,
        (value / 16777216) as u8,
    ]
}

/// The number whose little-endian bytes are the first four of `bytes`.
pub open spec fn le_value(bytes: Seq<u8>) -> u32
    recommends
        bytes.len() >= 4,
{
    (bytes[0] as int + 256 * (bytes[1] as int) + 65536 * (bytes[2] as int) + 16777216 * (
    bytes[3] as int)) as u32
}

/// Reading the little-endian bytes of a number gives the number back.
pub proof fn lemma_le_value_of_bytes(value: u32)
    ensures
        le_bytes(value).len() == 4,
        le_value(le_bytes(value)) == value,
{
    assert(value == (value % 256) + 256 * (value / 256 % 256) + 65536 * (value / 65536 % 256)
        + 16777216 * (value / 16777216)) by (bit_vector);
    assert(value % 256 < 256 && value / 256 % 256 < 256 && value / 65536 % 256 < 256 && value
        / 16777216 < 256) by (bit_vector);
}

/// XOR of the seed `0xEF` and every byte of `body`.
pub open spec fn checksum(body: Seq<u8>) -> u8
    decreases body.len(),
{
    if body.len() == 0 {
        CHECKSUM_SEED
    } else {
        checksum(body.drop_last()) ^ body.last()
    }
}

/// The value word of a request: the checksum of the body for the commands that
/// carry one, zero for all others.
pub open spec fn request_value(command: Opcode, body: Seq<u8>) -> u32 {
    if command.checksummed() {
        checksum(body) as u32
    } else {
        0
    }
}

/// The bytes of a request: direction, opcode, body length, value word, body.
pub open spec fn request_bytes(command: Opcode, body: Seq<u8>) -> Seq<u8>
    recommends
        body.len() <= MAX_BODY_LEN,
{
    seq![DIRECTION_REQUEST, command.code(), (body.len() % 256) as u8, (body.len() / 256) as u8]
        + le_bytes(request_value(command, body)) + body
}

/// The body length that the header of `packet` announces.
pub open spec fn size_field(packet: Seq<u8>) -> nat
    recommends
        packet.len() >= HEADER_LEN,
{
    (packet[2] as nat) + 256 * (packet[3] as nat)
}

/// The header is there, and the body is as long as the header says.
pub open spec fn is_complete(packet: Seq<u8>) -> bool {
    packet.len() >= HEADER_LEN && packet.len() == HEADER_LEN + size_field(packet)
}

/// A complete packet that travels from the device to the host.
pub open spec fn is_reply(packet: Seq<u8>) -> bool {
    is_complete(packet) && packet[0] == DIRECTION_REPLY
}

/// The layout of a request: byte 0 is the direction of a request, byte 1 the
/// opcode, bytes 2 and 3 the length of the body, least significant byte
/// first, bytes 4 to 7 the value word, and the rest is the body.
pub proof fn lemma_request_layout(command: Opcode, body: Seq<u8>)
    requires
        body.len() <= MAX_BODY_LEN,
    ensures
        request_bytes(command, body).len() == HEADER_LEN + body.len(),
        request_bytes(command, body)[0] == DIRECTION_REQUEST,
        request_bytes(command, body)[1] == command.code(),
        request_bytes(command, body)[2] == body.len() % 256,
        request_bytes(command, body)[3] == body.len() / 256,
        size_field(request_bytes(command, body)) == body.len(),
        request_bytes(command, body).subrange(4, 8) == le_bytes(request_value(command, body)),
        request_bytes(command, body).skip(HEADER_LEN as int) == body,
        is_complete(request_bytes(command, body)),
{
    let packet = request_bytes(command, body);
    assert(packet.subrange(4, 8) =~= le_bytes(request_value(command, body)));
    assert(packet.skip(HEADER_LEN as int) =~= body);
}

/// What parsing `raw` as a reply gives: the bytes themselves, or the first
/// defect found, looking at the header length, the direction and the body
/// length in this order.
pub open spec fn parsed_reply(raw: Seq<u8>) -> Result<Seq<u8>, Error> {
    if raw.len() < HEADER_LEN {
        Err(Error::Length)
    } else if raw[0] != DIRECTION_REPLY {
        Err(Error::Direction)
    } else if raw.len() != HEADER_LEN + size_field(raw) {
        Err(Error::Length)
    } else {
        Ok(raw)
    }
}

/// What the status trailer of `packet` reports. The trailer is the last two
/// bytes behind the header; a body too short to hold one reports success.
pub open spec fn status_of(packet: Seq<u8>) -> Result<(), Error> {
    if packet.len() >= HEADER_LEN + 2 && packet[packet.len() - 2] != 0 {
        Err(Error::Failure(packet[packet.len() - 1]))
    } else {
        Ok(())
    }
}

/// The bytes of a received or built packet, for contracts that speak of a
/// packet that may be missing.
pub open spec fn packet_view(outcome: Result<Packet, Error>) -> Result<Seq<u8>, Error> {
    match outcome {
        Ok(packet) => Ok(packet@),
        Err(error) => Err(error),
    }
}

/// A logical, unframed packet: the eight header bytes and the body behind them.
///
/// Any bytes can be held as a packet. The accessors of the header ask for the
/// bytes that they read.
#[derive(Debug, PartialEq, Eq)]
pub struct Packet(Vec<u8>);

impl Clone for Packet {
    fn clone(&self) -> (copy: Self)
        ensures
            copy@ == self@,
    {
        let bytes = self.0.clone();
        assert(bytes@ =~= self.0@);
        Packet(bytes)
    }
}

impl View for Packet {
    type V = Seq<u8>;

    closed spec fn view(&self) -> Seq<u8> {
        self.0@
    }
}

impl Packet {
    /// Takes `raw` as the bytes of a packet.
    pub fn from_bytes(raw: Vec<u8>) -> (packet: Packet)
        ensures
            packet@ == raw@,
    {
        Packet(raw)
    }

    /// All bytes of the packet, header first.
    pub fn as_bytes(&self) -> (bytes: &[u8])
        ensures
            bytes@ == self@,
    {
        self.0.as_slice()
    }

    /// Gives up the packet for its bytes.
    pub fn into_bytes(self) -> (bytes: Vec<u8>)
        ensures
            bytes@ == self@,
    {
        self.0
    }

    /// The opcode byte.
    pub fn command(&self) -> (r: u8)
        requires
            self@.len() >= 2,
        ensures
            r == self@[1],
    {
        self.0[1]
    }

    /// The body length that the header announces.
    pub fn size(&self) -> (r: usize)
        requires
            self@.len() >= 4,
        ensures
            r == size_field(self@),
            r <= MAX_BODY_LEN,
    {
        let low: usize = self.0[2] as usize;
        let high: usize = self.0[3] as usize;
        low + high * 256
    }

    /// The four bytes of the value word.
    pub fn value(&self) -> (r: &[u8])
        requires
            self@.len() >= HEADER_LEN,
        ensures
            r@ == self@.subrange(4, 8),
    {
        vstd::slice::slice_subrange(self.0.as_slice(), 4, 8)
    }

    /// The body: the `size()` bytes behind the header.
    pub fn body(&self) -> (r: &[u8])
        requires
            self@.len() >= HEADER_LEN + size_field(self@),
        ensures
            r@ == self@.subrange(HEADER_LEN as int, HEADER_LEN + size_field(self@)),
    {
        let end: usize = HEADER_LEN + self.size();
        vstd::slice::slice_subrange(self.0.as_slice(), HEADER_LEN, end)
    }

    /// Whether the header is there and the body is as long as it says.
    pub fn complete(&self) -> (r: bool)
        ensures
            r == is_complete(self@),
    {
        self.0.len() >= HEADER_LEN && self.0.len() - HEADER_LEN == self.size()
    }

    /// What the status trailer reports: `Failure` with the device's error code
    /// when the status byte is not zero.
    pub fn status(&self) -> (r: Result<(), Error>)
        ensures
            r == status_of(self@),
    {
        let n: usize = self.0.len();
        if n >= HEADER_LEN + 2 && self.0[n - 2] != 0 {
            Err(Error::Failure(self.0[n - 1]))
        } else {
            Ok(())
        }
    }
}

/// Computes the XOR checksum of `body`.
pub fn xor_checksum(body: &[u8]) -> (sum: u8)
    ensures
        sum == checksum(body@),
{
    let mut sum: u8 = CHECKSUM_SEED;
    let mut i: usize = 0;
    while i < body.len()
        invariant
            i <= body.len(),
            sum == checksum(body@.take(i as int)),
        decreases body.len() - i,
    {
        assert(body@.take(i + 1).drop_last() =~= body@.take(i as int));
        sum = sum ^ body[i];
        i += 1;
    }
    assert(body@.take(body.len() as int) =~= body@);
    sum
}

/// Builds the request for `command` with the given body.
pub fn create_request(command: Opcode, body: &[u8]) -> (packet: Packet)
    requires
        body@.len() <= MAX_BODY_LEN,
    ensures
        packet@ == request_bytes(command, body@),
        is_complete(packet@),
{
    let len: usize = body.len();
    let value: u32 = if command.carries_checksum() {
        xor_checksum(body) as u32
    } else {
        0
    };
    let mut bytes: Vec<u8> = Vec::new();
    bytes.push(DIRECTION_REQUEST);
    bytes.push(u8::from(command));
    bytes.push((len % 256) as u8);
    bytes.push((len / 256) as u8);
    bytes.push((value % 256) as u8);
    bytes.push((value / 256 % 256) as u8);
    bytes.push((value / 65536 % 256) as u8);
    bytes.push((value / 16777216) as u8);
    bytes.extend_from_slice(body);
    assert(bytes@ =~= request_bytes(command, body@));
    Packet(bytes)
}

/// Parses the unframed bytes of a reply.
pub fn parse_reply(raw: Vec<u8>) -> (r: Result<Packet, Error>)
    ensures
        packet_view(r) == parsed_reply(raw@),
{
    if raw.len() < HEADER_LEN {
        return Err(Error::Length);
    }
    if raw[0] != DIRECTION_REPLY {
        return Err(Error::Direction);
    }
    let size: usize = raw[2] as usize + raw[3] as usize * 256;
    if raw.len() - HEADER_LEN != size {
        return Err(Error::Length);
    }
    Ok(Packet(raw))
}

} // verus!
