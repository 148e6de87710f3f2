//! The datagram header and the command header.

use vstd::prelude::*;

use bytes::BytesMut;

use crate::buffer;
use crate::protocol::wire;
use crate::protocol::{
    COMMAND_FLAG_ACKNOWLEDGE, COMMAND_FLAG_UNSEQUENCED, COMMAND_HEADER_SIZE, COMMAND_MASK,
    HEADER_FLAG_COMPRESSED, HEADER_FLAG_SENT_TIME, HEADER_PEER_ID_MAX, HEADER_SESSION_MASK,
    HEADER_SESSION_SHIFT, HEADER_SIZE, HEADER_SIZE_WITH_SENT_TIME,
};

verus! {

/// The header of a datagram.
#[derive(Debug, Clone, Copy)]
pub struct ProtocolHeader {
    /// Encodes: flags(2) | session(2) | peer_id(12)
    pub peer_id_raw: u16,
    /// Present when HEADER_FLAG_SENT_TIME is set
    pub sent_time: Option<u16>,
}

/// The header of a command.
#[derive(Debug, Clone, Copy)]
pub struct CommandHeader {
    /// Low 4 bits = type; bits 6-7 = flags
    pub command: u8,
    pub channel_id: u8,
    pub reliable_seq: u16,
}

/// Bits 11-0 of the first header field.
pub open spec fn peer_id_bits(raw: u16) -> u16 {
    raw % 4096
}

/// Bits 13-12 of the first header field.
pub open spec fn session_bits(raw: u16) -> u8 {
    (raw / 4096 % 4) as u8
}

/// Bit 14 of the first header field.
pub open spec fn compressed_bit(raw: u16) -> bool {
    raw / 0x4000 % 2 == 1
}

/// Bit 15 of the first header field.
pub open spec fn sent_time_bit(raw: u16) -> bool {
    raw >= 0x8000
}

/// The first header field of a datagram with a send time and no compression.
pub open spec fn timed_raw(peer_id: u16, session_id: u8) -> u16 {
    (0x8000 + (session_id % 4) * 4096 + peer_id % 4096) as u16
}

/// The low four bits of a command byte.
pub open spec fn command_type_bits(command: u8) -> u8 {
    command % 16
}

/// Bit 7 of a command byte.
pub open spec fn ack_bit(command: u8) -> bool {
    command >= 128
}

/// Bit 6 of a command byte.
pub open spec fn unsequenced_bit(command: u8) -> bool {
    command / 64 % 2 == 1
}

/// The bytes of a datagram header.
pub open spec fn protocol_header_bytes(h: ProtocolHeader) -> Seq<u8> {
    match h.sent_time {
        Some(t) => wire::be16(h.peer_id_raw) + wire::be16(t),
        None => wire::be16(h.peer_id_raw),
    }
}

/// The bytes of a command header.
pub open spec fn command_header_bytes(h: CommandHeader) -> Seq<u8> {
    seq![h.command, h.channel_id] + wire::be16(h.reliable_seq)
}

/// The datagram header at the front of `s`, if it is complete, and how many
/// bytes were read.
pub open spec fn parse_protocol_header(s: Seq<u8>) -> (Option<ProtocolHeader>, int) {
    let raw = wire::u16_at(s, 0);
    if s.len() < 2 {
        (None, 0)
    } else if !sent_time_bit(raw) {
        (Some(ProtocolHeader { peer_id_raw: raw, sent_time: None }), 2)
    } else if s.len() < 4 {
        (None, 2)
    } else {
        (Some(ProtocolHeader { peer_id_raw: raw, sent_time: Some(wire::u16_at(s, 2)) }), 4)
    }
}

/// The command header at the front of `s`, if it is complete, and how many
/// bytes were read.
pub open spec fn parse_command_header(s: Seq<u8>) -> (Option<CommandHeader>, int) {
    if s.len() < 4 {
        (None, 0)
    } else {
        (
            Some(
                CommandHeader {
                    command: s[0],
                    channel_id: s[1],
                    reliable_seq: wire::u16_at(s, 2),
                },
            ),
            4,
        )
    }
}

impl ProtocolHeader {
    /// Packs flags, session and peer id into the first field.
    pub fn new(peer_id: u16, session_id: u8, flags: u16, sent_time: Option<u16>) -> (h: Self)
        ensures
            h.sent_time == sent_time,
            h.peer_id_raw == flags | ((session_id as u16 & 0x3) << 12) | (peer_id & 0x0FFF),
            flags % 0x4000 == 0 ==> h.peer_id_raw == flags + (session_id % 4) * 4096 + peer_id
                % 4096,
    {
        assert(flags % 0x4000 == 0 ==> (flags | ((session_id as u16 & 0x3) << 12) | (peer_id
            & 0x0FFF)) == flags + (session_id % 4) * 4096 + peer_id % 4096) by (bit_vector);
        let raw: u16 = flags | ((session_id as u16 & 0x3) << HEADER_SESSION_SHIFT) | (peer_id
            & HEADER_PEER_ID_MAX);
        Self { peer_id_raw: raw, sent_time }
    }

    /// The recipient's slot.
    pub fn peer_id(&self) -> (r: u16)
        ensures
            r == peer_id_bits(self.peer_id_raw),
    {
        let raw: u16 = self.peer_id_raw;
        assert(raw & 0x0FFF == raw % 4096) by (bit_vector);
        self.peer_id_raw & HEADER_PEER_ID_MAX
    }

    /// The session counter.
    pub fn session_id(&self) -> (r: u8)
        ensures
            r == session_bits(self.peer_id_raw),
    {
        let raw: u16 = self.peer_id_raw;
        assert((raw & 0x3000) >> 12 == raw / 4096 % 4) by (bit_vector);
        ((self.peer_id_raw & HEADER_SESSION_MASK) >> HEADER_SESSION_SHIFT) as u8
    }

    /// Whether the commands are compressed.
    pub fn is_compressed(&self) -> (r: bool)
        ensures
            r == compressed_bit(self.peer_id_raw),
    {
        let raw: u16 = self.peer_id_raw;
        assert((raw & 0x4000 != 0) == (raw / 0x4000 % 2 == 1)) by (bit_vector);
        self.peer_id_raw & HEADER_FLAG_COMPRESSED != 0
    }

    /// Whether a send time follows the first field.
    pub fn has_sent_time(&self) -> (r: bool)
        ensures
            r == sent_time_bit(self.peer_id_raw),
    {
        let raw: u16 = self.peer_id_raw;
        assert((raw & 0x8000 != 0) == (raw >= 0x8000)) by (bit_vector);
        self.peer_id_raw & HEADER_FLAG_SENT_TIME != 0
    }

    /// How many bytes `write` appends.
    pub fn byte_size(&self) -> (r: usize)
        ensures
            r == protocol_header_bytes(*self).len(),
    {
        if self.sent_time.is_some() {
            HEADER_SIZE_WITH_SENT_TIME
        } else {
            HEADER_SIZE
        }
    }

    /// Reads the header at the front of `buf` and moves `buf` behind what was
    /// read.
    pub fn parse(buf: &mut &[u8]) -> (r: Option<Self>)
        ensures
            r == parse_protocol_header(old(buf)@).0,
            final(buf)@ == old(buf)@.skip(parse_protocol_header(old(buf)@).1),
    {
        if buf.len() < HEADER_SIZE {
            assert(buf@.skip(0) =~= buf@);
            return None;
        }
        let ghost whole = buf@;
        let peer_id_raw: u16 = wire::read_u16(*buf, 0);
        *buf = &buf[2..buf.len()];
        assert(buf@ =~= whole.skip(2));
        assert((peer_id_raw & 0x8000 != 0) == (peer_id_raw >= 0x8000)) by (bit_vector);
        let sent_time = if peer_id_raw & HEADER_FLAG_SENT_TIME != 0 {
            if buf.len() < 2 {
                return None;
            }
            let t: u16 = wire::read_u16(*buf, 0);
            *buf = &buf[2..buf.len()];
            assert(buf@ =~= whole.skip(4));
            Some(t)
        } else {
            None
        };
        Some(Self { peer_id_raw, sent_time })
    }

    /// Appends the header to `out`.
    pub fn write(&self, out: &mut BytesMut)
        requires
            buffer::written(*old(out)).len() + protocol_header_bytes(*self).len() <= isize::MAX,
        ensures
            buffer::written(*final(out)) == buffer::written(*old(out)) + protocol_header_bytes(
                *self,
            ),
    {
        let ghost before = buffer::written(*out);
        buffer::put_u16(out, self.peer_id_raw);
        if let Some(t) = self.sent_time {
            buffer::put_u16(out, t);
        }
        assert(buffer::written(*out) =~= before + protocol_header_bytes(*self));
    }
}

impl CommandHeader {
    /// The command type.
    pub fn command_type(&self) -> (r: u8)
        ensures
            r == command_type_bits(self.command),
    {
        let c: u8 = self.command;
        assert(c & 0x0F == c % 16) by (bit_vector);
        self.command & COMMAND_MASK
    }

    /// Whether the receiver must acknowledge the command.
    pub fn has_ack_flag(&self) -> (r: bool)
        ensures
            r == ack_bit(self.command),
    {
        let c: u8 = self.command;
        assert((c & 0x80 != 0) == (c >= 128)) by (bit_vector);
        self.command & COMMAND_FLAG_ACKNOWLEDGE != 0
    }

    /// Whether the command asks for unsequenced delivery.
    pub fn has_unsequenced_flag(&self) -> (r: bool)
        ensures
            r == unsequenced_bit(self.command),
    {
        let c: u8 = self.command;
        assert((c & 0x40 != 0) == (c / 64 % 2 == 1)) by (bit_vector);
        self.command & COMMAND_FLAG_UNSEQUENCED != 0
    }

    /// Reads the header at the front of `buf` and moves `buf` behind what was
    /// read.
    pub fn parse(buf: &mut &[u8]) -> (r: Option<Self>)
        ensures
            r == parse_command_header(old(buf)@).0,
            final(buf)@ == old(buf)@.skip(parse_command_header(old(buf)@).1),
    {
        if buf.len() < COMMAND_HEADER_SIZE {
            assert(buf@.skip(0) =~= buf@);
            return None;
        }
        let ghost whole = buf@;
        let hdr = Self {
            command: buf[0],
            channel_id: buf[1],
            reliable_seq: wire::read_u16(*buf, 2),
        };
        *buf = &buf[COMMAND_HEADER_SIZE..buf.len()];
        assert(buf@ =~= whole.skip(4));
        Some(hdr)
    }

    /// Appends the header to `out`.
    pub fn write(&self, out: &mut BytesMut)
        requires
            buffer::written(*old(out)).len() + 4 <= isize::MAX,
        ensures
            buffer::written(*final(out)) == buffer::written(*old(out)) + command_header_bytes(
                *self,
            ),
    {
        let ghost before = buffer::written(*out);
        buffer::put_u8(out, self.command);
        buffer::put_u8(out, self.channel_id);
        buffer::put_u16(out, self.reliable_seq);
        assert(buffer::written(*out) =~= before + command_header_bytes(*self));
    }
}

/// Law: what `new` packs into a header, its accessors give back, for any
/// flags that leave the low bits alone.
pub proof fn lemma_header_fields(flags: u16, session_id: u8, peer_id: u16)
    requires
        flags % 0x4000 == 0,
    ensures
        ({
            let raw = (flags + (session_id % 4) * 4096 + peer_id % 4096) as u16;
            &&& peer_id_bits(raw) == peer_id % 4096
            &&& session_bits(raw) == session_id % 4
            &&& compressed_bit(raw) == compressed_bit(flags)
            &&& sent_time_bit(raw) == sent_time_bit(flags)
        }),
{
}

/// Law: a written datagram header reads back, and what follows it is left,
/// provided that its time flag says whether the time is there.
pub proof fn lemma_protocol_header_round_trip(h: ProtocolHeader, rest: Seq<u8>)
    requires
        sent_time_bit(h.peer_id_raw) == h.sent_time.is_some(),
    ensures
        parse_protocol_header(protocol_header_bytes(h) + rest) == (
            Some(h),
            protocol_header_bytes(h).len() as int,
        ),
        (protocol_header_bytes(h) + rest).skip(protocol_header_bytes(h).len() as int) == rest,
{
    let s = protocol_header_bytes(h) + rest;
    assert(s.skip(protocol_header_bytes(h).len() as int) =~= rest);
    assert(s.subrange(0, 2) =~= wire::be16(h.peer_id_raw));
    wire::lemma_be16_reads_back(s, 0, h.peer_id_raw);
    if let Some(t) = h.sent_time {
        assert(s.subrange(2, 4) =~= wire::be16(t));
        wire::lemma_be16_reads_back(s, 2, t);
    }
}

/// Law: a written command header reads back, and what follows it is left.
pub proof fn lemma_command_header_round_trip(h: CommandHeader, rest: Seq<u8>)
    ensures
        parse_command_header(command_header_bytes(h) + rest) == (Some(h), 4int),
        (command_header_bytes(h) + rest).skip(4) == rest,
{
    let s = command_header_bytes(h) + rest;
    assert(s.skip(4) =~= rest);
    assert(s.subrange(2, 4) =~= wire::be16(h.reliable_seq));
    wire::lemma_be16_reads_back(s, 2, h.reliable_seq);
}

} // verus!
