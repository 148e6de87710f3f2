//! Commands: their fields, their bytes, and how bytes are read as commands.

use vstd::prelude::*;

use bytes::{Bytes, BytesMut};

use crate::buffer;
use crate::protocol::header;
use crate::protocol::wire;
use crate::protocol::CommandHeader;
use crate::protocol::{
    CMD_ACKNOWLEDGE, CMD_BANDWIDTH_LIMIT, CMD_CONNECT, CMD_DISCONNECT, CMD_PING, CMD_SEND_FRAGMENT,
    CMD_SEND_RELIABLE, CMD_SEND_UNRELIABLE, CMD_SEND_UNRELIABLE_FRAGMENT, CMD_SEND_UNSEQUENCED,
    CMD_THROTTLE_CONFIGURE, CMD_VERIFY_CONNECT, COMMAND_HEADER_SIZE, MAX_COMMANDS_PER_PACKET,
};

verus! {

#[derive(Debug, Clone, Copy)]
pub struct AcknowledgeCmd {
    pub received_reliable_seq: u16,
    pub received_sent_time: u16,
}

#[derive(Debug, Clone, Copy)]
pub struct ConnectCmd {
    pub outgoing_peer_id: u16,
    pub incoming_session_id: u8,
    pub outgoing_session_id: u8,
    pub mtu: u32,
    pub window_size: u32,
    pub channel_count: u32,
    pub incoming_bandwidth: u32,
    pub outgoing_bandwidth: u32,
    pub throttle_interval: u32,
    pub throttle_acceleration: u32,
    pub throttle_deceleration: u32,
    pub connect_id: u32,
    pub data: u32,
}

#[derive(Debug, Clone, Copy)]
pub struct VerifyConnectCmd {
    pub outgoing_peer_id: u16,
    pub incoming_session_id: u8,
    pub outgoing_session_id: u8,
    pub mtu: u32,
    pub window_size: u32,
    pub channel_count: u32,
    pub incoming_bandwidth: u32,
    pub outgoing_bandwidth: u32,
    pub throttle_interval: u32,
    pub throttle_acceleration: u32,
    pub throttle_deceleration: u32,
    pub connect_id: u32,
}

#[derive(Debug, Clone, Copy)]
pub struct DisconnectCmd {
    pub data: u32,
}

#[derive(Debug, Clone)]
pub struct SendReliableCmd {
    pub data: Bytes,
}

#[derive(Debug, Clone)]
pub struct SendUnreliableCmd {
    pub unreliable_seq: u16,
    pub data: Bytes,
}

#[derive(Debug, Clone)]
pub struct SendFragmentCmd {
    pub start_seq: u16,
    pub fragment_count: u32,
    pub fragment_number: u32,
    pub total_length: u32,
    pub fragment_offset: u32,
    pub data: Bytes,
}

#[derive(Debug, Clone)]
pub struct SendUnsequencedCmd {
    pub unsequenced_group: u16,
    pub data: Bytes,
}

#[derive(Debug, Clone, Copy)]
pub struct BandwidthLimitCmd {
    pub incoming_bandwidth: u32,
    pub outgoing_bandwidth: u32,
}

#[derive(Debug, Clone, Copy)]
pub struct ThrottleConfigureCmd {
    pub throttle_interval: u32,
    pub throttle_acceleration: u32,
    pub throttle_deceleration: u32,
}

#[derive(Debug, Clone)]
pub enum CommandBody {
    Acknowledge(AcknowledgeCmd),
    Connect(ConnectCmd),
    VerifyConnect(VerifyConnectCmd),
    Disconnect(DisconnectCmd),
    Ping,
    SendReliable(SendReliableCmd),
    SendUnreliable(SendUnreliableCmd),
    SendFragment(SendFragmentCmd),
    SendUnsequenced(SendUnsequencedCmd),
    BandwidthLimit(BandwidthLimitCmd),
    ThrottleConfigure(ThrottleConfigureCmd),
    SendUnreliableFragment(SendFragmentCmd),
}

#[derive(Debug, Clone)]
pub struct Command {
    pub header: CommandHeader,
    pub body: CommandBody,
}

/// What a fragment command says, with its payload as a sequence.
#[verifier::ext_equal]
pub struct FragmentView {
    pub start_seq: u16,
    pub fragment_count: u32,
    pub fragment_number: u32,
    pub total_length: u32,
    pub fragment_offset: u32,
    pub data: Seq<u8>,
}

/// What a command body says, with payloads as sequences.
#[verifier::ext_equal]
pub enum BodyView {
    Acknowledge(AcknowledgeCmd),
    Connect(ConnectCmd),
    VerifyConnect(VerifyConnectCmd),
    Disconnect(DisconnectCmd),
    Ping,
    SendReliable(Seq<u8>),
    SendUnreliable(u16, Seq<u8>),
    SendFragment(FragmentView),
    SendUnsequenced(u16, Seq<u8>),
    BandwidthLimit(BandwidthLimitCmd),
    ThrottleConfigure(ThrottleConfigureCmd),
    SendUnreliableFragment(FragmentView),
}

/// A command with its payload as a sequence.
#[verifier::ext_equal]
pub struct CommandView {
    pub header: CommandHeader,
    pub body: BodyView,
}

impl View for SendFragmentCmd {
    type V = FragmentView;

    open spec fn view(&self) -> FragmentView {
        FragmentView {
            start_seq: self.start_seq,
            fragment_count: self.fragment_count,
            fragment_number: self.fragment_number,
            total_length: self.total_length,
            fragment_offset: self.fragment_offset,
            data: buffer::content(self.data),
        }
    }
}

impl View for CommandBody {
    type V = BodyView;

    open spec fn view(&self) -> BodyView {
        match *self {
            CommandBody::Acknowledge(c) => BodyView::Acknowledge(c),
            CommandBody::Connect(c) => BodyView::Connect(c),
            CommandBody::VerifyConnect(c) => BodyView::VerifyConnect(c),
            CommandBody::Disconnect(c) => BodyView::Disconnect(c),
            CommandBody::Ping => BodyView::Ping,
            CommandBody::SendReliable(c) => BodyView::SendReliable(buffer::content(c.data)),
            CommandBody::SendUnreliable(c) => BodyView::SendUnreliable(
                c.unreliable_seq,
                buffer::content(c.data),
            ),
            CommandBody::SendFragment(c) => BodyView::SendFragment(c@),
            CommandBody::SendUnsequenced(c) => BodyView::SendUnsequenced(
                c.unsequenced_group,
                buffer::content(c.data),
            ),
            CommandBody::BandwidthLimit(c) => BodyView::BandwidthLimit(c),
            CommandBody::ThrottleConfigure(c) => BodyView::ThrottleConfigure(c),
            CommandBody::SendUnreliableFragment(c) => BodyView::SendUnreliableFragment(c@),
        }
    }
}

impl View for Command {
    type V = CommandView;

    open spec fn view(&self) -> CommandView {
        CommandView { header: self.header, body: self.body@ }
    }
}

/// The type number of each kind of body.
pub open spec fn body_type(b: BodyView) -> u8 {
    match b {
        BodyView::Acknowledge(_) => CMD_ACKNOWLEDGE,
        BodyView::Connect(_) => CMD_CONNECT,
        BodyView::VerifyConnect(_) => CMD_VERIFY_CONNECT,
        BodyView::Disconnect(_) => CMD_DISCONNECT,
        BodyView::Ping => CMD_PING,
        BodyView::SendReliable(_) => CMD_SEND_RELIABLE,
        BodyView::SendUnreliable(_, _) => CMD_SEND_UNRELIABLE,
        BodyView::SendFragment(_) => CMD_SEND_FRAGMENT,
        BodyView::SendUnsequenced(_, _) => CMD_SEND_UNSEQUENCED,
        BodyView::BandwidthLimit(_) => CMD_BANDWIDTH_LIMIT,
        BodyView::ThrottleConfigure(_) => CMD_THROTTLE_CONFIGURE,
        BodyView::SendUnreliableFragment(_) => CMD_SEND_UNRELIABLE_FRAGMENT,
    }
}

/// The payload of a body, empty where it has none.
pub open spec fn body_data(b: BodyView) -> Seq<u8> {
    match b {
        BodyView::SendReliable(d) => d,
        BodyView::SendUnreliable(_, d) => d,
        BodyView::SendFragment(f) => f.data,
        BodyView::SendUnsequenced(_, d) => d,
        BodyView::SendUnreliableFragment(f) => f.data,
        _ => Seq::empty(),
    }
}

/// The length field of a payload: its length, as far as 16 bits hold it.
pub open spec fn data_length(d: Seq<u8>) -> u16 {
    (d.len() % 0x1_0000) as u16
}

pub open spec fn fragment_bytes(f: FragmentView) -> Seq<u8> {
    wire::be16(f.start_seq) + wire::be16(data_length(f.data)) + wire::be32(f.fragment_count)
        + wire::be32(f.fragment_number) + wire::be32(f.total_length) + wire::be32(f.fragment_offset)
        + f.data
}

pub open spec fn connect_bytes(c: ConnectCmd) -> Seq<u8> {
    wire::be16(c.outgoing_peer_id) + seq![c.incoming_session_id] + seq![c.outgoing_session_id]
        + wire::be32(c.mtu) + wire::be32(c.window_size) + wire::be32(c.channel_count) + wire::be32(
        c.incoming_bandwidth,
    ) + wire::be32(c.outgoing_bandwidth) + wire::be32(c.throttle_interval) + wire::be32(
        c.throttle_acceleration,
    ) + wire::be32(c.throttle_deceleration) + wire::be32(c.connect_id) + wire::be32(c.data)
}

pub open spec fn verify_connect_bytes(c: VerifyConnectCmd) -> Seq<u8> {
    wire::be16(c.outgoing_peer_id) + seq![c.incoming_session_id] + seq![c.outgoing_session_id]
        + wire::be32(c.mtu) + wire::be32(c.window_size) + wire::be32(c.channel_count) + wire::be32(
        c.incoming_bandwidth,
    ) + wire::be32(c.outgoing_bandwidth) + wire::be32(c.throttle_interval) + wire::be32(
        c.throttle_acceleration,
    ) + wire::be32(c.throttle_deceleration) + wire::be32(c.connect_id)
}

/// The bytes of a command behind its header.
pub open spec fn body_bytes(b: BodyView) -> Seq<u8> {
    match b {
        BodyView::Acknowledge(c) => wire::be16(c.received_reliable_seq) + wire::be16(
            c.received_sent_time,
        ),
        BodyView::Connect(c) => connect_bytes(c),
        BodyView::VerifyConnect(c) => verify_connect_bytes(c),
        BodyView::Disconnect(c) => wire::be32(c.data),
        BodyView::Ping => Seq::empty(),
        BodyView::SendReliable(d) => wire::be16(data_length(d)) + d,
        BodyView::SendUnreliable(n, d) => wire::be16(n) + wire::be16(data_length(d)) + d,
        BodyView::SendFragment(f) => fragment_bytes(f),
        BodyView::SendUnsequenced(n, d) => wire::be16(n) + wire::be16(data_length(d)) + d,
        BodyView::BandwidthLimit(c) => wire::be32(c.incoming_bandwidth) + wire::be32(
            c.outgoing_bandwidth,
        ),
        BodyView::ThrottleConfigure(c) => wire::be32(c.throttle_interval) + wire::be32(
            c.throttle_acceleration,
        ) + wire::be32(c.throttle_deceleration),
        BodyView::SendUnreliableFragment(f) => fragment_bytes(f),
    }
}

/// The bytes of a command.
pub open spec fn command_bytes(c: CommandView) -> Seq<u8> {
    header::command_header_bytes(c.header) + body_bytes(c.body)
}

/// The fixed fields in front of a body's payload, in bytes.
pub open spec fn fixed_size(ty: u8) -> int {
    if ty == CMD_CONNECT {
        44
    } else if ty == CMD_VERIFY_CONNECT {
        40
    } else if ty == CMD_PING {
        0
    } else if ty == CMD_SEND_RELIABLE {
        2
    } else if ty == CMD_SEND_FRAGMENT || ty == CMD_SEND_UNRELIABLE_FRAGMENT {
        20
    } else if ty == CMD_BANDWIDTH_LIMIT {
        8
    } else if ty == CMD_THROTTLE_CONFIGURE {
        12
    } else {
        4
    }
}

/// The length of the payload that a body of type `ty` announces.
pub open spec fn announced_length(ty: u8, s: Seq<u8>) -> int {
    if ty == CMD_SEND_RELIABLE {
        wire::u16_at(s, 0) as int
    } else if ty == CMD_SEND_UNRELIABLE || ty == CMD_SEND_UNSEQUENCED || ty == CMD_SEND_FRAGMENT
        || ty == CMD_SEND_UNRELIABLE_FRAGMENT {
        wire::u16_at(s, 2) as int
    } else {
        0
    }
}

/// The fields of a fragment body whose payload is `d`.
pub open spec fn fragment_fields(s: Seq<u8>, d: Seq<u8>) -> FragmentView {
    FragmentView {
        start_seq: wire::u16_at(s, 0),
        fragment_count: wire::u32_at(s, 4),
        fragment_number: wire::u32_at(s, 8),
        total_length: wire::u32_at(s, 12),
        fragment_offset: wire::u32_at(s, 16),
        data: d,
    }
}

/// The fields of a complete body of type `ty` whose payload is `d`.
pub open spec fn body_fields(ty: u8, s: Seq<u8>, d: Seq<u8>) -> BodyView {
    if ty == CMD_ACKNOWLEDGE {
        BodyView::Acknowledge(
            AcknowledgeCmd {
                received_reliable_seq: wire::u16_at(s, 0),
                received_sent_time: wire::u16_at(s, 2),
            },
        )
    } else if ty == CMD_CONNECT {
        BodyView::Connect(
            ConnectCmd {
                outgoing_peer_id: wire::u16_at(s, 0),
                incoming_session_id: s[2],
                outgoing_session_id: s[3],
                mtu: wire::u32_at(s, 4),
                window_size: wire::u32_at(s, 8),
                channel_count: wire::u32_at(s, 12),
                incoming_bandwidth: wire::u32_at(s, 16),
                outgoing_bandwidth: wire::u32_at(s, 20),
                throttle_interval: wire::u32_at(s, 24),
                throttle_acceleration: wire::u32_at(s, 28),
                throttle_deceleration: wire::u32_at(s, 32),
                connect_id: wire::u32_at(s, 36),
                data: wire::u32_at(s, 40),
            },
        )
    } else if ty == CMD_VERIFY_CONNECT {
        BodyView::VerifyConnect(
            VerifyConnectCmd {
                outgoing_peer_id: wire::u16_at(s, 0),
                incoming_session_id: s[2],
                outgoing_session_id: s[3],
                mtu: wire::u32_at(s, 4),
                window_size: wire::u32_at(s, 8),
                channel_count: wire::u32_at(s, 12),
                incoming_bandwidth: wire::u32_at(s, 16),
                outgoing_bandwidth: wire::u32_at(s, 20),
                throttle_interval: wire::u32_at(s, 24),
                throttle_acceleration: wire::u32_at(s, 28),
                throttle_deceleration: wire::u32_at(s, 32),
                connect_id: wire::u32_at(s, 36),
            },
        )
    } else if ty == CMD_DISCONNECT {
        BodyView::Disconnect(DisconnectCmd { data: wire::u32_at(s, 0) })
    } else if ty == CMD_PING {
        BodyView::Ping
    } else if ty == CMD_SEND_RELIABLE {
        BodyView::SendReliable(d)
    } else if ty == CMD_SEND_UNRELIABLE {
        BodyView::SendUnreliable(wire::u16_at(s, 0), d)
    } else if ty == CMD_SEND_FRAGMENT {
        BodyView::SendFragment(fragment_fields(s, d))
    } else if ty == CMD_SEND_UNSEQUENCED {
        BodyView::SendUnsequenced(wire::u16_at(s, 0), d)
    } else if ty == CMD_BANDWIDTH_LIMIT {
        BodyView::BandwidthLimit(
            BandwidthLimitCmd {
                incoming_bandwidth: wire::u32_at(s, 0),
                outgoing_bandwidth: wire::u32_at(s, 4),
            },
        )
    } else if ty == CMD_THROTTLE_CONFIGURE {
        BodyView::ThrottleConfigure(
            ThrottleConfigureCmd {
                throttle_interval: wire::u32_at(s, 0),
                throttle_acceleration: wire::u32_at(s, 4),
                throttle_deceleration: wire::u32_at(s, 8),
            },
        )
    } else {
        BodyView::SendUnreliableFragment(fragment_fields(s, d))
    }
}

/// The body of type `ty` at the front of `s`, if the type is known and the
/// body complete, and how many bytes were read.
pub open spec fn parse_body(ty: u8, s: Seq<u8>) -> (Option<BodyView>, int) {
    let fixed = fixed_size(ty);
    let n = announced_length(ty, s);
    if ty < CMD_ACKNOWLEDGE || ty > CMD_SEND_UNRELIABLE_FRAGMENT || s.len() < fixed {
        (None, 0)
    } else if s.len() < fixed + n {
        (None, fixed)
    } else {
        (Some(body_fields(ty, s, s.subrange(fixed, fixed + n))), fixed + n)
    }
}

/// The command at the front of `s`, if it is complete and its type known, and
/// how many bytes were read.
pub open spec fn parse_command(s: Seq<u8>) -> (Option<CommandView>, int) {
    match header::parse_command_header(s) {
        (None, n) => (None, n),
        (Some(h), n) => match parse_body(header::command_type_bits(h.command), s.skip(n)) {
            (None, m) => (None, n + m),
            (Some(b), m) => (Some(CommandView { header: h, body: b }), n + m),
        },
    }
}

/// The commands at the front of `s`, at most `limit` of them, up to the first
/// that does not parse.
pub open spec fn parse_all(s: Seq<u8>, limit: nat) -> Seq<CommandView>
    decreases limit,
{
    if s.len() == 0 || limit == 0 {
        Seq::empty()
    } else {
        match parse_command(s) {
            (Some(c), n) => seq![c] + parse_all(s.skip(n), (limit - 1) as nat),
            (None, _) => Seq::empty(),
        }
    }
}

/// The bytes of commands one after the other.
pub open spec fn all_bytes(cmds: Seq<CommandView>) -> Seq<u8>
    decreases cmds.len(),
{
    if cmds.len() == 0 {
        Seq::empty()
    } else {
        command_bytes(cmds[0]) + all_bytes(cmds.drop_first())
    }
}

/// Moves `buf` behind its first `n` bytes and returns them, if there are as
/// many.
fn take_data(buf: &mut &[u8], n: usize) -> (r: Option<Bytes>)
    ensures
        r is Some <==> n <= old(buf)@.len(),
        r matches Some(d) ==> buffer::content(d) == old(buf)@.take(n as int) && final(buf)@
            == old(buf)@.skip(n as int),
        r is None ==> final(buf)@ == old(buf)@,
{
    let s: &[u8] = *buf;
    if s.len() < n {
        return None;
    }
    let data = Bytes::copy_from_slice(&s[0..n]);
    *buf = &s[n..s.len()];
    assert(buf@ =~= s@.skip(n as int));
    Some(data)
}

/// Reads a body of type `ty` at the front of `buf` and moves `buf` behind
/// what was read.
#[verifier::rlimit(40)]
fn read_body(ty: u8, buf: &mut &[u8]) -> (r: Option<CommandBody>)
    ensures
        match r {
            Some(b) => parse_body(ty, old(buf)@).0 == Some(b@),
            None => parse_body(ty, old(buf)@).0 is None,
        },
        final(buf)@ == old(buf)@.skip(parse_body(ty, old(buf)@).1),
{
    let s: &[u8] = *buf;
    let ghost whole = s@;
    assert(whole.skip(0) =~= whole);
    let fixed: usize = match ty {
        CMD_ACKNOWLEDGE | CMD_DISCONNECT | CMD_SEND_UNRELIABLE | CMD_SEND_UNSEQUENCED => 4,
        CMD_CONNECT => 44,
        CMD_VERIFY_CONNECT => 40,
        CMD_PING => 0,
        CMD_SEND_RELIABLE => 2,
        CMD_SEND_FRAGMENT | CMD_SEND_UNRELIABLE_FRAGMENT => 20,
        CMD_BANDWIDTH_LIMIT => 8,
        CMD_THROTTLE_CONFIGURE => 12,
        _ => return None,
    };
    if s.len() < fixed {
        return None;
    }
    *buf = &s[fixed..s.len()];
    assert(buf@ =~= whole.skip(fixed as int));
    let ghost rest = buf@;
    let data_len: usize = match ty {
        CMD_SEND_RELIABLE => wire::read_u16(s, 0) as usize,
        CMD_SEND_UNRELIABLE
        | CMD_SEND_UNSEQUENCED
        | CMD_SEND_FRAGMENT
        | CMD_SEND_UNRELIABLE_FRAGMENT => wire::read_u16(s, 2) as usize,
        _ => 0,
    };
    let data = match take_data(buf, data_len) {
        Some(d) => d,
        None => return None,
    };
    assert(rest.skip(data_len as int) =~= whole.skip(fixed + data_len));
    assert(rest.take(data_len as int) =~= whole.subrange(fixed as int, fixed + data_len));
    let body = match ty {
        CMD_ACKNOWLEDGE => CommandBody::Acknowledge(
            AcknowledgeCmd {
                received_reliable_seq: wire::read_u16(s, 0),
                received_sent_time: wire::read_u16(s, 2),
            },
        ),
        CMD_CONNECT => CommandBody::Connect(
            ConnectCmd {
                outgoing_peer_id: wire::read_u16(s, 0),
                incoming_session_id: s[2],
                outgoing_session_id: s[3],
                mtu: wire::read_u32(s, 4),
                window_size: wire::read_u32(s, 8),
                channel_count: wire::read_u32(s, 12),
                incoming_bandwidth: wire::read_u32(s, 16),
                outgoing_bandwidth: wire::read_u32(s, 20),
                throttle_interval: wire::read_u32(s, 24),
                throttle_acceleration: wire::read_u32(s, 28),
                throttle_deceleration: wire::read_u32(s, 32),
                connect_id: wire::read_u32(s, 36),
                data: wire::read_u32(s, 40),
            },
        ),
        CMD_VERIFY_CONNECT => CommandBody::VerifyConnect(
            VerifyConnectCmd {
                outgoing_peer_id: wire::read_u16(s, 0),
                incoming_session_id: s[2],
                outgoing_session_id: s[3],
                mtu: wire::read_u32(s, 4),
                window_size: wire::read_u32(s, 8),
                channel_count: wire::read_u32(s, 12),
                incoming_bandwidth: wire::read_u32(s, 16),
                outgoing_bandwidth: wire::read_u32(s, 20),
                throttle_interval: wire::read_u32(s, 24),
                throttle_acceleration: wire::read_u32(s, 28),
                throttle_deceleration: wire::read_u32(s, 32),
                connect_id: wire::read_u32(s, 36),
            },
        ),
        CMD_DISCONNECT => CommandBody::Disconnect(DisconnectCmd { data: wire::read_u32(s, 0) }),
        CMD_PING => CommandBody::Ping,
        CMD_SEND_RELIABLE => CommandBody::SendReliable(SendReliableCmd { data }),
        CMD_SEND_UNRELIABLE => CommandBody::SendUnreliable(
            SendUnreliableCmd { unreliable_seq: wire::read_u16(s, 0), data },
        ),
        CMD_SEND_UNSEQUENCED => CommandBody::SendUnsequenced(
            SendUnsequencedCmd { unsequenced_group: wire::read_u16(s, 0), data },
        ),
        CMD_BANDWIDTH_LIMIT => CommandBody::BandwidthLimit(
            BandwidthLimitCmd {
                incoming_bandwidth: wire::read_u32(s, 0),
                outgoing_bandwidth: wire::read_u32(s, 4),
            },
        ),
        CMD_THROTTLE_CONFIGURE => CommandBody::ThrottleConfigure(
            ThrottleConfigureCmd {
                throttle_interval: wire::read_u32(s, 0),
                throttle_acceleration: wire::read_u32(s, 4),
                throttle_deceleration: wire::read_u32(s, 8),
            },
        ),
        _ => {
            let frag = SendFragmentCmd {
                start_seq: wire::read_u16(s, 0),
                fragment_count: wire::read_u32(s, 4),
                fragment_number: wire::read_u32(s, 8),
                total_length: wire::read_u32(s, 12),
                fragment_offset: wire::read_u32(s, 16),
                data,
            };
            if ty == CMD_SEND_FRAGMENT {
                CommandBody::SendFragment(frag)
            } else {
                CommandBody::SendUnreliableFragment(frag)
            }
        },
    };
    Some(body)
}

/// Appends a payload behind its 16-bit length field.
fn write_data(out: &mut BytesMut, data: &Bytes)
    requires
        buffer::written(*old(out)).len() + 2 + buffer::content(*data).len() <= isize::MAX,
    ensures
        buffer::written(*final(out)) == buffer::written(*old(out)) + wire::be16(
            data_length(buffer::content(*data)),
        ) + buffer::content(*data),
{
    let n: usize = data.len();
    assert(n as u16 == n % 0x1_0000) by (bit_vector);
    buffer::put_u16(out, n as u16);
    buffer::put_slice(out, buffer::as_slice(data));
}

/// Appends the fields of a fragment.
fn write_fragment(out: &mut BytesMut, c: &SendFragmentCmd)
    requires
        buffer::written(*old(out)).len() + 20 + buffer::content(c.data).len() <= isize::MAX,
    ensures
        buffer::written(*final(out)) == buffer::written(*old(out)) + fragment_bytes(c@),
{
    let n: usize = c.data.len();
    assert(n as u16 == n % 0x1_0000) by (bit_vector);
    let ghost before = buffer::written(*out);
    buffer::put_u16(out, c.start_seq);
    buffer::put_u16(out, n as u16);
    buffer::put_u32(out, c.fragment_count);
    buffer::put_u32(out, c.fragment_number);
    buffer::put_u32(out, c.total_length);
    buffer::put_u32(out, c.fragment_offset);
    buffer::put_slice(out, buffer::as_slice(&c.data));
    proof {
        broadcast use lemma_append_assoc;

        assert(buffer::written(*out) == before + fragment_bytes(c@));
    }
}

/// Appends the fields of a Connect.
fn write_connect(out: &mut BytesMut, c: &ConnectCmd)
    requires
        buffer::written(*old(out)).len() + 44 <= isize::MAX,
    ensures
        buffer::written(*final(out)) == buffer::written(*old(out)) + connect_bytes(*c),
{
    let ghost before = buffer::written(*out);
    buffer::put_u16(out, c.outgoing_peer_id);
    buffer::put_u8(out, c.incoming_session_id);
    buffer::put_u8(out, c.outgoing_session_id);
    buffer::put_u32(out, c.mtu);
    buffer::put_u32(out, c.window_size);
    buffer::put_u32(out, c.channel_count);
    buffer::put_u32(out, c.incoming_bandwidth);
    buffer::put_u32(out, c.outgoing_bandwidth);
    buffer::put_u32(out, c.throttle_interval);
    buffer::put_u32(out, c.throttle_acceleration);
    buffer::put_u32(out, c.throttle_deceleration);
    buffer::put_u32(out, c.connect_id);
    buffer::put_u32(out, c.data);
    proof {
        broadcast use lemma_append_assoc;

        assert(buffer::written(*out) == before + connect_bytes(*c));
    }
}

/// Appends the fields of a VerifyConnect.
fn write_verify_connect(out: &mut BytesMut, c: &VerifyConnectCmd)
    requires
        buffer::written(*old(out)).len() + 40 <= isize::MAX,
    ensures
        buffer::written(*final(out)) == buffer::written(*old(out)) + verify_connect_bytes(*c),
{
    let ghost before = buffer::written(*out);
    buffer::put_u16(out, c.outgoing_peer_id);
    buffer::put_u8(out, c.incoming_session_id);
    buffer::put_u8(out, c.outgoing_session_id);
    buffer::put_u32(out, c.mtu);
    buffer::put_u32(out, c.window_size);
    buffer::put_u32(out, c.channel_count);
    buffer::put_u32(out, c.incoming_bandwidth);
    buffer::put_u32(out, c.outgoing_bandwidth);
    buffer::put_u32(out, c.throttle_interval);
    buffer::put_u32(out, c.throttle_acceleration);
    buffer::put_u32(out, c.throttle_deceleration);
    buffer::put_u32(out, c.connect_id);
    proof {
        broadcast use lemma_append_assoc;

        assert(buffer::written(*out) == before + verify_connect_bytes(*c));
    }
}

impl CommandBody {
    /// Appends the body to `out`.
    pub fn write(&self, out: &mut BytesMut)
        requires
            buffer::written(*old(out)).len() + body_bytes(self@).len() <= isize::MAX,
        ensures
            buffer::written(*final(out)) == buffer::written(*old(out)) + body_bytes(self@),
    {
        let ghost before = buffer::written(*out);
        match self {
            CommandBody::Acknowledge(c) => {
                buffer::put_u16(out, c.received_reliable_seq);
                buffer::put_u16(out, c.received_sent_time);
            },
            CommandBody::Connect(c) => {
                write_connect(out, c);
            },
            CommandBody::VerifyConnect(c) => {
                write_verify_connect(out, c);
            },
            CommandBody::Disconnect(c) => {
                buffer::put_u32(out, c.data);
            },
            CommandBody::Ping => {},
            CommandBody::SendReliable(c) => {
                write_data(out, &c.data);
            },
            CommandBody::SendUnreliable(c) => {
                buffer::put_u16(out, c.unreliable_seq);
                write_data(out, &c.data);
            },
            CommandBody::SendFragment(c) => {
                write_fragment(out, c);
            },
            CommandBody::SendUnreliableFragment(c) => {
                write_fragment(out, c);
            },
            CommandBody::SendUnsequenced(c) => {
                buffer::put_u16(out, c.unsequenced_group);
                write_data(out, &c.data);
            },
            CommandBody::BandwidthLimit(c) => {
                buffer::put_u32(out, c.incoming_bandwidth);
                buffer::put_u32(out, c.outgoing_bandwidth);
            },
            CommandBody::ThrottleConfigure(c) => {
                buffer::put_u32(out, c.throttle_interval);
                buffer::put_u32(out, c.throttle_acceleration);
                buffer::put_u32(out, c.throttle_deceleration);
            },
        }
        assert(buffer::written(*out) =~= before + body_bytes(self@));
    }
}

impl Command {
    /// Total serialized size of this command (header + body).
    pub fn byte_size(&self) -> (r: usize)
        ensures
            r == command_bytes(self@).len(),
    {
        COMMAND_HEADER_SIZE + match &self.body {
            CommandBody::Acknowledge(_) => 4,
            CommandBody::Connect(_) => 44,
            CommandBody::VerifyConnect(_) => 40,
            CommandBody::Disconnect(_) => 4,
            CommandBody::Ping => 0,
            CommandBody::SendReliable(c) => 2 + c.data.len(),
            CommandBody::SendUnreliable(c) => 4 + c.data.len(),
            CommandBody::SendFragment(c) => 20 + c.data.len(),
            CommandBody::SendUnreliableFragment(c) => 20 + c.data.len(),
            CommandBody::SendUnsequenced(c) => 4 + c.data.len(),
            CommandBody::BandwidthLimit(_) => 8,
            CommandBody::ThrottleConfigure(_) => 12,
        }
    }

    /// Reads the command at the front of `buf` and moves `buf` behind what
    /// was read.
    pub fn parse(buf: &mut &[u8]) -> (r: Option<Self>)
        ensures
            match r {
                Some(c) => parse_command(old(buf)@).0 == Some(c@),
                None => parse_command(old(buf)@).0 is None,
            },
            final(buf)@ == old(buf)@.skip(parse_command(old(buf)@).1),
    {
        let ghost whole = buf@;
        let hdr = match CommandHeader::parse(buf) {
            Some(h) => h,
            None => return None,
        };
        let ghost rest = buf@;
        let ghost read = parse_body(header::command_type_bits(hdr.command), rest).1;
        proof {
            assert(0 <= read <= rest.len());
            assert(rest.skip(read) =~= whole.skip(4 + read));
        }
        match read_body(hdr.command_type(), buf) {
            Some(body) => Some(Command { header: hdr, body }),
            None => None,
        }
    }

    /// Appends the command to `out`.
    pub fn write(&self, out: &mut BytesMut)
        requires
            buffer::written(*old(out)).len() + command_bytes(self@).len() <= isize::MAX,
        ensures
            buffer::written(*final(out)) == buffer::written(*old(out)) + command_bytes(self@),
    {
        broadcast use lemma_append_assoc;

        self.header.write(out);
        self.body.write(out);
    }
}

/// Parse all commands from a datagram's command payload region.
pub fn parse_commands(buf: &[u8]) -> (cmds: Vec<Command>)
    ensures
        cmds@.map_values(|c: Command| c@) == parse_all(buf@, MAX_COMMANDS_PER_PACKET as nat),
{
    let mut rest: &[u8] = buf;
    let mut cmds: Vec<Command> = Vec::new();
    assert(cmds@.map_values(|c: Command| c@) + parse_all(rest@, 32) =~= parse_all(rest@, 32));
    while rest.len() > 0
        invariant_except_break
            cmds@.len() <= MAX_COMMANDS_PER_PACKET,
            cmds@.map_values(|c: Command| c@) + parse_all(
                rest@,
                (MAX_COMMANDS_PER_PACKET - cmds@.len()) as nat,
            ) == parse_all(buf@, MAX_COMMANDS_PER_PACKET as nat),
        ensures
            cmds@.map_values(|c: Command| c@) == parse_all(buf@, MAX_COMMANDS_PER_PACKET as nat),
        decreases MAX_COMMANDS_PER_PACKET - cmds@.len(),
    {
        let ghost seen = cmds@.map_values(|c: Command| c@);
        assert(seen + Seq::<CommandView>::empty() =~= seen);
        if cmds.len() >= MAX_COMMANDS_PER_PACKET {
            break;
        }
        let ghost front = rest@;
        match Command::parse(&mut rest) {
            Some(cmd) => {
                cmds.push(cmd);
                proof {
                    let more = parse_all(rest@, (MAX_COMMANDS_PER_PACKET - cmds@.len()) as nat);
                    assert(cmds@.map_values(|c: Command| c@) =~= seen + seq![cmd@]);
                    assert((seen + seq![cmd@]) + more =~= seen + (seq![cmd@] + more));
                }
            },
            None => break,
        }
    }
    assert(rest@.len() == 0 ==> cmds@.map_values(|c: Command| c@) + Seq::<CommandView>::empty()
        =~= cmds@.map_values(|c: Command| c@));
    cmds
}

broadcast proof fn lemma_append_assoc(a: Seq<u8>, b: Seq<u8>, c: Seq<u8>)
    ensures
        #[trigger] ((a + b) + c) == a + (b + c),
{
    assert((a + b) + c =~= a + (b + c));
}

#[verifier::rlimit(30)]
proof fn lemma_connect_fields(c: ConnectCmd, rest: Seq<u8>)
    ensures
        fields_read_back(BodyView::Connect(c), rest),
{
    reveal(fields_read_back);
    let s = connect_bytes(c) + rest;
    assert(s.subrange(0, 2) =~= wire::be16(c.outgoing_peer_id));
    wire::lemma_be16_reads_back(s, 0, c.outgoing_peer_id);
    assert(s.subrange(4, 8) =~= wire::be32(c.mtu));
    wire::lemma_be32_reads_back(s, 4, c.mtu);
    assert(s.subrange(8, 12) =~= wire::be32(c.window_size));
    wire::lemma_be32_reads_back(s, 8, c.window_size);
    assert(s.subrange(12, 16) =~= wire::be32(c.channel_count));
    wire::lemma_be32_reads_back(s, 12, c.channel_count);
    assert(s.subrange(16, 20) =~= wire::be32(c.incoming_bandwidth));
    wire::lemma_be32_reads_back(s, 16, c.incoming_bandwidth);
    assert(s.subrange(20, 24) =~= wire::be32(c.outgoing_bandwidth));
    wire::lemma_be32_reads_back(s, 20, c.outgoing_bandwidth);
    assert(s.subrange(24, 28) =~= wire::be32(c.throttle_interval));
    wire::lemma_be32_reads_back(s, 24, c.throttle_interval);
    assert(s.subrange(28, 32) =~= wire::be32(c.throttle_acceleration));
    wire::lemma_be32_reads_back(s, 28, c.throttle_acceleration);
    assert(s.subrange(32, 36) =~= wire::be32(c.throttle_deceleration));
    wire::lemma_be32_reads_back(s, 32, c.throttle_deceleration);
    assert(s.subrange(36, 40) =~= wire::be32(c.connect_id));
    wire::lemma_be32_reads_back(s, 36, c.connect_id);
    assert(s.subrange(40, 44) =~= wire::be32(c.data));
    wire::lemma_be32_reads_back(s, 40, c.data);
}

proof fn lemma_verify_connect_fields(c: VerifyConnectCmd, rest: Seq<u8>)
    ensures
        fields_read_back(BodyView::VerifyConnect(c), rest),
{
    reveal(fields_read_back);
    let s = verify_connect_bytes(c) + rest;
    assert(s.subrange(0, 2) =~= wire::be16(c.outgoing_peer_id));
    wire::lemma_be16_reads_back(s, 0, c.outgoing_peer_id);
    assert(s.subrange(4, 8) =~= wire::be32(c.mtu));
    wire::lemma_be32_reads_back(s, 4, c.mtu);
    assert(s.subrange(8, 12) =~= wire::be32(c.window_size));
    wire::lemma_be32_reads_back(s, 8, c.window_size);
    assert(s.subrange(12, 16) =~= wire::be32(c.channel_count));
    wire::lemma_be32_reads_back(s, 12, c.channel_count);
    assert(s.subrange(16, 20) =~= wire::be32(c.incoming_bandwidth));
    wire::lemma_be32_reads_back(s, 16, c.incoming_bandwidth);
    assert(s.subrange(20, 24) =~= wire::be32(c.outgoing_bandwidth));
    wire::lemma_be32_reads_back(s, 20, c.outgoing_bandwidth);
    assert(s.subrange(24, 28) =~= wire::be32(c.throttle_interval));
    wire::lemma_be32_reads_back(s, 24, c.throttle_interval);
    assert(s.subrange(28, 32) =~= wire::be32(c.throttle_acceleration));
    wire::lemma_be32_reads_back(s, 28, c.throttle_acceleration);
    assert(s.subrange(32, 36) =~= wire::be32(c.throttle_deceleration));
    wire::lemma_be32_reads_back(s, 32, c.throttle_deceleration);
    assert(s.subrange(36, 40) =~= wire::be32(c.connect_id));
    wire::lemma_be32_reads_back(s, 36, c.connect_id);
}

proof fn lemma_fragment_fields(f: FragmentView, rest: Seq<u8>)
    requires
        f.data.len() <= 0xFFFF,
    ensures
        fields_read_back(BodyView::SendFragment(f), rest),
        fields_read_back(BodyView::SendUnreliableFragment(f), rest),
{
    reveal(fields_read_back);
    let s = fragment_bytes(f) + rest;
    assert(s.subrange(0, 2) =~= wire::be16(f.start_seq));
    wire::lemma_be16_reads_back(s, 0, f.start_seq);
    assert(s.subrange(2, 4) =~= wire::be16(data_length(f.data)));
    wire::lemma_be16_reads_back(s, 2, data_length(f.data));
    assert(s.subrange(4, 8) =~= wire::be32(f.fragment_count));
    wire::lemma_be32_reads_back(s, 4, f.fragment_count);
    assert(s.subrange(8, 12) =~= wire::be32(f.fragment_number));
    wire::lemma_be32_reads_back(s, 8, f.fragment_number);
    assert(s.subrange(12, 16) =~= wire::be32(f.total_length));
    wire::lemma_be32_reads_back(s, 12, f.total_length);
    assert(s.subrange(16, 20) =~= wire::be32(f.fragment_offset));
    wire::lemma_be32_reads_back(s, 16, f.fragment_offset);
}

/// A command whose header names the kind of its body and whose payload's
/// length fits its length field.
pub open spec fn well_typed(c: CommandView) -> bool {
    &&& header::command_type_bits(c.header.command) == body_type(c.body)
    &&& body_data(c.body).len() <= 0xFFFF
}

proof fn lemma_body_length(b: BodyView)
    ensures
        body_bytes(b).len() == fixed_size(body_type(b)) + body_data(b).len(),
{
}

proof fn lemma_body_payload(b: BodyView, rest: Seq<u8>)
    ensures
        ({
            let fixed = fixed_size(body_type(b));
            (body_bytes(b) + rest).subrange(fixed, fixed + body_data(b).len()) == body_data(b)
        }),
{
    let fixed = fixed_size(body_type(b));
    assert((body_bytes(b) + rest).subrange(fixed, fixed + body_data(b).len()) =~= body_data(b));
}

proof fn lemma_acknowledge_fields(c: AcknowledgeCmd, rest: Seq<u8>)
    ensures
        fields_read_back(BodyView::Acknowledge(c), rest),
{
    reveal(fields_read_back);
    let s = body_bytes(BodyView::Acknowledge(c)) + rest;
    assert(s.subrange(0, 2) =~= wire::be16(c.received_reliable_seq));
    wire::lemma_be16_reads_back(s, 0, c.received_reliable_seq);
    assert(s.subrange(2, 4) =~= wire::be16(c.received_sent_time));
    wire::lemma_be16_reads_back(s, 2, c.received_sent_time);
}

proof fn lemma_disconnect_fields(c: DisconnectCmd, rest: Seq<u8>)
    ensures
        fields_read_back(BodyView::Disconnect(c), rest),
{
    reveal(fields_read_back);
    let s = body_bytes(BodyView::Disconnect(c)) + rest;
    assert(s.subrange(0, 4) =~= wire::be32(c.data));
    wire::lemma_be32_reads_back(s, 0, c.data);
}

proof fn lemma_bandwidth_fields(c: BandwidthLimitCmd, rest: Seq<u8>)
    ensures
        fields_read_back(BodyView::BandwidthLimit(c), rest),
{
    reveal(fields_read_back);
    let s = body_bytes(BodyView::BandwidthLimit(c)) + rest;
    assert(s.subrange(0, 4) =~= wire::be32(c.incoming_bandwidth));
    wire::lemma_be32_reads_back(s, 0, c.incoming_bandwidth);
    assert(s.subrange(4, 8) =~= wire::be32(c.outgoing_bandwidth));
    wire::lemma_be32_reads_back(s, 4, c.outgoing_bandwidth);
}

proof fn lemma_throttle_fields(c: ThrottleConfigureCmd, rest: Seq<u8>)
    ensures
        fields_read_back(BodyView::ThrottleConfigure(c), rest),
{
    reveal(fields_read_back);
    let s = body_bytes(BodyView::ThrottleConfigure(c)) + rest;
    assert(s.subrange(0, 4) =~= wire::be32(c.throttle_interval));
    wire::lemma_be32_reads_back(s, 0, c.throttle_interval);
    assert(s.subrange(4, 8) =~= wire::be32(c.throttle_acceleration));
    wire::lemma_be32_reads_back(s, 4, c.throttle_acceleration);
    assert(s.subrange(8, 12) =~= wire::be32(c.throttle_deceleration));
    wire::lemma_be32_reads_back(s, 8, c.throttle_deceleration);
}

proof fn lemma_reliable_fields(d: Seq<u8>, rest: Seq<u8>)
    requires
        d.len() <= 0xFFFF,
    ensures
        fields_read_back(BodyView::SendReliable(d), rest),
{
    reveal(fields_read_back);
    let s = body_bytes(BodyView::SendReliable(d)) + rest;
    assert(s.subrange(0, 2) =~= wire::be16(data_length(d)));
    wire::lemma_be16_reads_back(s, 0, data_length(d));
}

proof fn lemma_numbered_fields(n: u16, d: Seq<u8>, rest: Seq<u8>)
    requires
        d.len() <= 0xFFFF,
    ensures
        fields_read_back(BodyView::SendUnreliable(n, d), rest),
        fields_read_back(BodyView::SendUnsequenced(n, d), rest),
{
    reveal(fields_read_back);
    let s = wire::be16(n) + wire::be16(data_length(d)) + d + rest;
    assert(s.subrange(0, 2) =~= wire::be16(n));
    wire::lemma_be16_reads_back(s, 0, n);
    assert(s.subrange(2, 4) =~= wire::be16(data_length(d)));
    wire::lemma_be16_reads_back(s, 2, data_length(d));
}

/// The fixed fields of a written body are read as they were.
#[verifier::opaque]
spec fn fields_read_back(b: BodyView, rest: Seq<u8>) -> bool {
    let s = body_bytes(b) + rest;
    &&& announced_length(body_type(b), s) == body_data(b).len()
    &&& body_fields(body_type(b), s, body_data(b)) == b
}

proof fn lemma_body_fields(b: BodyView, rest: Seq<u8>)
    requires
        body_data(b).len() <= 0xFFFF,
    ensures
        fields_read_back(b, rest),
{
    match b {
        BodyView::Acknowledge(c) => lemma_acknowledge_fields(c, rest),
        BodyView::Connect(c) => lemma_connect_fields(c, rest),
        BodyView::VerifyConnect(c) => lemma_verify_connect_fields(c, rest),
        BodyView::Disconnect(c) => lemma_disconnect_fields(c, rest),
        BodyView::Ping => reveal(fields_read_back),
        BodyView::SendReliable(d) => lemma_reliable_fields(d, rest),
        BodyView::SendUnreliable(n, d) => lemma_numbered_fields(n, d, rest),
        BodyView::SendFragment(f) => lemma_fragment_fields(f, rest),
        BodyView::SendUnsequenced(n, d) => lemma_numbered_fields(n, d, rest),
        BodyView::BandwidthLimit(c) => lemma_bandwidth_fields(c, rest),
        BodyView::ThrottleConfigure(c) => lemma_throttle_fields(c, rest),
        BodyView::SendUnreliableFragment(f) => lemma_fragment_fields(f, rest),
    }
}

proof fn lemma_body_round_trip(b: BodyView, rest: Seq<u8>)
    requires
        body_data(b).len() <= 0xFFFF,
    ensures
        parse_body(body_type(b), body_bytes(b) + rest) == (
            Some(b),
            body_bytes(b).len() as int,
        ),
{
    lemma_body_length(b);
    lemma_body_payload(b, rest);
    lemma_body_fields(b, rest);
    reveal(fields_read_back);
}

/// Law: what `write` writes, `parse` reads back, and leaves what follows.
pub proof fn lemma_command_round_trip(c: CommandView, rest: Seq<u8>)
    requires
        well_typed(c),
    ensures
        parse_command(command_bytes(c) + rest) == (Some(c), command_bytes(c).len() as int),
        (command_bytes(c) + rest).skip(command_bytes(c).len() as int) == rest,
{
    let s = command_bytes(c) + rest;
    assert(s =~= header::command_header_bytes(c.header) + (body_bytes(c.body) + rest));
    header::lemma_command_header_round_trip(c.header, body_bytes(c.body) + rest);
    lemma_body_round_trip(c.body, rest);
    assert(s.skip(command_bytes(c).len() as int) =~= rest);
}

/// Law: commands written one behind the other are read back as they are, up
/// to the limit on commands per datagram.
pub proof fn lemma_commands_round_trip(cmds: Seq<CommandView>, limit: nat)
    requires
        cmds.len() <= limit,
        forall|i: int| 0 <= i < cmds.len() ==> well_typed(#[trigger] cmds[i]),
    ensures
        parse_all(all_bytes(cmds), limit) == cmds,
    decreases cmds.len(),
{
    if cmds.len() > 0 {
        let rest = all_bytes(cmds.drop_first());
        lemma_command_round_trip(cmds[0], rest);
        lemma_commands_round_trip(cmds.drop_first(), (limit - 1) as nat);
        assert(cmds =~= seq![cmds[0]] + cmds.drop_first());
    }
}

/// The bytes of the fields that were read are the bytes read.
#[verifier::opaque]
spec fn bytes_read_back(ty: u8, s: Seq<u8>) -> bool {
    let fixed = fixed_size(ty);
    let n = announced_length(ty, s);
    let d = s.subrange(fixed, fixed + n);
    let b = body_fields(ty, s, d);
    &&& body_bytes(b) == s.subrange(0, fixed + n)
    &&& body_type(b) == ty
    &&& body_data(b).len() == n
}

proof fn lemma_connect_read(s: Seq<u8>)
    requires
        s.len() >= 44,
    ensures
        bytes_read_back(CMD_CONNECT, s),
{
    reveal(bytes_read_back);
    wire::lemma_u16_at_writes_back(s, 0);
    wire::lemma_u32_at_writes_back(s, 4);
    wire::lemma_u32_at_writes_back(s, 8);
    wire::lemma_u32_at_writes_back(s, 12);
    wire::lemma_u32_at_writes_back(s, 16);
    wire::lemma_u32_at_writes_back(s, 20);
    wire::lemma_u32_at_writes_back(s, 24);
    wire::lemma_u32_at_writes_back(s, 28);
    wire::lemma_u32_at_writes_back(s, 32);
    wire::lemma_u32_at_writes_back(s, 36);
    wire::lemma_u32_at_writes_back(s, 40);
    let b = body_fields(CMD_CONNECT, s, s.subrange(44, 44));
    assert(body_bytes(b) =~= s.subrange(0, 44));
}

proof fn lemma_verify_connect_read(s: Seq<u8>)
    requires
        s.len() >= 40,
    ensures
        bytes_read_back(CMD_VERIFY_CONNECT, s),
{
    reveal(bytes_read_back);
    wire::lemma_u16_at_writes_back(s, 0);
    wire::lemma_u32_at_writes_back(s, 4);
    wire::lemma_u32_at_writes_back(s, 8);
    wire::lemma_u32_at_writes_back(s, 12);
    wire::lemma_u32_at_writes_back(s, 16);
    wire::lemma_u32_at_writes_back(s, 20);
    wire::lemma_u32_at_writes_back(s, 24);
    wire::lemma_u32_at_writes_back(s, 28);
    wire::lemma_u32_at_writes_back(s, 32);
    wire::lemma_u32_at_writes_back(s, 36);
    let b = body_fields(CMD_VERIFY_CONNECT, s, s.subrange(40, 40));
    assert(body_bytes(b) =~= s.subrange(0, 40));
}

proof fn lemma_subrange_join(s: Seq<u8>, i: int, j: int)
    requires
        0 <= i <= j <= s.len(),
    ensures
        s.subrange(0, i) + s.subrange(i, j) == s.subrange(0, j),
{
    assert(s.subrange(0, i) + s.subrange(i, j) =~= s.subrange(0, j));
}

proof fn lemma_fragment_read(ty: u8, s: Seq<u8>)
    requires
        ty == CMD_SEND_FRAGMENT || ty == CMD_SEND_UNRELIABLE_FRAGMENT,
        s.len() >= 20 + announced_length(ty, s),
    ensures
        bytes_read_back(ty, s),
{
    let n = announced_length(ty, s);
    let d = s.subrange(20, 20 + n);
    assert(fragment_bytes(fragment_fields(s, d)) == s.subrange(0, 20 + n)) by {
        wire::lemma_u16_at_writes_back(s, 0);
        wire::lemma_u16_at_writes_back(s, 2);
        wire::lemma_u32_at_writes_back(s, 4);
        wire::lemma_u32_at_writes_back(s, 8);
        wire::lemma_u32_at_writes_back(s, 12);
        wire::lemma_u32_at_writes_back(s, 16);
        lemma_subrange_join(s, 2, 4);
        lemma_subrange_join(s, 4, 8);
        lemma_subrange_join(s, 8, 12);
        lemma_subrange_join(s, 12, 16);
        lemma_subrange_join(s, 16, 20);
        lemma_subrange_join(s, 20, 20 + n);
        assert(data_length(d) == wire::u16_at(s, 2));
    }
    reveal(bytes_read_back);
}

proof fn lemma_payload_read(ty: u8, s: Seq<u8>)
    requires
        ty == CMD_SEND_RELIABLE || ty == CMD_SEND_UNRELIABLE || ty == CMD_SEND_UNSEQUENCED,
        s.len() >= fixed_size(ty),
        s.len() >= fixed_size(ty) + announced_length(ty, s),
    ensures
        bytes_read_back(ty, s),
{
    reveal(bytes_read_back);
    let n = announced_length(ty, s);
    let fixed = fixed_size(ty);
    wire::lemma_u16_at_writes_back(s, 0);
    if fixed == 4 {
        wire::lemma_u16_at_writes_back(s, 2);
    }
    let b = body_fields(ty, s, s.subrange(fixed, fixed + n));
    assert(body_bytes(b) =~= s.subrange(0, fixed + n));
}

proof fn lemma_numbers_read(ty: u8, s: Seq<u8>)
    requires
        ty == CMD_ACKNOWLEDGE || ty == CMD_DISCONNECT || ty == CMD_PING || ty == CMD_BANDWIDTH_LIMIT
            || ty == CMD_THROTTLE_CONFIGURE,
        s.len() >= fixed_size(ty),
    ensures
        bytes_read_back(ty, s),
{
    reveal(bytes_read_back);
    let fixed = fixed_size(ty);
    if ty == CMD_ACKNOWLEDGE {
        wire::lemma_u16_at_writes_back(s, 0);
        wire::lemma_u16_at_writes_back(s, 2);
    } else if ty != CMD_PING {
        wire::lemma_u32_at_writes_back(s, 0);
        if ty != CMD_DISCONNECT {
            wire::lemma_u32_at_writes_back(s, 4);
        }
        if ty == CMD_THROTTLE_CONFIGURE {
            wire::lemma_u32_at_writes_back(s, 8);
        }
    }
    let b = body_fields(ty, s, s.subrange(fixed, fixed));
    assert(body_bytes(b) =~= s.subrange(0, fixed));
}

/// Law: a command that `parse` reads is `write`n as the very bytes it was
/// read from.
pub proof fn lemma_parsed_command_bytes(s: Seq<u8>)
    requires
        parse_command(s).0 is Some,
    ensures
        0 < parse_command(s).1 <= s.len(),
        well_typed(parse_command(s).0->0),
        command_bytes(parse_command(s).0->0) == s.take(parse_command(s).1),
{
    let c = parse_command(s).0->0;
    let rest = s.skip(4);
    let ty = header::command_type_bits(c.header.command);
    if ty == CMD_CONNECT {
        lemma_connect_read(rest);
    } else if ty == CMD_VERIFY_CONNECT {
        lemma_verify_connect_read(rest);
    } else if ty == CMD_SEND_FRAGMENT || ty == CMD_SEND_UNRELIABLE_FRAGMENT {
        lemma_fragment_read(ty, rest);
    } else if ty == CMD_SEND_RELIABLE || ty == CMD_SEND_UNRELIABLE || ty == CMD_SEND_UNSEQUENCED {
        lemma_payload_read(ty, rest);
    } else {
        lemma_numbers_read(ty, rest);
    }
    reveal(bytes_read_back);
    wire::lemma_u16_at_writes_back(s, 2);
    let n = parse_command(s).1;
    assert(s.take(n) =~= s.take(4) + rest.take(n - 4));
    assert(s.take(4) =~= header::command_header_bytes(c.header));
    assert(rest.take(n - 4) =~= rest.subrange(0, n - 4));
}

/// Law: no more commands are read than the limit allows.
pub proof fn lemma_parse_all_limit(s: Seq<u8>, limit: nat)
    ensures
        parse_all(s, limit).len() <= limit,
    decreases limit,
{
    if limit > 0 {
        lemma_parse_all_limit(s.skip(parse_command(s).1), (limit - 1) as nat);
    }
}

} // verus!
