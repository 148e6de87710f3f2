//! Headers, commands, checksums and sequence numbers on concrete bytes.

use bytes::{Bytes, BytesMut};
use enet_rs::channel::encode_command;
use enet_rs::protocol::command::{parse_commands, Command, CommandBody};
use enet_rs::protocol::crc::crc32;
use enet_rs::protocol::header::{CommandHeader, ProtocolHeader};
use enet_rs::protocol::sequence::seq_lt;
use enet_rs::protocol::wire::{read_u16, read_u32, to_be16, to_be32};
use enet_rs::protocol::{
    AcknowledgeCmd, BandwidthLimitCmd, ConnectCmd, DisconnectCmd, SendFragmentCmd, SendReliableCmd,
    SendUnreliableCmd, SendUnsequencedCmd, ThrottleConfigureCmd, VerifyConnectCmd, CMD_NONE,
    CMD_PING, CMD_SEND_RELIABLE, COMMAND_FLAG_ACKNOWLEDGE, MAX_COMMANDS_PER_PACKET,
};

fn written(cmd: &Command) -> Bytes {
    let mut out = BytesMut::new();
    cmd.write(&mut out);
    out.freeze()
}

fn header(command: u8, channel_id: u8, reliable_seq: u16) -> CommandHeader {
    CommandHeader { command, channel_id, reliable_seq }
}

/// Writes a command, checks the bytes, and reads it back.
fn round_trip(cmd: Command, expected: &[u8]) -> Command {
    let bytes = written(&cmd);
    assert_eq!(bytes.as_ref(), expected);
    assert_eq!(cmd.byte_size(), expected.len());
    let mut rest: &[u8] = &bytes;
    let back = Command::parse(&mut rest).expect("not read back");
    assert!(rest.is_empty());
    assert_eq!(back.header.command, cmd.header.command);
    assert_eq!(back.header.channel_id, cmd.header.channel_id);
    assert_eq!(back.header.reliable_seq, cmd.header.reliable_seq);
    assert_eq!(written(&back).as_ref(), expected);
    back
}

#[test]
fn integers_are_big_endian() {
    assert_eq!(to_be16(0x1234), [0x12, 0x34]);
    assert_eq!(to_be32(0x1234_5678), [0x12, 0x34, 0x56, 0x78]);
    let s = [9u8, 0x12, 0x34, 0x56, 0x78, 0x9A];
    assert_eq!(read_u16(&s, 1), 0x1234);
    assert_eq!(read_u16(&s, 4), 0x789A);
    assert_eq!(read_u32(&s, 1), 0x1234_5678);
    for n in [0u32, 1, 0xFF, 0x100, 0xFFFF, 0x1_0000, 0xDEAD_BEEF, u32::MAX] {
        assert_eq!(read_u32(&to_be32(n), 0), n);
        assert_eq!(read_u16(&to_be16(n as u16), 0), n as u16);
    }
}

#[test]
fn crc32_has_its_standard_check_value() {
    assert_eq!(crc32(b"123456789"), 0xCBF4_3926);
    assert_eq!(crc32(b""), 0);
    assert_eq!(crc32(b"a"), 0xE8B7_BE43);
    assert_eq!(crc32(&[0u8; 4]), 0x2144_DF1C);
}

#[test]
fn sequence_order_wraps() {
    assert!(seq_lt(0, 1));
    assert!(!seq_lt(1, 0));
    assert!(!seq_lt(5, 5));
    assert!(seq_lt(0xFFFF, 0));
    assert!(seq_lt(0xFFF0, 0x000F));
    assert!(!seq_lt(0x000F, 0xFFF0));
    // Half of the number space lies ahead.
    assert!(seq_lt(0, 0x7FFF));
    assert!(!seq_lt(0, 0x8000) || !seq_lt(0x8000, 0));
}

#[test]
fn protocol_header_packs_its_fields() {
    let h = ProtocolHeader::new(0x123, 2, 0x8000, Some(0xBEEF));
    assert_eq!(h.peer_id_raw, 0xA123);
    assert_eq!(h.peer_id(), 0x123);
    assert_eq!(h.session_id(), 2);
    assert!(h.has_sent_time());
    assert!(!h.is_compressed());
    assert_eq!(h.byte_size(), 4);
    let mut out = BytesMut::new();
    h.write(&mut out);
    assert_eq!(out.as_ref(), [0xA1, 0x23, 0xBE, 0xEF]);

    let mut rest: &[u8] = &[0xA1, 0x23, 0xBE, 0xEF, 7];
    let back = ProtocolHeader::parse(&mut rest).unwrap();
    assert_eq!(back.peer_id_raw, 0xA123);
    assert_eq!(back.sent_time, Some(0xBEEF));
    assert_eq!(rest, [7]);
}

#[test]
fn protocol_header_without_sent_time_is_two_bytes() {
    let h = ProtocolHeader::new(0xFFFF, 0xFF, 0x4000, None);
    assert_eq!(h.peer_id(), 0x0FFF);
    assert_eq!(h.session_id(), 3);
    assert!(h.is_compressed());
    assert!(!h.has_sent_time());
    assert_eq!(h.byte_size(), 2);
    let mut out = BytesMut::new();
    h.write(&mut out);
    assert_eq!(out.as_ref(), [0x7F, 0xFF]);
}

#[test]
fn short_protocol_headers_are_refused() {
    let mut empty: &[u8] = &[];
    assert!(ProtocolHeader::parse(&mut empty).is_none());
    let mut one: &[u8] = &[0x80];
    assert!(ProtocolHeader::parse(&mut one).is_none());
    // The flag announces a send time that is not there.
    let mut three: &[u8] = &[0x80, 0x01, 0x02];
    assert!(ProtocolHeader::parse(&mut three).is_none());
    let mut two: &[u8] = &[0x00, 0x01];
    assert_eq!(ProtocolHeader::parse(&mut two).unwrap().sent_time, None);
}

#[test]
fn command_header_round_trip() {
    let h = header(0xC6, 0xFF, 0x0102);
    assert_eq!(h.command_type(), 6);
    assert!(h.has_ack_flag());
    assert!(h.has_unsequenced_flag());
    let mut out = BytesMut::new();
    h.write(&mut out);
    assert_eq!(out.as_ref(), [0xC6, 0xFF, 1, 2]);
    let mut rest: &[u8] = &out;
    let back = CommandHeader::parse(&mut rest).unwrap();
    assert_eq!((back.command, back.channel_id, back.reliable_seq), (0xC6, 0xFF, 0x0102));
    assert!(rest.is_empty());
    let mut short: &[u8] = &[1, 2, 3];
    assert!(CommandHeader::parse(&mut short).is_none());
}

#[test]
fn acknowledge_round_trip() {
    let body = CommandBody::Acknowledge(AcknowledgeCmd {
        received_reliable_seq: 0x0102,
        received_sent_time: 0x0304,
    });
    let back = round_trip(Command { header: header(1, 3, 0), body }, &[1, 3, 0, 0, 1, 2, 3, 4]);
    match back.body {
        CommandBody::Acknowledge(a) => {
            assert_eq!((a.received_reliable_seq, a.received_sent_time), (0x0102, 0x0304));
        }
        _ => panic!("not an acknowledgement"),
    }
}

#[test]
fn connect_round_trip() {
    let body = CommandBody::Connect(ConnectCmd {
        outgoing_peer_id: 0x0102,
        incoming_session_id: 0xFF,
        outgoing_session_id: 0xFE,
        mtu: 1392,
        window_size: 65536,
        channel_count: 2,
        incoming_bandwidth: 1,
        outgoing_bandwidth: 2,
        throttle_interval: 5000,
        throttle_acceleration: 3,
        throttle_deceleration: 4,
        connect_id: 0xDEAD_BEEF,
        data: 0x0A0B_0C0D,
    });
    let expected = [
        0x82, 0xFF, 0, 1, 1, 2, 0xFF, 0xFE, 0, 0, 5, 0x70, 0, 1, 0, 0, 0, 0, 0, 2, 0, 0, 0, 1, 0, 0,
        0, 2, 0, 0, 0x13, 0x88, 0, 0, 0, 3, 0, 0, 0, 4, 0xDE, 0xAD, 0xBE, 0xEF, 0x0A, 0x0B, 0x0C,
        0x0D,
    ];
    let back = round_trip(Command { header: header(0x82, 0xFF, 1), body }, &expected);
    match back.body {
        CommandBody::Connect(c) => {
            assert_eq!((c.mtu, c.window_size, c.channel_count), (1392, 65536, 2));
            assert_eq!((c.connect_id, c.data), (0xDEAD_BEEF, 0x0A0B_0C0D));
        }
        _ => panic!("not a connect"),
    }
}

#[test]
fn verify_connect_round_trip() {
    let body = CommandBody::VerifyConnect(VerifyConnectCmd {
        outgoing_peer_id: 7,
        incoming_session_id: 2,
        outgoing_session_id: 1,
        mtu: 1392,
        window_size: 4096,
        channel_count: 1,
        incoming_bandwidth: 0,
        outgoing_bandwidth: 0,
        throttle_interval: 5000,
        throttle_acceleration: 2,
        throttle_deceleration: 2,
        connect_id: 0x0102_0304,
    });
    let expected = [
        0x83, 0xFF, 0, 1, 0, 7, 2, 1, 0, 0, 5, 0x70, 0, 0, 0x10, 0, 0, 0, 0, 1, 0, 0, 0, 0, 0, 0, 0,
        0, 0, 0, 0x13, 0x88, 0, 0, 0, 2, 0, 0, 0, 2, 1, 2, 3, 4,
    ];
    round_trip(Command { header: header(0x83, 0xFF, 1), body }, &expected);
}

#[test]
fn disconnect_and_ping_round_trip() {
    let body = CommandBody::Disconnect(DisconnectCmd { data: 0x0102_0304 });
    round_trip(Command { header: header(0x84, 0xFF, 2), body }, &[0x84, 0xFF, 0, 2, 1, 2, 3, 4]);
    round_trip(
        Command { header: header(0x85, 0xFF, 3), body: CommandBody::Ping },
        &[0x85, 0xFF, 0, 3],
    );
}

#[test]
fn data_commands_round_trip() {
    let data = Bytes::from_static(b"abc");
    round_trip(
        Command {
            header: header(0x86, 0, 9),
            body: CommandBody::SendReliable(SendReliableCmd { data: data.clone() }),
        },
        &[0x86, 0, 0, 9, 0, 3, b'a', b'b', b'c'],
    );
    round_trip(
        Command {
            header: header(7, 1, 9),
            body: CommandBody::SendUnreliable(SendUnreliableCmd {
                unreliable_seq: 0x0506,
                data: data.clone(),
            }),
        },
        &[7, 1, 0, 9, 5, 6, 0, 3, b'a', b'b', b'c'],
    );
    round_trip(
        Command {
            header: header(0x49, 1, 0),
            body: CommandBody::SendUnsequenced(SendUnsequencedCmd {
                unsequenced_group: 0x0708,
                data: data.clone(),
            }),
        },
        &[0x49, 1, 0, 0, 7, 8, 0, 3, b'a', b'b', b'c'],
    );
}

#[test]
fn fragment_commands_round_trip() {
    let fragment = SendFragmentCmd {
        start_seq: 0x0102,
        fragment_count: 3,
        fragment_number: 1,
        total_length: 0x0001_0000,
        fragment_offset: 0x0203,
        data: Bytes::from_static(b"xy"),
    };
    let tail = [
        1, 2, 0, 2, 0, 0, 0, 3, 0, 0, 0, 1, 0, 1, 0, 0, 0, 0, 2, 3, b'x', b'y',
    ];
    let mut reliable = vec![0x88, 0, 0, 5];
    reliable.extend_from_slice(&tail);
    round_trip(
        Command {
            header: header(0x88, 0, 5),
            body: CommandBody::SendFragment(fragment.clone()),
        },
        &reliable,
    );
    let mut unreliable = vec![12, 0, 0, 5];
    unreliable.extend_from_slice(&tail);
    round_trip(
        Command {
            header: header(12, 0, 5),
            body: CommandBody::SendUnreliableFragment(fragment),
        },
        &unreliable,
    );
}

#[test]
fn settings_commands_round_trip() {
    round_trip(
        Command {
            header: header(0x8A, 0xFF, 4),
            body: CommandBody::BandwidthLimit(BandwidthLimitCmd {
                incoming_bandwidth: 0x0102_0304,
                outgoing_bandwidth: 5,
            }),
        },
        &[0x8A, 0xFF, 0, 4, 1, 2, 3, 4, 0, 0, 0, 5],
    );
    round_trip(
        Command {
            header: header(0x8B, 0xFF, 5),
            body: CommandBody::ThrottleConfigure(ThrottleConfigureCmd {
                throttle_interval: 6,
                throttle_acceleration: 7,
                throttle_deceleration: 8,
            }),
        },
        &[0x8B, 0xFF, 0, 5, 0, 0, 0, 6, 0, 0, 0, 7, 0, 0, 0, 8],
    );
}

#[test]
fn unreadable_commands_are_refused() {
    // A type that does not exist, no type at all, a truncated body, and a
    // payload shorter than announced.
    for bytes in [
        &[CMD_NONE, 0, 0, 0][..],
        &[13, 0, 0, 0][..],
        &[15, 0, 0, 0, 1, 2, 3, 4][..],
        &[1, 0, 0, 0, 1, 2, 3][..],
        &[0x86, 0, 0, 1, 0, 4, 1, 2, 3][..],
        &[0x82, 0xFF, 0][..],
    ] {
        let mut rest = bytes;
        assert!(Command::parse(&mut rest).is_none());
    }
}

#[test]
fn commands_of_a_datagram_are_read_in_order() {
    let mut buf: Vec<u8> = Vec::new();
    for seq in 1u8..=3 {
        buf.extend_from_slice(&[0x85, 0xFF, 0, seq]);
    }
    // What follows the first unreadable command is left out.
    buf.extend_from_slice(&[0, 0, 0, 0]);
    buf.extend_from_slice(&[0x85, 0xFF, 0, 9]);
    let cmds = parse_commands(&buf);
    let seqs: Vec<u16> = cmds.iter().map(|c| c.header.reliable_seq).collect();
    assert_eq!(seqs, vec![1, 2, 3]);
    assert!(parse_commands(&[]).is_empty());
}

#[test]
fn at_most_32_commands_are_read() {
    let mut buf: Vec<u8> = Vec::new();
    for seq in 0u8..40 {
        buf.extend_from_slice(&[CMD_PING, 0xFF, 0, seq]);
    }
    let cmds = parse_commands(&buf);
    assert_eq!(cmds.len(), MAX_COMMANDS_PER_PACKET);
    assert_eq!(cmds[31].header.reliable_seq, 31);
}

#[test]
fn commands_are_encoded_with_their_header() {
    let body = CommandBody::SendReliable(SendReliableCmd { data: Bytes::from_static(b"hi") });
    let bytes = encode_command(CMD_SEND_RELIABLE, COMMAND_FLAG_ACKNOWLEDGE, 2, 0x0304, &body);
    assert_eq!(bytes.as_ref(), [0x86, 2, 3, 4, 0, 2, b'h', b'i']);
    let ack = enet_rs::task::connect::ack(0xFF, 0x0102, 0x0304);
    assert_eq!(ack.as_ref(), [1, 0xFF, 0, 0, 1, 2, 3, 4]);
}
