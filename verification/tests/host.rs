//! Hosts: the handshake, delivery, retransmission and the end of connections.

use bytes::Bytes;
use enet_rs::channel::encode_command;
use enet_rs::error::{connected, received, ConnectOutcome};
use enet_rs::peer::receive::{clamped_window, window_for};
use enet_rs::peer::rtt::AckOutcome;
use enet_rs::peer::{MAX_FRAGMENT_BUFFERS_PER_CHANNEL, MAX_FRAGMENT_BYTES_PER_PEER};
use enet_rs::protocol::command::{parse_commands, Command, CommandBody};
use enet_rs::protocol::crc::crc32;
use enet_rs::protocol::{
    AcknowledgeCmd, BandwidthLimitCmd, ConnectCmd, SendFragmentCmd, SendReliableCmd,
    CMD_BANDWIDTH_LIMIT, CMD_DISCONNECT, CMD_PING, CMD_SEND_FRAGMENT, CMD_SEND_RELIABLE,
};
use enet_rs::{
    Action, Address, CloseReason, Error, Event, HostTask, Packet, PeerEntry, PeerKey, PeerState,
    SendMode, ToTask,
};

const CONNECT_ID: u32 = 0xDEAD_BEEF;

fn addr(port: u16) -> Address {
    Address { v6: false, ip: 0x0A00_0001, port, flow: 0, scope: 0 }
}

fn client_addr() -> Address {
    addr(4000)
}

fn server_addr() -> Address {
    addr(7777)
}

fn datagrams(out: &[Action]) -> Vec<Bytes> {
    out.iter()
        .filter_map(|a| match a {
            Action::SendTo { datagram, .. } => Some(datagram.clone()),
            _ => None,
        })
        .collect()
}

/// The commands of a datagram without a checksum.
fn commands(datagram: &Bytes) -> Vec<Command> {
    parse_commands(&datagram[4..])
}

fn payloads(out: &[Action]) -> Vec<Bytes> {
    out.iter()
        .filter_map(|a| match a {
            Action::Deliver { packet, .. } => Some(packet.data.clone()),
            _ => None,
        })
        .collect()
}

fn closed(out: &[Action]) -> Vec<CloseReason> {
    out.iter()
        .filter_map(|a| match a {
            Action::Closed { reason, .. } => Some(*reason),
            _ => None,
        })
        .collect()
}

fn peer(h: &HostTask, key: PeerKey) -> &PeerEntry {
    h.peers[key.0].as_ref().expect("no such peer")
}

/// Hands the datagrams of `out` to a host and returns what it does.
fn hand(h: &mut HostTask, out: &[Action], from: Address, now: u32) -> Vec<Action> {
    let mut more = Vec::new();
    for d in datagrams(out) {
        h.on_datagram(&d, from, now, &mut more);
    }
    more
}

/// A client and a server in mid-connection, with the keys of each other.
struct Pair {
    client: HostTask,
    server: HostTask,
    at_client: PeerKey,
    at_server: PeerKey,
}

fn pair_of(mut client: HostTask, mut server: HostTask) -> Pair {
    let mut out = Vec::new();
    let at_client = client
        .connect_with(server_addr(), 2, 0, CONNECT_ID, 100, &mut out)
        .expect("no slot");
    let verify = hand(&mut server, &out, client_addr(), 110);
    let acks = hand(&mut client, &verify, server_addr(), 120);
    assert!(matches!(acks[0], Action::ConnectReply { .. }));
    let accepted = hand(&mut server, &acks, client_addr(), 130);
    let at_server = match accepted[..] {
        [Action::Accept { key }] => key,
        _ => panic!("not accepted"),
    };
    Pair { client, server, at_client, at_server }
}

fn pair() -> Pair {
    pair_of(HostTask::new(1, false, 0, 0), HostTask::new(4, false, 0, 0))
}

#[test]
fn connect_datagram_has_its_exact_bytes() {
    let mut h = HostTask::new(1, false, 0, 0);
    let mut out = Vec::new();
    let key = h.connect_with(server_addr(), 2, 0x0102_0304, CONNECT_ID, 0x0001_2345, &mut out);
    assert_eq!(key, Some(PeerKey(0)));
    let sent = datagrams(&out);
    assert_eq!(sent.len(), 1);
    let expected = [
        0xBF, 0xFF, 0x23, 0x45, // header: unassigned peer, session 3, send time
        0x82, 0xFF, 0x00, 0x01, // CONNECT, number 1
        0x00, 0x00, 0xFF, 0xFF, // slot, fresh session IDs
        0x00, 0x00, 0x05, 0x70, // MTU
        0x00, 0x01, 0x00, 0x00, // window size
        0x00, 0x00, 0x00, 0x02, // channels
        0x00, 0x00, 0x00, 0x00, // incoming bandwidth
        0x00, 0x00, 0x00, 0x00, // outgoing bandwidth
        0x00, 0x00, 0x13, 0x88, // throttle interval
        0x00, 0x00, 0x00, 0x02, // throttle acceleration
        0x00, 0x00, 0x00, 0x02, // throttle deceleration
        0xDE, 0xAD, 0xBE, 0xEF, // connect ID
        0x01, 0x02, 0x03, 0x04, // data
    ];
    assert_eq!(sent[0].as_ref(), expected);
    assert_eq!(peer(&h, PeerKey(0)).state, PeerState::Connecting);
}

#[test]
fn connect_ids_are_drawn_at_random() {
    let mut ids = Vec::new();
    for _ in 0..4 {
        let mut h = HostTask::new(1, false, 0, 0);
        let (key, _) = h.begin_connect(server_addr(), 1, 0, 0).expect("no slot");
        ids.push(peer(&h, key).connect_id);
    }
    assert!(ids.iter().any(|id| *id != ids[0]));
}

#[test]
fn a_full_host_starts_no_connection() {
    let mut h = HostTask::new(1, false, 0, 0);
    assert_eq!(h.alloc_slot(), Some(0));
    assert!(h.begin_connect_with(server_addr(), 1, 0, 1, 0).is_some());
    assert_eq!(h.alloc_slot(), None);
    assert!(h.begin_connect_with(addr(1), 1, 0, 1, 0).is_none());
    let mut out = Vec::new();
    assert!(h.connect(addr(1), 1, 0, 0, &mut out).is_none());
    assert!(out.is_empty());
}

#[test]
fn handshake_connects_both_sides() {
    let p = pair();
    let c = peer(&p.client, p.at_client);
    let s = peer(&p.server, p.at_server);
    assert_eq!((c.state, s.state), (PeerState::Connected, PeerState::Connected));
    assert_eq!((c.mtu, s.mtu), (1392, 1392));
    assert_eq!((c.window_size, s.window_size), (65536, 65536));
    assert_eq!((c.channels.len(), s.channels.len()), (2, 2));
    assert_eq!(c.incoming_session_id, s.outgoing_session_id);
    assert_eq!(c.outgoing_session_id, s.incoming_session_id);
    assert_eq!((s.incoming_session_id, s.outgoing_session_id), (1, 2));
    assert_eq!(c.connect_id, s.connect_id);
    assert!(c.outgoing_reliable.is_empty());
    assert!(s.outgoing_reliable.is_empty());
}

#[test]
fn verify_connect_with_another_connect_id_is_ignored() {
    let mut client = HostTask::new(1, false, 0, 0);
    let mut server = HostTask::new(1, false, 0, 0);
    let mut out = Vec::new();
    let key = client.connect_with(server_addr(), 1, 0, 7, 0, &mut out).unwrap();
    let verify = hand(&mut server, &out, client_addr(), 1);
    client.peers[key.0].as_mut().unwrap().connect_id = 8;
    let acks = hand(&mut client, &verify, server_addr(), 2);
    assert!(acks.iter().all(|a| !matches!(a, Action::ConnectReply { .. })));
    assert_eq!(peer(&client, key).state, PeerState::Connecting);
}

#[test]
fn a_repeated_verify_connect_is_acknowledged_again() {
    let mut client = HostTask::new(1, false, 0, 0);
    let mut server = HostTask::new(1, false, 0, 0);
    let mut out = Vec::new();
    client.connect_with(server_addr(), 1, 0, 7, 0, &mut out).unwrap();
    let verify = hand(&mut server, &out, client_addr(), 1);
    assert_eq!(hand(&mut client, &verify, server_addr(), 2).len(), 2);
    // The acknowledgement was lost.
    let again = hand(&mut client, &verify, server_addr(), 3);
    assert_eq!(again.len(), 1);
    assert_eq!(datagrams(&again)[0][4..], [1, 0xFF, 0, 0, 0, 1, 0, 1]);
    let accepted = hand(&mut server, &again, client_addr(), 4);
    assert!(matches!(accepted[..], [Action::Accept { .. }]));
}

#[test]
fn a_repeated_connect_is_ignored() {
    let mut client = HostTask::new(1, false, 0, 0);
    let mut server = HostTask::new(4, false, 0, 0);
    let mut out = Vec::new();
    client.connect_with(server_addr(), 1, 0, 7, 0, &mut out).unwrap();
    assert_eq!(hand(&mut server, &out, client_addr(), 1).len(), 1);
    assert!(hand(&mut server, &out, client_addr(), 2).is_empty());
    assert_eq!(server.alloc_slot(), Some(1));
}

fn connect_cmd() -> ConnectCmd {
    ConnectCmd {
        outgoing_peer_id: 3,
        incoming_session_id: 0xFF,
        outgoing_session_id: 0xFF,
        mtu: 1392,
        window_size: 65536,
        channel_count: 2,
        incoming_bandwidth: 0,
        outgoing_bandwidth: 0,
        throttle_interval: 5000,
        throttle_acceleration: 2,
        throttle_deceleration: 2,
        connect_id: 9,
        data: 0,
    }
}

/// The peer that a server makes of a CONNECT command.
fn negotiated(incoming: u32, outgoing: u32, connect: ConnectCmd) -> PeerEntry {
    let mut h = HostTask::new(1, false, incoming, outgoing);
    let mut out = Vec::new();
    h.on_connect(connect, 1, None, client_addr(), 5, &mut out);
    h.peers[0].take().expect("not accepted")
}

#[test]
fn mtu_is_negotiated() {
    assert_eq!(negotiated(0, 0, ConnectCmd { mtu: 100, ..connect_cmd() }).mtu, 576);
    assert_eq!(negotiated(0, 0, ConnectCmd { mtu: 1000, ..connect_cmd() }).mtu, 1000);
    assert_eq!(negotiated(0, 0, ConnectCmd { mtu: 9000, ..connect_cmd() }).mtu, 1392);
}

#[test]
fn window_is_negotiated() {
    let base = connect_cmd();
    assert_eq!(negotiated(0, 0, base).window_size, 65536);
    assert_eq!(negotiated(0, 0, ConnectCmd { window_size: 1, ..base }).window_size, 4096);
    assert_eq!(negotiated(0, 0, ConnectCmd { window_size: 9000, ..base }).window_size, 9000);
    // Four blocks of 65536 bytes per second give four blocks of 4096.
    assert_eq!(negotiated(4 * 65536, 0, base).window_size, 16384);
    assert_eq!(negotiated(0, 4 * 65536, base).window_size, 16384);
    let slow = ConnectCmd { incoming_bandwidth: 2 * 65536, ..base };
    assert_eq!(negotiated(0, 0, slow).window_size, 8192);
    assert_eq!(negotiated(0, 4 * 65536, slow).window_size, 8192);
    assert_eq!(negotiated(1, 0, base).window_size, 4096);
    assert_eq!((window_for(0), window_for(1), window_for(65536 * 3)), (65536, 4096, 12288));
    assert_eq!((clamped_window(0), clamped_window(5000), clamped_window(u32::MAX)), (4096, 5000, 65536));
}

#[test]
fn channels_and_sessions_are_negotiated() {
    let base = connect_cmd();
    assert_eq!(negotiated(0, 0, ConnectCmd { channel_count: 0, ..base }).channels.len(), 1);
    assert_eq!(negotiated(0, 0, ConnectCmd { channel_count: 255, ..base }).channels.len(), 255);
    // Only the low byte of the count is used.
    assert_eq!(negotiated(0, 0, ConnectCmd { channel_count: 0x103, ..base }).channels.len(), 3);
    let p = negotiated(
        0,
        0,
        ConnectCmd { incoming_session_id: 3, outgoing_session_id: 1, ..base },
    );
    assert_eq!((p.incoming_session_id, p.outgoing_session_id), (0, 2));
    assert_eq!(p.outgoing_peer_id, 3);
    assert_eq!(p.state, PeerState::AcknowledgingConnect);
}

#[test]
fn a_connect_without_sent_time_is_not_acknowledged() {
    let mut h = HostTask::new(1, false, 0, 0);
    let mut out = Vec::new();
    h.on_connect(connect_cmd(), 1, None, client_addr(), 5, &mut out);
    let sent = datagrams(&out);
    assert_eq!(sent.len(), 1);
    let cmds = commands(&sent[0]);
    assert_eq!(cmds.len(), 1);
    assert!(matches!(cmds[0].body, CommandBody::VerifyConnect(_)));
}

#[test]
fn verify_connect_answers_with_the_acknowledgement_first() {
    let mut h = HostTask::new(1, false, 0, 0);
    let mut out = Vec::new();
    h.on_connect(connect_cmd(), 1, Some(0x1234), client_addr(), 5, &mut out);
    let sent = datagrams(&out);
    assert_eq!(sent.len(), 1);
    // Peer 3 of the client, the session that the server picked, its time.
    assert_eq!(sent[0][..4], [0xA0, 0x03, 0, 5]);
    let cmds = commands(&sent[0]);
    assert_eq!(cmds.len(), 2);
    match &cmds[0].body {
        CommandBody::Acknowledge(a) => {
            assert_eq!((a.received_reliable_seq, a.received_sent_time), (1, 0x1234));
        }
        _ => panic!("no acknowledgement"),
    }
    match &cmds[1].body {
        CommandBody::VerifyConnect(v) => {
            assert_eq!((v.outgoing_peer_id, v.connect_id, v.mtu), (0, 9, 1392));
            assert_eq!((v.incoming_session_id, v.outgoing_session_id), (2, 1));
        }
        _ => panic!("no answer"),
    }
}

#[test]
fn a_full_server_refuses_a_connection() {
    let mut server = HostTask::new(0, false, 0, 0);
    let mut client = HostTask::new(1, false, 0, 0);
    let mut out = Vec::new();
    let key = client.connect_with(server_addr(), 1, 0, 7, 0, &mut out).unwrap();
    let refusal = hand(&mut server, &out, client_addr(), 0x0203);
    let sent = datagrams(&refusal);
    assert_eq!(sent.len(), 1);
    assert_eq!(sent[0].as_ref(), [0x80, 0, 2, 3, 4, 0xFF, 0, 0, 0, 0, 0, 0]);
    // The client sees that the connection is over.
    let after = hand(&mut client, &refusal, server_addr(), 3);
    assert_eq!(closed(&after), vec![CloseReason::Remote(0)]);
    assert!(!client.is_live(key));
}

#[test]
fn a_packet_is_sent_acknowledged_and_forgotten() {
    let mut p = pair();
    let mut out = Vec::new();
    p.client.send_packet(p.at_client, Packet::reliable(b"abc".as_ref(), 1), 1000, &mut out);
    let sent = datagrams(&out);
    assert_eq!(sent.len(), 1);
    // Slot 0 of the server in session 1; SEND_RELIABLE on channel 1, number 1.
    assert_eq!(
        sent[0].as_ref(),
        [0x90, 0, 3, 0xE8, 0x86, 1, 0, 1, 0, 3, b'a', b'b', b'c']
    );
    assert_eq!(peer(&p.client, p.at_client).outgoing_reliable.len(), 1);
    let back = hand(&mut p.server, &out, client_addr(), 1010);
    assert_eq!(payloads(&back), vec![Bytes::from_static(b"abc")]);
    assert!(hand(&mut p.client, &back, server_addr(), 1020).is_empty());
    assert!(peer(&p.client, p.at_client).outgoing_reliable.is_empty());
    // The same datagram once more is acknowledged, and delivers nothing.
    let again = hand(&mut p.server, &out, client_addr(), 1030);
    assert!(payloads(&again).is_empty());
    assert_eq!(datagrams(&again).len(), 1);
}

#[test]
fn a_datagram_without_sent_time_is_not_acknowledged() {
    let mut p = pair();
    let body = CommandBody::SendReliable(SendReliableCmd { data: Bytes::from_static(b"x") });
    let cmd = encode_command(CMD_SEND_RELIABLE, 0x80, 0, 1, &body);
    let mut raw = vec![0x10, 0];
    raw.extend_from_slice(&cmd);
    let mut out = Vec::new();
    p.server.on_datagram(&raw, client_addr(), 500, &mut out);
    assert_eq!(payloads(&out), vec![Bytes::from_static(b"x")]);
    assert!(datagrams(&out).is_empty());
}

#[test]
fn datagrams_of_another_session_are_dropped() {
    let mut p = pair();
    let ping = [0x85u8, 0xFF, 0, 1];
    for (session, answered) in [(0u8, false), (1, true), (2, false), (3, false)] {
        let mut raw = vec![0x80 | (session << 4), 0, 0, 9];
        raw.extend_from_slice(&ping);
        let mut out = Vec::new();
        p.server.on_datagram(&raw, client_addr(), 500, &mut out);
        assert_eq!(!out.is_empty(), answered, "session {session}");
    }
}

#[test]
fn compressed_and_short_datagrams_are_dropped() {
    let mut p = pair();
    let mut out = Vec::new();
    p.server.on_datagram(&[0xD0, 0, 0, 9, 0x85, 0xFF, 0, 1], client_addr(), 500, &mut out);
    p.server.on_datagram(&[0x90], client_addr(), 500, &mut out);
    p.server.on_datagram(&[], client_addr(), 500, &mut out);
    // A slot that does not exist.
    p.server.on_datagram(&[0x90, 99, 0, 9, 0x85, 0xFF, 0, 1], client_addr(), 500, &mut out);
    assert!(out.is_empty());
}

/// Whether the checksum of a datagram is over a connect ID.
fn summed_with(raw: &[u8], id: u32) -> bool {
    let mut with_id = raw.to_vec();
    with_id[4..8].copy_from_slice(&id.to_be_bytes());
    raw[4..8] == crc32(&with_id).to_be_bytes()
}

#[test]
fn the_handshake_is_done_with_checksums() {
    let mut client = HostTask::new(1, true, 0, 0);
    let mut server = HostTask::new(1, true, 0, 0);
    let mut out = Vec::new();
    let key = client.connect_with(server_addr(), 2, 0, CONNECT_ID, 100, &mut out).unwrap();
    // No peer is assigned yet, so that the checksum is over zero.
    assert!(summed_with(&datagrams(&out)[0], 0));
    let verify = hand(&mut server, &out, client_addr(), 110);
    assert!(summed_with(&datagrams(&verify)[0], CONNECT_ID));
    let acks = hand(&mut client, &verify, server_addr(), 120);
    assert!(matches!(acks[0], Action::ConnectReply { .. }));
    assert!(summed_with(&datagrams(&acks)[0], CONNECT_ID));
    let accepted = hand(&mut server, &acks, client_addr(), 130);
    assert!(matches!(accepted[..], [Action::Accept { .. }]));
    assert_eq!(peer(&client, key).state, PeerState::Connected);
    assert_eq!(peer(&server, PeerKey(0)).state, PeerState::Connected);
    // A server without checksums does not understand such a client.
    let mut other = HostTask::new(1, false, 0, 0);
    assert!(hand(&mut other, &out, client_addr(), 110).is_empty());
}

#[test]
fn a_refusal_carries_a_checksum() {
    let mut server = HostTask::new(0, true, 0, 0);
    let mut client = HostTask::new(1, true, 0, 0);
    let mut out = Vec::new();
    let key = client.connect_with(server_addr(), 1, 0, 7, 0, &mut out).unwrap();
    let refusal = hand(&mut server, &out, client_addr(), 0x0203);
    let sent = datagrams(&refusal);
    assert_eq!(sent.len(), 1);
    assert_eq!(sent[0][..4], [0x80, 0, 2, 3]);
    assert_eq!(sent[0][8..], [4, 0xFF, 0, 0, 0, 0, 0, 0]);
    assert!(summed_with(&sent[0], 7));
    let after = hand(&mut client, &refusal, server_addr(), 3);
    assert_eq!(closed(&after), vec![CloseReason::Remote(0)]);
    assert!(!client.is_live(key));
}

#[test]
fn checksums_are_computed_and_verified() {
    let Pair { mut client, mut server, at_client: key, .. } =
        pair_of(HostTask::new(1, true, 0, 0), HostTask::new(1, true, 0, 0));
    let mut sent = Vec::new();
    client.send_packet(key, Packet::reliable(b"sum".as_ref(), 0), 8, &mut sent);
    let raw = datagrams(&sent)[0].clone();
    let mut with_id = raw.to_vec();
    with_id[4..8].copy_from_slice(&CONNECT_ID.to_be_bytes());
    assert_eq!(raw[4..8], crc32(&with_id).to_be_bytes());

    let mut bad = raw.to_vec();
    let end = bad.len() - 1;
    bad[end] ^= 1;
    let mut got = Vec::new();
    server.on_datagram(&bad, client_addr(), 9, &mut got);
    server.on_datagram(&raw[..6], client_addr(), 9, &mut got);
    assert!(got.is_empty());
    server.on_datagram(&raw, client_addr(), 9, &mut got);
    assert_eq!(payloads(&got), vec![Bytes::from_static(b"sum")]);
}

#[test]
fn messages_of_each_mode_keep_their_mode() {
    let mut p = pair();
    let mut out = Vec::new();
    p.client.send_packet(p.at_client, Packet::unreliable(b"u".as_ref(), 1), 10, &mut out);
    p.client.send_packet(p.at_client, Packet::unsequenced(b"s".as_ref()), 10, &mut out);
    let sent = datagrams(&out);
    assert_eq!(sent[0][4..], [7, 1, 0, 0, 0, 1, 0, 1, b'u']);
    assert_eq!(sent[1][4..], [0x49, 0, 0, 0, 0, 1, 0, 1, b's']);
    let got = hand(&mut p.server, &out, client_addr(), 11);
    let modes: Vec<SendMode> = got
        .iter()
        .filter_map(|a| match a {
            Action::Deliver { packet, .. } => Some(packet.mode),
            _ => None,
        })
        .collect();
    assert_eq!(modes, vec![SendMode::Unreliable, SendMode::Unsequenced]);
    // Neither is acknowledged, and neither is delivered twice.
    assert!(datagrams(&got).is_empty());
    assert!(hand(&mut p.server, &out, client_addr(), 12).is_empty());
}

#[test]
fn an_unreliable_message_from_before_a_reliable_one_is_dropped() {
    let mut p = pair();
    let mut early = Vec::new();
    p.client.send_packet(p.at_client, Packet::unreliable(b"old".as_ref(), 0), 10, &mut early);
    let mut reliable = Vec::new();
    p.client.send_packet(p.at_client, Packet::reliable(b"new".as_ref(), 0), 11, &mut reliable);
    assert_eq!(payloads(&hand(&mut p.server, &reliable, client_addr(), 12)).len(), 1);
    assert!(payloads(&hand(&mut p.server, &early, client_addr(), 13)).is_empty());
}

#[test]
fn unreliable_fragments_are_put_together() {
    let mut p = pair();
    let big: Vec<u8> = (0..3000u32).map(|i| (i % 253) as u8).collect();
    let mut out = Vec::new();
    p.client.send_packet(p.at_client, Packet::unreliable(big.clone(), 0), 10, &mut out);
    // 1392 - 28 bytes go into a fragment.
    assert_eq!(datagrams(&out).len(), 3);
    assert!(peer(&p.client, p.at_client).outgoing_reliable.is_empty());
    let mut reversed: Vec<Action> = out;
    reversed.reverse();
    let got = hand(&mut p.server, &reversed, client_addr(), 11);
    assert_eq!(payloads(&got), vec![Bytes::from(big)]);
}

#[test]
fn a_message_of_exactly_one_datagram_is_not_fragmented() {
    let mut p = pair();
    let mut out = Vec::new();
    let fits = vec![1u8; 1392 - 10];
    p.client.send_packet(p.at_client, Packet::reliable(fits, 0), 10, &mut out);
    let sent = datagrams(&out);
    assert_eq!(sent.len(), 1);
    assert_eq!(sent[0].len(), 1392);
    assert_eq!(sent[0][4], 0x80 | CMD_SEND_RELIABLE);
    let mut more = Vec::new();
    let over = vec![1u8; 1392 - 9];
    p.client.send_packet(p.at_client, Packet::reliable(over, 0), 10, &mut more);
    let sent = datagrams(&more);
    assert_eq!(sent.len(), 2);
    assert_eq!(sent[0][4], 0x80 | CMD_SEND_FRAGMENT);
    assert_eq!(sent[0].len(), 1392);
}

fn fragment(start_seq: u16, n: u32, count: u32, total: u32) -> SendFragmentCmd {
    SendFragmentCmd {
        start_seq,
        fragment_count: count,
        fragment_number: n,
        total_length: total,
        fragment_offset: 0,
        data: Bytes::from_static(b"f"),
    }
}

/// Hands a fragment to the server's peer.
fn store(p: &mut Pair, f: SendFragmentCmd) -> Vec<Action> {
    let mut out = Vec::new();
    let key = p.at_server;
    let entry = p.server.peers[key.0].as_mut().unwrap();
    entry.on_fragment(false, key, 0, f, true, 50, &mut out);
    out
}

#[test]
fn reassemblies_are_bounded() {
    let mut p = pair();
    for i in 0..MAX_FRAGMENT_BUFFERS_PER_CHANNEL as u16 {
        store(&mut p, fragment(100 + i, 0, 2, 10));
    }
    store(&mut p, fragment(99, 0, 2, 10));
    let entry = peer(&p.server, p.at_server);
    assert_eq!(entry.channels[0].fragment_buffers.len(), MAX_FRAGMENT_BUFFERS_PER_CHANNEL);
    assert_eq!(entry.fragment_bytes_in_flight, 640);

    let mut q = pair();
    store(&mut q, fragment(1, 0, 2, MAX_FRAGMENT_BYTES_PER_PEER as u32));
    store(&mut q, fragment(9, 0, 2, 1));
    let entry = peer(&q.server, q.at_server);
    assert_eq!(entry.channels[0].fragment_buffers.len(), 1);
    assert_eq!(entry.fragment_bytes_in_flight, MAX_FRAGMENT_BYTES_PER_PEER);
}

#[test]
fn malformed_fragments_start_no_reassembly() {
    let mut p = pair();
    store(&mut p, fragment(1, 0, 0, 10));
    store(&mut p, fragment(1, 0, 1_048_577, 10));
    store(&mut p, fragment(1, 0, 2, 32 * 1024 * 1024 + 1));
    store(&mut p, fragment(1, 0, 2, 0));
    let entry = peer(&p.server, p.at_server);
    assert!(entry.channels[0].fragment_buffers.is_empty());
    assert_eq!(entry.fragment_bytes_in_flight, 0);
    let done = store(&mut p, fragment(1, 0, 1, 1));
    assert_eq!(payloads(&done), vec![Bytes::from_static(b"f")]);
    assert_eq!(peer(&p.server, p.at_server).fragment_bytes_in_flight, 0);
}

#[test]
fn a_lost_command_is_sent_again_with_a_doubled_timeout() {
    let mut p = pair();
    let mut out = Vec::new();
    p.client.send_packet(p.at_client, Packet::reliable(b"again".as_ref(), 0), 1000, &mut out);
    let timeout = peer(&p.client, p.at_client).outgoing_reliable[0].rtt_timeout;
    let mut early = Vec::new();
    p.client.service_one(p.at_client, 1000 + timeout - 1, &mut early);
    assert!(early.is_empty());
    let mut late = Vec::new();
    p.client.service_one(p.at_client, 1000 + timeout, &mut late);
    let again = datagrams(&late);
    assert_eq!(again.len(), 1);
    assert_eq!(again[0][4..], datagrams(&out)[0][4..]);
    let r = &peer(&p.client, p.at_client).outgoing_reliable[0];
    assert_eq!((r.send_attempts, r.rtt_timeout), (2, 2 * timeout));
    assert_eq!((r.sent_time, r.original_sent_time), (1000 + timeout, 1000));
    let got = hand(&mut p.server, &late, client_addr(), 1001 + timeout);
    assert_eq!(payloads(&got), vec![Bytes::from_static(b"again")]);
}

#[test]
fn a_silent_peer_times_out() {
    let mut p = pair();
    let mut out = Vec::new();
    p.client.send_packet(p.at_client, Packet::reliable(b"?".as_ref(), 0), 1000, &mut out);
    let mut now: u32 = 1000;
    let mut ended = Vec::new();
    while ended.is_empty() {
        now += 20;
        assert!(now < 40_000);
        assert!(p.client.can_service(now));
        let mut more = Vec::new();
        p.client.service_all(now, &mut more);
        ended = closed(&more);
    }
    assert_eq!(ended, vec![CloseReason::TimedOut]);
    assert!(now - 1000 >= 5_000);
    assert!(!p.client.is_live(p.at_client));
}

#[test]
fn an_idle_connection_is_kept_alive() {
    let mut p = pair();
    let last = peer(&p.client, p.at_client).last_send_time;
    let mut out = Vec::new();
    p.client.service_one(p.at_client, last + 499, &mut out);
    assert!(out.is_empty());
    p.client.service_one(p.at_client, last + 500, &mut out);
    let sent = datagrams(&out);
    assert_eq!(sent.len(), 1);
    assert_eq!(sent[0][4..], [0x80 | CMD_PING, 0xFF, 0, 2]);
    // The server acknowledges it and notes that the client lives.
    let back = hand(&mut p.server, &out, client_addr(), last + 510);
    assert_eq!(datagrams(&back).len(), 1);
    assert_eq!(peer(&p.server, p.at_server).last_receive_time, last + 510);
}

#[test]
fn an_idle_channel_waits_for_no_acknowledgement_to_ping() {
    let mut p = pair();
    let mut out = Vec::new();
    p.client.send_packet(p.at_client, Packet::reliable(b"x".as_ref(), 0), 1000, &mut out);
    p.client.peers[0].as_mut().unwrap().outgoing_reliable[0].rtt_timeout = 10_000;
    let mut more = Vec::new();
    p.client.service_one(p.at_client, 1500, &mut more);
    let sent = datagrams(&more);
    assert_eq!(sent.len(), 1);
    assert_eq!(sent[0][4], 0x80 | CMD_PING);
}

#[test]
fn a_graceful_disconnect_ends_both_sides() {
    let mut p = pair();
    let mut out = Vec::new();
    p.client.send_disconnect(p.at_client, 0x0102_0304, 1000, &mut out);
    assert_eq!(peer(&p.client, p.at_client).state, PeerState::Disconnecting);
    let sent = datagrams(&out);
    assert_eq!(sent[0][4..], [0x80 | CMD_DISCONNECT, 0xFF, 0, 2, 1, 2, 3, 4]);
    // Asking again changes nothing.
    let mut again = Vec::new();
    p.client.send_disconnect(p.at_client, 9, 1001, &mut again);
    assert!(again.is_empty());
    let back = hand(&mut p.server, &out, client_addr(), 1010);
    assert_eq!(closed(&back), vec![CloseReason::Remote(0x0102_0304)]);
    assert!(!p.server.is_live(p.at_server));
    assert_eq!(p.server.alloc_slot(), Some(0));
    let done = hand(&mut p.client, &back, server_addr(), 1020);
    assert_eq!(closed(&done), vec![CloseReason::Local]);
    assert!(!p.client.is_live(p.at_client));
}

#[test]
fn a_disconnect_waits_for_what_is_in_flight() {
    let mut p = pair();
    let mut data = Vec::new();
    p.client.send_packet(p.at_client, Packet::reliable(b"last".as_ref(), 0), 1000, &mut data);
    let mut out = Vec::new();
    p.client.send_disconnect(p.at_client, 5, 1001, &mut out);
    assert!(out.is_empty());
    assert_eq!(peer(&p.client, p.at_client).state, PeerState::DisconnectLater(5));
    // Nothing more is sent for the user.
    p.client.send_packet(p.at_client, Packet::reliable(b"late".as_ref(), 0), 1002, &mut out);
    assert!(out.is_empty());
    let acks = hand(&mut p.server, &data, client_addr(), 1010);
    hand(&mut p.client, &acks, server_addr(), 1020);
    p.client.service_one(p.at_client, 1030, &mut out);
    assert_eq!(peer(&p.client, p.at_client).state, PeerState::Disconnecting);
    let back = hand(&mut p.server, &out, client_addr(), 1040);
    assert_eq!(closed(&back), vec![CloseReason::Remote(5)]);
}

#[test]
fn a_forced_disconnect_is_not_acknowledged() {
    let mut p = pair();
    let mut out = Vec::new();
    let raw = [0x90u8, 0, 0, 9, CMD_DISCONNECT, 0xFF, 0, 0, 0, 0, 0, 7];
    p.server.on_datagram(&raw, client_addr(), 50, &mut out);
    assert!(datagrams(&out).is_empty());
    assert_eq!(closed(&out), vec![CloseReason::Remote(7)]);
}

#[test]
fn packets_wait_while_the_window_is_full() {
    let mut p = pair();
    {
        let c = p.client.peers[p.at_client.0].as_mut().unwrap();
        c.window_size = 4096;
        c.packet_throttle = 0;
    }
    let mut out = Vec::new();
    // With nothing in flight one packet always goes out.
    p.client.send_packet(p.at_client, Packet::reliable(b"1".as_ref(), 0), 10, &mut out);
    p.client.send_packet(p.at_client, Packet::reliable(b"2".as_ref(), 0), 10, &mut out);
    p.client.send_packet(p.at_client, Packet::reliable(b"3".as_ref(), 0), 10, &mut out);
    assert_eq!(datagrams(&out).len(), 1);
    assert_eq!(peer(&p.client, p.at_client).pending_send.len(), 2);
    let mut got = Vec::new();
    let mut now = 20;
    while !datagrams(&out).is_empty() {
        let back = hand(&mut p.server, &out, client_addr(), now);
        got.extend(payloads(&back));
        hand(&mut p.client, &back, server_addr(), now + 1);
        out.clear();
        p.client.service_one(p.at_client, now + 2, &mut out);
        now += 10;
    }
    assert_eq!(
        got,
        vec![Bytes::from_static(b"1"), Bytes::from_static(b"2"), Bytes::from_static(b"3")]
    );
}

#[test]
fn what_cannot_be_sent_is_told() {
    let p = pair();
    assert!(p.client.can_send(p.at_client, &Packet::reliable(b"x".as_ref(), 0)));
    // An unreliable packet needs its channel.
    assert!(!p.client.can_send(p.at_client, &Packet::unreliable(b"x".as_ref(), 9)));
    // A reliable one on an unknown channel is dropped.
    assert!(p.client.can_send(p.at_client, &Packet::reliable(b"x".as_ref(), 9)));
    let event = Event::Request(ToTask::Send {
        peer_key: p.at_client,
        packet: Packet::unreliable(b"x".as_ref(), 9),
    });
    assert!(!p.client.can_step(&event, 0));
    assert!(p.client.can_step(&Event::Tick, 0));
}

#[test]
fn a_reliable_packet_on_an_unknown_channel_is_dropped() {
    let mut p = pair();
    let mut out = Vec::new();
    p.client.send_packet(p.at_client, Packet::reliable(b"x".as_ref(), 9), 10, &mut out);
    p.client.send_packet(PeerKey(5), Packet::reliable(b"x".as_ref(), 0), 10, &mut out);
    assert!(out.is_empty());
    assert!(peer(&p.client, p.at_client).pending_send.is_empty());
}

#[test]
fn round_trip_times_follow_their_samples() {
    let mut p = pair();
    let c = p.client.peers[p.at_client.0].as_mut().unwrap();
    c.rtt_initialized = false;
    c.update_rtt(101);
    assert_eq!((c.rtt, c.rtt_var), (101, 51));
    c.update_rtt(181);
    // 51 - 12 + 80/4, 101 + 80/8
    assert_eq!((c.rtt, c.rtt_var), (111, 59));
    c.update_rtt(31);
    // 59 - 14 + 80/4, 111 - 80/8
    assert_eq!((c.rtt, c.rtt_var), (101, 65));
    assert_eq!(c.initial_rtt_timeout(), 101 + 4 * 65);
    c.rtt = 1;
    c.rtt_var = 1;
    assert_eq!(c.initial_rtt_timeout(), 5);
}

#[test]
fn acknowledgements_are_sampled_over_the_clock_wrap() {
    let mut p = pair();
    let c = p.client.peers[p.at_client.0].as_mut().unwrap();
    c.rtt_initialized = false;
    let ack = AcknowledgeCmd { received_reliable_seq: 7, received_sent_time: 0xFFF0 };
    assert!(matches!(c.on_ack(0, ack, 0x0001_0010), AckOutcome::Nothing));
    assert_eq!(c.rtt, 0x20);
    // A send time after the current time is no sample, and the command is
    // thrown away.
    let before = c.last_receive_time;
    let ack = AcknowledgeCmd { received_reliable_seq: 7, received_sent_time: 0x7000 };
    c.on_ack(0, ack, 0x0001_0020);
    assert_eq!((c.rtt, c.last_receive_time), (0x20, before));
}

#[test]
fn throttle_follows_the_round_trip_time() {
    let mut p = pair();
    let c = p.client.peers[p.at_client.0].as_mut().unwrap();
    c.packet_throttle = 16;
    c.packet_throttle_epoch = 0;
    c.rtt_initialized = true;
    c.rtt = 100;
    c.rtt_var = 0;
    c.rtt_at_throttle_epoch = 200;
    let ack = AcknowledgeCmd { received_reliable_seq: 7, received_sent_time: 1000 };
    c.on_ack(0, ack, 1100);
    assert_eq!((c.packet_throttle, c.packet_throttle_epoch), (18, 1100));
    assert_eq!(c.rtt_at_throttle_epoch, 100);
    // Within the interval nothing changes.
    c.rtt_at_throttle_epoch = 1000;
    c.on_ack(0, ack, 1101);
    assert_eq!(c.packet_throttle, 18);
    // A link that got much worse slows down.
    c.rtt_at_throttle_epoch = 1;
    c.rtt = 5000;
    c.rtt_var = 0;
    c.on_ack(0, AcknowledgeCmd { received_reliable_seq: 7, received_sent_time: 1100 }, 6100);
    assert_eq!(c.packet_throttle, 16);
}

#[test]
fn a_bandwidth_limit_narrows_the_window() {
    let mut p = pair();
    let key = p.at_client;
    let c = p.client.peers[key.0].as_mut().unwrap();
    c.on_bandwidth_limit(
        false,
        BandwidthLimitCmd { incoming_bandwidth: 3 * 65536, outgoing_bandwidth: 0 },
    );
    assert_eq!(c.window_size, 12288);
    c.on_bandwidth_limit(
        false,
        BandwidthLimitCmd { incoming_bandwidth: 0, outgoing_bandwidth: 0 },
    );
    assert_eq!(c.window_size, 12288);
    c.on_bandwidth_limit(
        false,
        BandwidthLimitCmd { incoming_bandwidth: 0, outgoing_bandwidth: 9 },
    );
    assert_eq!(c.window_size, 65536);
}

#[test]
fn bandwidth_is_shared_between_peers() {
    let mut server = HostTask::new(4, false, 1000, 40_000);
    let mut clients = Vec::new();
    for i in 0..2u16 {
        let mut client = HostTask::new(1, false, 0, 0);
        let mut out = Vec::new();
        client.connect_with(server_addr(), 1, 0, 5, 10, &mut out).unwrap();
        let verify = hand(&mut server, &out, addr(100 + i), 11);
        let acks = hand(&mut client, &verify, server_addr(), 12);
        hand(&mut server, &acks, addr(100 + i), 13);
        clients.push(client);
    }
    let mut out = Vec::new();
    server.bandwidth_throttle(999, &mut out);
    assert!(out.is_empty());
    server.bandwidth_throttle(1000, &mut out);
    assert_eq!(server.bandwidth_throttle_epoch, 1000);
    assert_eq!(peer(&server, PeerKey(0)).window_size, 20_000);
    assert_eq!(peer(&server, PeerKey(1)).window_size, 20_000);
    let sent = datagrams(&out);
    assert_eq!(sent.len(), 2);
    let limit = [0x80 | CMD_BANDWIDTH_LIMIT, 0xFF, 0, 2, 0, 0, 3, 0xE8, 0, 0, 0x4E, 0x20];
    assert_eq!(sent[0][4..], limit);
    // The limit is acknowledged, like every command that asks for it.
    let mut back = Vec::new();
    clients[0].on_datagram(&sent[0], server_addr(), 1010, &mut back);
    assert_eq!(datagrams(&back).len(), 1);
    assert_eq!(peer(&clients[0], PeerKey(0)).window_size, 4096);
}

#[test]
fn commands_are_batched_up_to_the_mtu() {
    let mut p = pair();
    let cmds: Vec<Bytes> = (0..4).map(|_| Bytes::from(vec![9u8; 600])).collect();
    let mut out = Vec::new();
    p.client.flush_batch(p.at_client, cmds, 77, &mut out);
    let sizes: Vec<usize> = datagrams(&out).iter().map(|d| d.len()).collect();
    assert_eq!(sizes, vec![1204, 1204]);
    assert_eq!(peer(&p.client, p.at_client).last_send_time, 77);
    // No datagram has more than 32 commands.
    let small: Vec<Bytes> = (0..70).map(|_| Bytes::from(vec![9u8; 4])).collect();
    let mut many = Vec::new();
    p.client.flush_batch(p.at_client, small, 77, &mut many);
    let sizes: Vec<usize> = datagrams(&many).iter().map(|d| d.len()).collect();
    assert_eq!(sizes, vec![132, 132, 28]);
    let mut none = Vec::new();
    p.client.emit_by_key(p.at_client, &[], 88, &mut none);
    assert!(none.is_empty());
    assert_eq!(peer(&p.client, p.at_client).last_send_time, 77);
}

#[test]
fn users_are_told_how_a_connection_ended() {
    let pkt = Packet::reliable(b"p".as_ref(), 0);
    assert_eq!(received(Some(Ok(pkt))).unwrap().data.as_ref(), b"p");
    assert!(matches!(received(Some(Err(Some(4)))), Err(Error::Disconnected(Some(4)))));
    assert!(matches!(received(Some(Err(None))), Err(Error::Disconnected(None))));
    assert!(matches!(received(None), Err(Error::ChannelClosed)));
    assert!(matches!(connected(ConnectOutcome::Elapsed), Err(Error::TimedOut)));
    assert!(matches!(connected(ConnectOutcome::Dropped), Err(Error::ChannelClosed)));
    assert!(connected(ConnectOutcome::Established).is_ok());
}

#[test]
fn messages_arrive_in_order_over_a_bad_network() {
    let mut p = pair();
    let mut flights = Vec::new();
    for i in 0u8..10 {
        let mut out = Vec::new();
        p.client.send_packet(p.at_client, Packet::reliable(vec![i; 3], 0), 1000, &mut out);
        flights.push(out);
    }
    let mut got = Vec::new();
    // Out of order, some twice, and number 7 not yet.
    for (t, i) in [3usize, 0, 9, 9, 2, 1, 0, 6, 5, 8, 4, 3].iter().enumerate() {
        let back = hand(&mut p.server, &flights[*i], client_addr(), 1010 + t as u32);
        got.extend(payloads(&back));
    }
    let first: Vec<Bytes> = (0u8..7).map(|i| Bytes::from(vec![i; 3])).collect();
    assert_eq!(got, first);
    let back = hand(&mut p.server, &flights[7], client_addr(), 1100);
    got.extend(payloads(&back));
    let all: Vec<Bytes> = (0u8..10).map(|i| Bytes::from(vec![i; 3])).collect();
    assert_eq!(got, all);
}

#[test]
fn held_back_packets_are_sent_before_a_disconnect() {
    let mut p = pair();
    p.client.peers[p.at_client.0].as_mut().unwrap().packet_throttle = 0;
    let mut out = Vec::new();
    p.client.send_packet(p.at_client, Packet::reliable(b"1".as_ref(), 0), 10, &mut out);
    p.client.send_packet(p.at_client, Packet::reliable(b"2".as_ref(), 0), 10, &mut out);
    assert_eq!(peer(&p.client, p.at_client).pending_send.len(), 1);
    let mut none = Vec::new();
    p.client.send_disconnect(p.at_client, 6, 11, &mut none);
    p.client.service_one(p.at_client, 12, &mut none);
    assert!(none.is_empty());
    assert_eq!(peer(&p.client, p.at_client).state, PeerState::DisconnectLater(6));
    assert_eq!(peer(&p.client, p.at_client).pending_send.len(), 1);
    // The first packet is acknowledged, then the second goes out, and only
    // when that is acknowledged too the other side is told of the end.
    let mut got = Vec::new();
    let mut ended = Vec::new();
    for now in [20u32, 30, 40] {
        let back = hand(&mut p.server, &out, client_addr(), now);
        got.extend(payloads(&back));
        ended.extend(closed(&back));
        hand(&mut p.client, &back, server_addr(), now + 1);
        out.clear();
        if p.client.is_live(p.at_client) {
            p.client.service_one(p.at_client, now + 2, &mut out);
        }
    }
    assert_eq!(got, vec![Bytes::from_static(b"1"), Bytes::from_static(b"2")]);
    assert_eq!(ended, vec![CloseReason::Remote(6)]);
    assert!(!p.client.is_live(p.at_client));
}

#[test]
fn a_later_packet_does_not_overtake_one_that_is_held_back() {
    let mut p = pair();
    let mut out = Vec::new();
    p.client.peers[p.at_client.0].as_mut().unwrap().packet_throttle = 0;
    p.client.send_packet(p.at_client, Packet::reliable(b"0".as_ref(), 0), 10, &mut out);
    p.client.send_packet(p.at_client, Packet::reliable(b"1".as_ref(), 0), 10, &mut out);
    assert_eq!(datagrams(&out).len(), 1);
    // The window opens again before the next service.
    p.client.peers[p.at_client.0].as_mut().unwrap().packet_throttle = 32;
    let mut none = Vec::new();
    p.client.send_packet(p.at_client, Packet::reliable(b"2".as_ref(), 0), 11, &mut none);
    assert!(none.is_empty());
    // Another channel does not wait.
    let mut other = Vec::new();
    p.client.send_packet(p.at_client, Packet::reliable(b"x".as_ref(), 1), 11, &mut other);
    assert_eq!(datagrams(&other).len(), 1);
    let mut more = Vec::new();
    p.client.service_one(p.at_client, 12, &mut more);
    assert!(peer(&p.client, p.at_client).pending_send.is_empty());
    let sent: Vec<(u16, u8)> = datagrams(&more)
        .iter()
        .map(|d| (u16::from_be_bytes([d[6], d[7]]), d[10]))
        .collect();
    assert_eq!(sent, vec![(2, b'1'), (3, b'2')]);
    let mut got = payloads(&hand(&mut p.server, &out, client_addr(), 20));
    got.extend(payloads(&hand(&mut p.server, &more, client_addr(), 21)));
    let all: Vec<Bytes> = (b'0'..=b'2').map(|b| Bytes::from(vec![b])).collect();
    assert_eq!(got, all);
}

#[test]
fn whole_and_fragmented_messages_keep_their_order() {
    let mut p = pair();
    let mut flights = Vec::new();
    let msgs = [vec![1u8; 10], vec![2u8; 3000], vec![3u8; 1], vec![4u8; 5000], vec![5u8; 7]];
    for m in &msgs {
        let mut out = Vec::new();
        p.client.send_packet(p.at_client, Packet::reliable(m.clone(), 0), 1000, &mut out);
        for d in datagrams(&out) {
            flights.push(d);
        }
    }
    // Numbers 1, 2 to 4, 5, 6 to 9 and 10.
    assert_eq!(flights.len(), 10);
    let mut got = Vec::new();
    for (t, i) in [9usize, 3, 6, 2, 2, 4, 1, 8, 5, 7, 5, 9, 0].iter().enumerate() {
        let mut back = Vec::new();
        p.server.on_datagram(&flights[*i], client_addr(), 1010 + t as u32, &mut back);
        got.extend(payloads(&back));
        assert_eq!(datagrams(&back).len(), 1);
        if *i != 0 {
            assert!(got.is_empty());
        }
    }
    let all: Vec<Bytes> = msgs.iter().map(|m| Bytes::from(m.clone())).collect();
    assert_eq!(got, all);
    assert_eq!(peer(&p.server, p.at_server).channels[0].incoming_reliable_seq, 10);
    assert_eq!(peer(&p.server, p.at_server).fragment_bytes_in_flight, 0);
}

#[test]
fn order_is_kept_when_numbers_come_round_again() {
    let mut p = pair();
    let mut next: u32 = 0;
    let mut expected: u32 = 0;
    for round in 0..700u32 {
        let now = 1000 + round;
        let mut flights = Vec::new();
        for _ in 0..100 {
            let mut out = Vec::new();
            let data = next.to_be_bytes().to_vec();
            p.client.send_packet(p.at_client, Packet::reliable(data, 0), now, &mut out);
            flights.push(out);
            next += 1;
        }
        // Every third first, then the others from the last on.
        for step in 0..3 {
            for (i, out) in flights.iter().enumerate().rev() {
                if i % 3 != step {
                    continue;
                }
                let back = hand(&mut p.server, out, client_addr(), now);
                for got in payloads(&back) {
                    assert_eq!(got.as_ref(), expected.to_be_bytes());
                    expected += 1;
                }
                hand(&mut p.client, &back, server_addr(), now);
            }
        }
        assert_eq!(expected, next);
        assert!(peer(&p.client, p.at_client).outgoing_reliable.is_empty());
    }
    assert_eq!(next, 70_000);
}

#[test]
fn reliable_and_unreliable_fragments_are_kept_apart() {
    let mut p = pair();
    let mut reliable = Vec::new();
    let mut unreliable = Vec::new();
    // Both messages start with number 1 of their kind.
    p.client.send_packet(p.at_client, Packet::unreliable(vec![7u8; 3000], 0), 10, &mut unreliable);
    p.client.send_packet(p.at_client, Packet::reliable(vec![8u8; 3000], 0), 10, &mut reliable);
    let loose = datagrams(&unreliable);
    let firm = datagrams(&reliable);
    assert_eq!((loose.len(), firm.len()), (3, 3));
    let mut got = Vec::new();
    for d in [&loose[0], &firm[2], &firm[0], &loose[2], &firm[1]] {
        let mut back = Vec::new();
        p.server.on_datagram(d, client_addr(), 20, &mut back);
        got.extend(payloads(&back));
    }
    assert_eq!(got, vec![Bytes::from(vec![8u8; 3000])]);
    assert_eq!(peer(&p.server, p.at_server).fragment_bytes_in_flight, 3000);
    // Once a message is through, its fragments take no more memory.
    for d in [&loose[1], &loose[0], &firm[0]] {
        let mut back = Vec::new();
        p.server.on_datagram(d, client_addr(), 30, &mut back);
        got.extend(payloads(&back));
    }
    assert_eq!(got, vec![Bytes::from(vec![8u8; 3000]), Bytes::from(vec![7u8; 3000])]);
    assert_eq!(peer(&p.server, p.at_server).fragment_bytes_in_flight, 0);
}

/// An unreliable message of two fragments of which the second is lost.
fn half_a_message(p: &mut Pair, data: u8, now: u32) {
    let mut out = Vec::new();
    p.client.send_packet(p.at_client, Packet::unreliable(vec![data; 2000], 0), now, &mut out);
    let sent = datagrams(&out);
    assert_eq!(sent.len(), 2);
    let mut back = Vec::new();
    p.server.on_datagram(&sent[0], client_addr(), now, &mut back);
    assert!(back.is_empty());
}

#[test]
fn late_unreliable_messages_are_given_up() {
    let mut p = pair();
    half_a_message(&mut p, 1, 10);
    half_a_message(&mut p, 2, 11);
    assert_eq!(peer(&p.server, p.at_server).fragment_bytes_in_flight, 4000);
    // A later message is taken, in one piece or in fragments.
    let mut out = Vec::new();
    p.client.send_packet(p.at_client, Packet::unreliable(b"now".as_ref(), 0), 12, &mut out);
    half_a_message(&mut p, 3, 13);
    assert_eq!(payloads(&hand(&mut p.server, &out, client_addr(), 14)).len(), 1);
    let entry = peer(&p.server, p.at_server);
    assert_eq!(entry.fragment_bytes_in_flight, 2000);
    assert_eq!(entry.channels[0].fragment_buffers.len(), 1);
    out.clear();
    p.client.send_packet(p.at_client, Packet::unreliable(vec![4u8; 2000], 0), 15, &mut out);
    assert_eq!(payloads(&hand(&mut p.server, &out, client_addr(), 16)).len(), 1);
    let entry = peer(&p.server, p.at_server);
    assert_eq!(entry.fragment_bytes_in_flight, 0);
    assert!(entry.channels[0].fragment_buffers.is_empty());
}

#[test]
fn unreliable_messages_give_way_to_reliable_ones() {
    let mut p = pair();
    for i in 0..MAX_FRAGMENT_BUFFERS_PER_CHANNEL as u8 {
        half_a_message(&mut p, i, 10);
    }
    let entry = peer(&p.server, p.at_server);
    assert_eq!(entry.channels[0].fragment_buffers.len(), MAX_FRAGMENT_BUFFERS_PER_CHANNEL);
    // Another unreliable one finds no room.
    half_a_message(&mut p, 99, 11);
    let entry = peer(&p.server, p.at_server);
    assert_eq!(entry.fragment_bytes_in_flight, 2000 * MAX_FRAGMENT_BUFFERS_PER_CHANNEL);
    let mut out = Vec::new();
    p.client.send_packet(p.at_client, Packet::reliable(vec![5u8; 2000], 0), 12, &mut out);
    let back = hand(&mut p.server, &out, client_addr(), 13);
    assert_eq!(payloads(&back), vec![Bytes::from(vec![5u8; 2000])]);
    assert_eq!(datagrams(&back).len(), 2);
    assert_eq!(peer(&p.server, p.at_server).fragment_bytes_in_flight, 0);
}

#[test]
fn a_host_that_is_limited_in_what_it_sends_tells_its_peers() {
    let mut server = HostTask::new(1, false, 0, 40_000);
    let mut client = HostTask::new(1, false, 0, 0);
    let mut out = Vec::new();
    client.connect_with(server_addr(), 1, 0, 5, 10, &mut out).unwrap();
    let verify = hand(&mut server, &out, client_addr(), 11);
    let acks = hand(&mut client, &verify, server_addr(), 12);
    hand(&mut server, &acks, client_addr(), 13);
    let mut told = Vec::new();
    server.bandwidth_throttle(1000, &mut told);
    let limit = [0x80 | CMD_BANDWIDTH_LIMIT, 0xFF, 0, 2, 0, 0, 0, 0, 0, 0, 0x9C, 0x40];
    assert_eq!(datagrams(&told)[0][4..], limit);
    assert_eq!(told.len(), 1);
}

#[test]
fn a_small_bandwidth_is_not_exceeded_by_the_windows() {
    let mut server = HostTask::new(4, false, 1000, 4096);
    for i in 0..2u16 {
        let mut client = HostTask::new(1, false, 0, 0);
        let mut out = Vec::new();
        client.connect_with(server_addr(), 1, 0, 5, 10, &mut out).unwrap();
        let verify = hand(&mut server, &out, addr(100 + i), 11);
        let acks = hand(&mut client, &verify, server_addr(), 12);
        hand(&mut server, &acks, addr(100 + i), 13);
    }
    let mut out = Vec::new();
    server.bandwidth_throttle(1000, &mut out);
    assert_eq!(peer(&server, PeerKey(0)).window_size, 2048);
    assert_eq!(peer(&server, PeerKey(1)).window_size, 2048);
    let sent = datagrams(&out);
    assert_eq!(sent.len(), 2);
    let limit = [0x80 | CMD_BANDWIDTH_LIMIT, 0xFF, 0, 2, 0, 0, 3, 0xE8, 0, 0, 8, 0];
    assert_eq!(sent[0][4..], limit);
    assert_eq!(sent[1][4..], limit);
}

#[test]
fn bytes_in_transit_stay_within_the_window() {
    let mut p = pair();
    p.client.peers[p.at_client.0].as_mut().unwrap().window_size = 4096;
    let mut out = Vec::new();
    // Three fragments of together 3000 bytes, each behind 24 bytes.
    p.client.send_packet(p.at_client, Packet::reliable(vec![1u8; 3000], 0), 10, &mut out);
    assert_eq!(datagrams(&out).len(), 3);
    let mut more = Vec::new();
    p.client.send_packet(p.at_client, Packet::reliable(vec![2u8; 1019], 1), 11, &mut more);
    assert!(more.is_empty());
    assert_eq!(peer(&p.client, p.at_client).pending_send.len(), 1);
    p.client.peers[p.at_client.0].as_mut().unwrap().pending_send.clear();
    p.client.send_packet(p.at_client, Packet::reliable(vec![2u8; 1018], 1), 12, &mut more);
    assert_eq!(datagrams(&more).len(), 1);
    // What is larger than the window waits for its own channel only.
    let mut q = pair();
    q.client.peers[q.at_client.0].as_mut().unwrap().window_size = 4096;
    let mut alone = Vec::new();
    q.client.send_packet(q.at_client, Packet::reliable(vec![1u8; 10], 1), 9, &mut alone);
    alone.clear();
    q.client.send_packet(q.at_client, Packet::reliable(vec![3u8; 6000], 0), 10, &mut alone);
    assert_eq!(datagrams(&alone).len(), 5);
    alone.clear();
    q.client.send_packet(q.at_client, Packet::reliable(vec![3u8; 6000], 0), 11, &mut alone);
    q.client.send_packet(q.at_client, Packet::reliable(vec![3u8; 6000], 1), 11, &mut alone);
    assert!(alone.is_empty());
    assert_eq!(peer(&q.client, q.at_client).pending_send.len(), 2);
}

/// A datagram of the client with one command.
fn from_client(cmd: &Bytes) -> Vec<u8> {
    let mut raw = vec![0x90u8, 0, 0, 9];
    raw.extend_from_slice(cmd);
    raw
}

#[test]
fn what_finds_no_room_is_not_acknowledged() {
    let mut p = pair();
    for i in 0..MAX_FRAGMENT_BUFFERS_PER_CHANNEL as u16 {
        store(&mut p, fragment(100 + i, 0, 2, 10));
    }
    let refused = CommandBody::SendFragment(fragment(99, 0, 2, 10));
    let raw = from_client(&encode_command(CMD_SEND_FRAGMENT, 0x80, 0, 99, &refused));
    let mut out = Vec::new();
    p.server.on_datagram(&raw, client_addr(), 60, &mut out);
    assert!(out.is_empty());
    let known = CommandBody::SendFragment(fragment(100, 0, 2, 10));
    let raw = from_client(&encode_command(CMD_SEND_FRAGMENT, 0x80, 0, 100, &known));
    p.server.on_datagram(&raw, client_addr(), 61, &mut out);
    assert_eq!(datagrams(&out).len(), 1);

    // The same holds of the queue of early packets.
    let mut q = pair();
    let c = &mut q.server.peers[q.at_server.0].as_mut().unwrap().channels[0];
    for seq in 3..3 + 4096u16 {
        c.receive_reliable(seq, Bytes::from_static(b"e"));
    }
    let send = |h: &mut HostTask, seq: u16| {
        let body = CommandBody::SendReliable(SendReliableCmd { data: Bytes::from_static(b"e") });
        let raw = from_client(&encode_command(CMD_SEND_RELIABLE, 0x80, 0, seq, &body));
        let mut out = Vec::new();
        h.on_datagram(&raw, client_addr(), 70, &mut out);
        (payloads(&out).len(), datagrams(&out).len())
    };
    assert_eq!(send(&mut q.server, 2), (0, 0));
    assert_eq!(send(&mut q.server, 3), (0, 1));
    assert_eq!(send(&mut q.server, 1), (1, 1));
    assert_eq!(send(&mut q.server, 2), (4097, 1));
}

#[test]
fn there_are_no_more_slots_than_peer_ids() {
    assert_eq!(HostTask::new(5000, false, 0, 0).peers.len(), 4095);
    assert_eq!(HostTask::new(4095, false, 0, 0).peers.len(), 4095);
    assert_eq!(HostTask::new(3, false, 0, 0).peers.len(), 3);
}

#[test]
fn a_slot_gets_new_sessions_each_time() {
    let mut h = HostTask::new(1, false, 0, 0);
    let mut seen = Vec::new();
    for _ in 0..5 {
        let mut out = Vec::new();
        h.on_connect(connect_cmd(), 1, None, client_addr(), 5, &mut out);
        let p = peer(&h, PeerKey(0));
        seen.push((p.incoming_session_id, p.outgoing_session_id));
        let raw = [(seen[seen.len() - 1].0 << 4) | 0x80, 0, 0, 9, CMD_DISCONNECT, 0xFF, 0, 0, 0, 0, 0, 0];
        h.on_datagram(&raw, client_addr(), 6, &mut out);
        assert!(!h.is_live(PeerKey(0)));
    }
    assert_eq!(seen, vec![(1, 2), (2, 3), (3, 0), (0, 1), (1, 2)]);
    // A picked session differs from the one that the client declares.
    let p = negotiated(0, 0, ConnectCmd { outgoing_session_id: 1, ..connect_cmd() });
    assert_eq!((p.incoming_session_id, p.outgoing_session_id), (2, 2));
}

#[test]
fn a_command_expires_after_thirty_seconds() {
    let mut p = pair();
    let mut out = Vec::new();
    p.client.send_packet(p.at_client, Packet::reliable(b"?".as_ref(), 0), 1000, &mut out);
    assert!(!p.client.peers[0].as_ref().unwrap().times_out(1001));
    let c = p.client.peers[p.at_client.0].as_mut().unwrap();
    c.outgoing_reliable[0].rtt_timeout = 1000;
    assert!(!c.times_out(30_999));
    assert!(c.times_out(31_000));
    // Six attempts are enough after five seconds.
    c.outgoing_reliable[0].send_attempts = 6;
    assert!(!c.times_out(5_999));
    assert!(c.times_out(6_000));
    c.outgoing_reliable[0].send_attempts = 5;
    assert!(!c.times_out(6_000));
}
