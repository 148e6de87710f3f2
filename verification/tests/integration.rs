//! Whole conversations between hosts over a simulated network.

use std::collections::VecDeque;

use bytes::Bytes;
use enet_rs::{
    Action, Address, Event, HostConfig, HostTask, Packet, PeerKey, PeerState, SendMode, ToTask,
};

fn address(n: u128) -> Address {
    Address { v6: false, ip: 0x7F00_0001, port: 7000 + n as u16, flow: 0, scope: 0 }
}

/// A host behind a simulated socket, with what its users saw.
struct Node {
    host: HostTask,
    addr: Address,
    accepted: Vec<PeerKey>,
    connected: Vec<PeerKey>,
    received: VecDeque<(PeerKey, Packet)>,
}

struct Net {
    nodes: Vec<Node>,
    wire: VecDeque<(Address, Address, Bytes)>,
    now: u32,
}

impl Net {
    fn new() -> Net {
        Net { nodes: Vec::new(), wire: VecDeque::new(), now: 1000 }
    }

    fn server(&mut self, config: HostConfig) -> usize {
        self.node(HostTask::new(
            config.max_peers,
            config.use_checksum,
            config.incoming_bandwidth,
            config.outgoing_bandwidth,
        ))
    }

    fn node(&mut self, host: HostTask) -> usize {
        let addr = address(self.nodes.len() as u128);
        self.nodes.push(Node {
            host,
            addr,
            accepted: Vec::new(),
            connected: Vec::new(),
            received: VecDeque::new(),
        });
        self.nodes.len() - 1
    }

    fn step(&mut self, n: usize, event: Event) -> Option<PeerKey> {
        let mut out: Vec<Action> = Vec::new();
        assert!(self.nodes[n].host.can_step(&event, self.now));
        let key = self.nodes[n].host.step(event, self.now, &mut out);
        for action in out {
            match action {
                Action::SendTo { addr, datagram } => {
                    self.wire.push_back((self.nodes[n].addr, addr, datagram));
                }
                Action::Deliver { key, packet } => self.nodes[n].received.push_back((key, packet)),
                Action::Accept { key } => self.nodes[n].accepted.push(key),
                Action::ConnectReply { key } => self.nodes[n].connected.push(key),
                Action::Closed { .. } => {}
            }
        }
        key
    }

    /// Delivers datagrams until none is left. Everything that node `echo`
    /// receives goes back as `reply` says.
    fn pump(&mut self, echo: usize, reply: fn(&Packet) -> Packet) {
        loop {
            while let Some((from, to, data)) = self.wire.pop_front() {
                self.now += 1;
                if let Some(n) = (0..self.nodes.len()).find(|&i| self.nodes[i].addr == to) {
                    self.step(n, Event::Datagram { from, data });
                }
            }
            match self.nodes[echo].received.pop_front() {
                Some((peer_key, pkt)) => {
                    let packet = reply(&pkt);
                    self.step(echo, Event::Request(ToTask::Send { peer_key, packet }));
                }
                None => break,
            }
        }
    }

    /// Connects a new client to a server.
    fn connect(&mut self, server: usize, channel_count: u8, reply: fn(&Packet) -> Packet) -> (usize, PeerKey) {
        let client = self.node(HostTask::new(1, false, 0, 0));
        let addr = self.nodes[server].addr;
        let request = ToTask::Connect { addr, channel_count, data: 0 };
        let key = self.step(client, Event::Request(request)).expect("no slot");
        self.pump(server, reply);
        assert_eq!(self.nodes[client].connected, vec![key]);
        let peer = self.nodes[client].host.peers[key.0].as_ref().expect("gone");
        assert_eq!(peer.state, PeerState::Connected);
        (client, key)
    }

    fn send(&mut self, n: usize, peer_key: PeerKey, packet: Packet) {
        self.step(n, Event::Request(ToTask::Send { peer_key, packet }));
    }

    fn recv(&mut self, n: usize) -> Packet {
        self.nodes[n].received.pop_front().expect("nothing received").1
    }
}

fn same(pkt: &Packet) -> Packet {
    Packet::reliable(pkt.data.clone(), pkt.channel)
}

fn on_channel_zero(pkt: &Packet) -> Packet {
    Packet::reliable(pkt.data.clone(), 0)
}

#[test]
fn test_reliable_echo() {
    let mut net = Net::new();
    let server = net.server(HostConfig::default());
    let (client, key) = net.connect(server, 2, same);
    assert_eq!(net.nodes[server].accepted.len(), 1);
    net.send(client, key, Packet::reliable(b"hello world".as_ref(), 0));
    net.pump(server, same);

    let reply = net.recv(client);
    assert_eq!(reply.data.as_ref(), b"hello world");
    assert_eq!(reply.channel, 0);
    assert_eq!(reply.mode, SendMode::Reliable);
}

#[test]
fn test_unreliable_send() {
    let echo: fn(&Packet) -> Packet = |pkt| Packet::unreliable(pkt.data.clone(), pkt.channel);
    let mut net = Net::new();
    let server = net.server(HostConfig::default());
    let (client, key) = net.connect(server, 2, echo);
    net.send(client, key, Packet::unreliable(b"unreliable!".as_ref(), 1));
    net.pump(server, echo);

    let reply = net.recv(client);
    assert_eq!(reply.data.as_ref(), b"unreliable!");
    assert_eq!(reply.channel, 1);
    assert_eq!(reply.mode, SendMode::Unreliable);
}

#[test]
fn test_unsequenced_send() {
    let echo: fn(&Packet) -> Packet = |pkt| Packet::unsequenced(pkt.data.clone());
    let mut net = Net::new();
    let server = net.server(HostConfig::default());
    let (client, key) = net.connect(server, 2, echo);
    net.send(client, key, Packet::unsequenced(b"fire and forget".as_ref()));
    net.pump(server, echo);

    let reply = net.recv(client);
    assert_eq!(reply.data.as_ref(), b"fire and forget");
    assert_eq!(reply.mode, SendMode::Unsequenced);
}

#[test]
fn test_reliable_ordering() {
    let mut net = Net::new();
    let server = net.server(HostConfig::default());
    let (client, key) = net.connect(server, 2, on_channel_zero);
    const N: usize = 20;
    for i in 0u32..N as u32 {
        let msg = i.to_be_bytes().to_vec();
        net.send(client, key, Packet::reliable(msg, 0));
    }
    net.pump(server, on_channel_zero);

    for i in 0u32..N as u32 {
        let pkt = net.recv(client);
        let got = u32::from_be_bytes(pkt.data[..4].try_into().unwrap());
        assert_eq!(got, i, "out-of-order delivery at index {i}");
    }
}

#[test]
fn test_large_reliable_fragmented() {
    let mut net = Net::new();
    let server = net.server(HostConfig::default());
    let (client, key) = net.connect(server, 2, on_channel_zero);

    // 64 KiB: larger than the MTU (1392 bytes), so it is sent in fragments.
    let big: Vec<u8> = (0..65536u32).map(|i| (i & 0xFF) as u8).collect();
    net.send(client, key, Packet::reliable(big.clone(), 0));
    assert!(net.wire.len() > 1);
    net.pump(server, on_channel_zero);

    let reply = net.recv(client);
    assert_eq!(reply.data.len(), big.len());
    assert_eq!(reply.data.as_ref(), big.as_slice());
}

#[test]
fn test_sink_stream_api() {
    let mut net = Net::new();
    let server = net.server(HostConfig::default());
    let (client, key) = net.connect(server, 2, on_channel_zero);
    net.send(client, key, Packet::reliable(b"sink api".as_ref(), 0));
    net.pump(server, on_channel_zero);

    let reply = net.recv(client);
    assert_eq!(reply.data.as_ref(), b"sink api");
}

#[test]
fn test_split_peer() {
    let mut net = Net::new();
    let server = net.server(HostConfig::default());
    let (client, key) = net.connect(server, 2, on_channel_zero);
    net.send(client, key, Packet::reliable(b"split works".as_ref(), 0));
    net.pump(server, on_channel_zero);

    let reply: Packet = net.recv(client);
    assert_eq!(reply.data.as_ref(), b"split works");
}

#[test]
fn test_multiple_clients() {
    let mut net = Net::new();
    let server = net.server(HostConfig::default());
    const CLIENTS: usize = 5;
    let mut clients = Vec::new();
    for _ in 0..CLIENTS {
        clients.push(net.connect(server, 2, on_channel_zero));
    }
    assert_eq!(net.nodes[server].accepted.len(), CLIENTS);
    for (i, (client, key)) in clients.iter().enumerate() {
        let msg = (i as u32).to_be_bytes().to_vec();
        net.send(*client, *key, Packet::reliable(msg, 0));
    }
    net.pump(server, on_channel_zero);
    for (i, (client, _)) in clients.iter().enumerate() {
        let reply = net.recv(*client);
        let msg = (i as u32).to_be_bytes().to_vec();
        assert_eq!(reply.data.as_ref(), msg.as_slice());
    }
}

#[test]
fn packets_survive_a_lossy_network() {
    let mut net = Net::new();
    let server = net.server(HostConfig::default());
    let (client, key) = net.connect(server, 2, on_channel_zero);
    for i in 0u32..10 {
        net.send(client, key, Packet::reliable(i.to_be_bytes().to_vec(), 0));
    }
    // The network loses every datagram that is under way.
    net.wire.clear();
    let mut got: Vec<u32> = Vec::new();
    for _ in 0..200 {
        net.now += 20;
        net.step(client, Event::Tick);
        net.step(server, Event::Tick);
        net.pump(server, on_channel_zero);
        while let Some((_, pkt)) = net.nodes[client].received.pop_front() {
            got.push(u32::from_be_bytes(pkt.data[..4].try_into().unwrap()));
        }
    }
    assert_eq!(got, (0u32..10).collect::<Vec<u32>>());
}

#[test]
fn fragments_survive_reordering() {
    let mut net = Net::new();
    let server = net.server(HostConfig::default());
    let (client, key) = net.connect(server, 2, on_channel_zero);
    let big: Vec<u8> = (0..20000u32).map(|i| (i * 7 % 251) as u8).collect();
    net.send(client, key, Packet::reliable(big.clone(), 0));
    let mut flight: Vec<(Address, Address, Bytes)> = net.wire.drain(..).collect();
    assert!(flight.len() > 10);
    flight.reverse();
    net.wire.extend(flight);
    net.pump(server, on_channel_zero);
    let reply = net.recv(client);
    assert_eq!(reply.data.as_ref(), big.as_slice());
}
