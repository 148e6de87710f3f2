//! The tables of a host: addresses, and commands in flight.

use bytes::Bytes;
use enet_rs::address::AddressMap;
use enet_rs::outgoing::{insert_outstanding, remove_outstanding, OutstandingReliable};
use enet_rs::{Address, PeerKey};

fn addr(ip: u128, port: u16) -> Address {
    Address { v6: ip > 0xFFFF_FFFF, ip, port, flow: 0, scope: 0 }
}

#[test]
fn addresses_map_to_their_last_key() {
    let mut m = AddressMap::new();
    assert_eq!(m.get(addr(1, 1)), None);
    m.insert(addr(1, 1), PeerKey(4));
    m.insert(addr(1, 2), PeerKey(5));
    m.insert(addr(1 << 64, 1), PeerKey(6));
    assert_eq!(m.get(addr(1, 1)), Some(PeerKey(4)));
    assert_eq!(m.get(addr(1, 2)), Some(PeerKey(5)));
    assert_eq!(m.get(addr(1 << 64, 1)), Some(PeerKey(6)));
    m.insert(addr(1, 1), PeerKey(9));
    assert_eq!(m.get(addr(1, 1)), Some(PeerKey(9)));
    m.remove(addr(1, 1));
    m.remove(addr(7, 7));
    assert_eq!(m.get(addr(1, 1)), None);
    assert_eq!(m.get(addr(1, 2)), Some(PeerKey(5)));
}

fn command(channel_id: u8, reliable_seq: u16, sent_time: u32) -> OutstandingReliable {
    OutstandingReliable {
        reliable_seq,
        channel_id,
        original_sent_time: sent_time,
        sent_time,
        rtt_timeout: 1,
        send_attempts: 1,
        packet_bytes: Bytes::from_static(b"c"),
    }
}

fn order(items: &[OutstandingReliable]) -> Vec<(u8, u16, u32)> {
    items.iter().map(|r| (r.channel_id, r.reliable_seq, r.sent_time)).collect()
}

#[test]
fn commands_in_flight_are_ordered_by_channel_and_number() {
    let mut items = Vec::new();
    for (channel, seq) in [(1u8, 3u16), (0, 9), (0xFF, 1), (1, 2), (0, 1)] {
        insert_outstanding(&mut items, command(channel, seq, 0));
    }
    assert_eq!(
        order(&items),
        vec![(0, 1, 0), (0, 9, 0), (1, 2, 0), (1, 3, 0), (0xFF, 1, 0)]
    );
    // The same channel and number replaces what was there.
    insert_outstanding(&mut items, command(1, 2, 7));
    assert_eq!(items.len(), 5);
    assert_eq!(order(&items)[2], (1, 2, 7));
    remove_outstanding(&mut items, 0, 9);
    remove_outstanding(&mut items, 0, 2);
    assert_eq!(order(&items), vec![(0, 1, 0), (1, 2, 7), (1, 3, 0), (0xFF, 1, 0)]);
}
