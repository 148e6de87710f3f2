//! Channels: ordering, reassembly and duplicate detection.

use bytes::Bytes;
use enet_rs::channel::fragment::FragmentBuffer;
use enet_rs::channel::unsequenced::UnsequencedWindow;
use enet_rs::channel::{Channel, MAX_INCOMING_RELIABLE_QUEUE};
use enet_rs::protocol::SendFragmentCmd;

fn msg(n: u32) -> Bytes {
    Bytes::copy_from_slice(&n.to_be_bytes())
}

#[test]
fn outgoing_numbers_count_up_and_wrap() {
    let mut c = Channel::new();
    assert_eq!(c.next_reliable_seq(), 1);
    assert_eq!(c.next_reliable_seq(), 2);
    assert_eq!(c.next_unreliable_seq(), 1);
    assert_eq!(c.next_unsequenced_group(), 1);
    c.outgoing_reliable_seq = 0xFFFF;
    c.outgoing_unreliable_seq = 0xFFFF;
    c.outgoing_unsequenced_group = 0xFFFF;
    assert_eq!(c.next_reliable_seq(), 0);
    assert_eq!(c.next_unreliable_seq(), 0);
    assert_eq!(c.next_unsequenced_group(), 0);
}

#[test]
fn reliable_window_is_eight_blocks_of_4096() {
    let c = Channel::new();
    assert!(c.reliable_window_open(0));
    assert!(c.reliable_window_open(32767));
    assert!(!c.reliable_window_open(32768));
}

#[test]
fn reliable_messages_come_out_in_order_and_once() {
    let mut c = Channel::new();
    assert!(c.receive_reliable(3, msg(3)).is_empty());
    assert!(c.receive_reliable(2, msg(2)).is_empty());
    assert!(c.receive_reliable(3, msg(99)).is_empty());
    let out = c.receive_reliable(1, msg(1));
    assert_eq!(out.len(), 3);
    assert_eq!(out[0], msg(1));
    assert_eq!(out[1], msg(2));
    // A repeated number replaces what was held under it.
    assert_eq!(out[2], msg(99));
    assert!(c.receive_reliable(1, msg(1)).is_empty());
    assert_eq!(c.receive_reliable(4, msg(4)), vec![msg(4)]);
}

#[test]
fn reliable_numbers_wrap() {
    let mut c = Channel::new();
    c.incoming_reliable_seq = 0xFFFE;
    assert!(c.receive_reliable(0, msg(0)).is_empty());
    assert_eq!(c.receive_reliable(0xFFFF, msg(7)), vec![msg(7), msg(0)]);
    assert_eq!(c.incoming_reliable_seq, 0);
}

#[test]
fn reliable_queue_is_bounded() {
    let mut c = Channel::new();
    for i in 0..MAX_INCOMING_RELIABLE_QUEUE as u32 {
        assert!(c.receive_reliable(2 + i as u16, msg(i)).is_empty());
    }
    // One too many is dropped.
    assert!(c.receive_reliable(5000, msg(5000)).is_empty());
    assert_eq!(c.receive_reliable(1, msg(1)).len(), MAX_INCOMING_RELIABLE_QUEUE + 1);
    assert_eq!(c.incoming_reliable_seq, 4097);
}

#[test]
fn reliable_messages_in_any_order_are_all_delivered() {
    let order = [4usize, 0, 0, 9, 2, 1, 7, 3, 8, 6, 5, 2];
    let mut c = Channel::new();
    c.incoming_reliable_seq = 0xFFFB;
    let mut got = Vec::new();
    for i in order {
        let seq = 0xFFFCu16.wrapping_add(i as u16);
        got.extend(c.receive_reliable(seq, msg(i as u32)));
    }
    let all: Vec<Bytes> = (0..10).map(msg).collect();
    assert_eq!(got, all);
}

#[test]
fn late_unreliable_messages_are_dropped() {
    let mut c = Channel::new();
    assert_eq!(c.receive_unreliable(1, msg(1)), Some(msg(1)));
    assert_eq!(c.receive_unreliable(4, msg(4)), Some(msg(4)));
    assert_eq!(c.receive_unreliable(3, msg(3)), None);
    assert_eq!(c.receive_unreliable(4, msg(4)), None);
    assert_eq!(c.receive_unreliable(5, msg(5)), Some(msg(5)));
}

#[test]
fn fragments_are_put_together_in_any_order() {
    let mut b = FragmentBuffer::new(10, 3);
    assert!(!b.receive(2, 8, &[8, 9]));
    assert!(!b.receive(0, 0, &[0, 1, 2, 3]));
    // A fragment that is already there changes nothing.
    assert!(!b.receive(0, 0, &[9, 9, 9, 9]));
    assert_eq!(b.received, 2);
    assert!(b.receive(1, 4, &[4, 5, 6, 7]));
    assert_eq!(b.finish().as_ref(), [0, 1, 2, 3, 4, 5, 6, 7, 8, 9]);
}

#[test]
fn malformed_fragments_are_refused() {
    let mut b = FragmentBuffer::new(4, 2);
    // A number that does not exist, and bytes past the end.
    assert!(!b.receive(2, 0, &[1, 2]));
    assert!(!b.receive(64, 0, &[1, 2]));
    assert!(!b.receive(0, 3, &[1, 2]));
    assert!(!b.receive(0, usize::MAX, &[1]));
    assert_eq!(b.received, 0);
    assert!(!b.receive(0, 0, &[1, 2]));
    assert!(b.receive(1, 2, &[3, 4]));
    assert_eq!(b.finish().as_ref(), [1, 2, 3, 4]);
}

#[test]
fn many_fragments_use_more_than_one_mask_word() {
    let mut b = FragmentBuffer::new(130, 130);
    assert_eq!(b.mask.len(), 3);
    for i in (1..130u32).rev() {
        assert!(!b.receive(i, i as usize, &[i as u8]));
    }
    assert!(b.receive(0, 0, &[0]));
    let all: Vec<u8> = (0..130u8).collect();
    assert_eq!(b.finish().as_ref(), all.as_slice());
}

fn fragment(start_seq: u16, n: u32, count: u32, total: u32, offset: u32, data: &[u8]) -> SendFragmentCmd {
    SendFragmentCmd {
        start_seq,
        fragment_count: count,
        fragment_number: n,
        total_length: total,
        fragment_offset: offset,
        data: Bytes::copy_from_slice(data),
    }
}

#[test]
fn a_reassembled_message_takes_as_many_numbers_as_fragments() {
    let mut c = Channel::new();
    // Message 4 waits for the fragmented message 1 to 3.
    assert!(c.receive_reliable(4, msg(4)).is_empty());
    assert!(c.store_fragment(&fragment(1, 1, 3, 5, 2, &[3, 4]), true).is_none());
    assert!(c.store_fragment(&fragment(1, 0, 3, 5, 0, &[1, 2]), true).is_none());
    let whole = c.store_fragment(&fragment(1, 2, 3, 5, 4, &[5]), true).unwrap();
    assert_eq!(whole.as_ref(), [1, 2, 3, 4, 5]);
    let out = c.receive_reassembled(1, 3, whole.clone());
    assert_eq!(out, vec![whole, msg(4)]);
    assert_eq!(c.incoming_reliable_seq, 4);
    assert!(c.fragment_buffers.is_empty());
}

#[test]
fn a_fragmented_message_that_is_complete_early_waits_for_its_turn() {
    let mut c = Channel::new();
    // Message 1 is late, message 2 takes the numbers 2 and 3.
    assert!(c.store_fragment(&fragment(2, 0, 2, 4, 0, &[1, 2]), true).is_none());
    let whole = c.store_fragment(&fragment(2, 1, 2, 4, 2, &[3, 4]), true).unwrap();
    assert!(c.receive_reassembled(2, 2, whole.clone()).is_empty());
    assert_eq!(c.receive_reliable(1, msg(1)), vec![msg(1), whole]);
    assert_eq!(c.incoming_reliable_seq, 3);
    assert_eq!(c.receive_reliable(4, msg(4)), vec![msg(4)]);
}

#[test]
fn the_mask_holds_exactly_what_arrived() {
    let mut b = FragmentBuffer::new(6, 3);
    assert_eq!(b.mask, vec![0]);
    b.receive(0, 0, &[1, 2]);
    assert_eq!(b.mask, vec![1]);
    b.receive(0, 0, &[9, 9]);
    b.receive(1, 5, &[9, 9]);
    assert_eq!(b.mask, vec![1]);
    b.receive(2, 4, &[5, 6]);
    assert_eq!(b.mask, vec![5]);
}

#[test]
fn unsequenced_groups_are_accepted_once() {
    let mut w = UnsequencedWindow::new();
    assert!(w.check_and_set(1));
    assert!(!w.check_and_set(1));
    assert!(w.check_and_set(5));
    assert!(w.check_and_set(3));
    assert!(!w.check_and_set(3));
    assert!(!w.check_and_set(5));
    assert!(w.check_and_set(4));
    assert_eq!(w.group, 5);
}

#[test]
fn unsequenced_groups_too_far_back_are_refused() {
    let mut w = UnsequencedWindow::new();
    assert!(w.check_and_set(2000));
    assert!(w.check_and_set(2000 - 1023));
    assert!(!w.check_and_set(2000 - 1024));
    assert!(!w.check_and_set(1));
}

#[test]
fn unsequenced_window_slides_and_wraps() {
    let mut w = UnsequencedWindow::new();
    let mut group: u16 = 0;
    for _ in 0..70_000u32 {
        group = group.wrapping_add(1);
        assert!(w.check_and_set(group));
        assert!(!w.check_and_set(group));
    }
    // A long jump forgets what lies behind it, as it is out of the window.
    let ahead = group.wrapping_add(5000);
    assert!(w.check_and_set(ahead));
    assert!(!w.check_and_set(group));
    assert!(w.check_and_set(ahead.wrapping_sub(1)));
}
