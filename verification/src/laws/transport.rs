//! What one host puts into a datagram, another one gets out of it.

use vstd::prelude::*;

use crate::address::{Address, PeerKey};
use crate::channel;
use crate::peer::emit;
use crate::peer::PeerView;
use crate::protocol::command;
use crate::protocol::header;
use crate::protocol::wire;
use crate::protocol::{ProtocolHeader, MAX_COMMANDS_PER_PACKET};
use crate::task::dispatch::Turn;
use crate::task::HostView;

verus! {

/// The header of the datagrams that are sent to a peer.
pub open spec fn sent_header(p: PeerView, now: u32) -> ProtocolHeader {
    ProtocolHeader {
        peer_id_raw: header::timed_raw(p.outgoing_peer_id, p.outgoing_session_id),
        sent_time: Some((now % 0x1_0000) as u16),
    }
}

/// The bytes of commands, each by itself.
pub open spec fn bytes_of(cmds: Seq<command::CommandView>) -> Seq<Seq<u8>> {
    cmds.map_values(|c: command::CommandView| command::command_bytes(c))
}

/// A host takes the datagrams that are sent to peer `p` as being for its own
/// peer `key`: the slot and the session are the ones it expects, and, where
/// there are checksums, both sides put the same connect ID into them.
pub open spec fn addressed(p: PeerView, h: HostView, key: Option<PeerKey>, from: Address) -> bool {
    let hdr = sent_header(p, 0);
    &&& h.receiver(hdr, from) == key
    &&& h.session_ok(key, hdr)
    &&& h.use_checksum ==> h.checksum_id(key) == p.checksum_id()
}

/// Law: a datagram is let in by the host that it is addressed to, with or
/// without checksums, and its commands are the ones that were put in.
pub proof fn lemma_datagram_admitted(
    p: PeerView,
    h: HostView,
    key: Option<PeerKey>,
    from: Address,
    cmds: Seq<Seq<u8>>,
    now: u32,
)
    requires
        addressed(p, h, key, from),
    ensures
        h.admitted(p.datagram(h.use_checksum, cmds, now), from) == Some(
            (sent_header(p, now), key, emit::concat(cmds)),
        ),
{
    reveal(emit::framed);
    let hdr = sent_header(p, now);
    let raw = p.datagram(h.use_checksum, cmds, now);
    let head = emit::datagram_header(p.outgoing_peer_id, p.outgoing_session_id, now);
    let body = emit::concat(cmds);
    header::lemma_header_fields(0x8000, p.outgoing_session_id, p.outgoing_peer_id);
    assert(header::protocol_header_bytes(hdr) == head);
    let rest = if h.use_checksum {
        wire::be32(emit::checksum(head, p.checksum_id(), body)) + body
    } else {
        body
    };
    assert(raw =~= head + rest);
    header::lemma_protocol_header_round_trip(hdr, rest);
    assert(raw.take(4) =~= head);
    if h.use_checksum {
        let sum = emit::checksum(head, p.checksum_id(), body);
        assert(rest.skip(4) =~= body);
        assert(rest.subrange(0, 4) =~= wire::be32(sum));
        wire::lemma_be32_reads_back(rest, 0, sum);
    }
}

proof fn lemma_all_bytes(cmds: Seq<command::CommandView>)
    ensures
        emit::concat(bytes_of(cmds)) == command::all_bytes(cmds),
    decreases cmds.len(),
{
    if cmds.len() > 0 {
        let front = cmds.drop_last();
        lemma_all_bytes(front);
        assert(bytes_of(cmds).drop_last() =~= bytes_of(front));
        lemma_all_bytes_last(cmds);
    }
}

proof fn lemma_all_bytes_last(cmds: Seq<command::CommandView>)
    requires
        cmds.len() > 0,
    ensures
        command::all_bytes(cmds) == command::all_bytes(cmds.drop_last()) + command::command_bytes(
            cmds.last(),
        ),
    decreases cmds.len(),
{
    if cmds.len() == 1 {
        assert(cmds.drop_first() =~= Seq::empty());
        assert(cmds.drop_last() =~= Seq::empty());
        assert(command::all_bytes(cmds.drop_first()) == Seq::<u8>::empty());
        assert(command::all_bytes(cmds.drop_last()) == Seq::<u8>::empty());
        assert(command::all_bytes(cmds) =~= command::command_bytes(cmds[0]));
        assert(Seq::<u8>::empty() + command::command_bytes(cmds.last())
            =~= command::command_bytes(cmds.last()));
    } else {
        let tail = cmds.drop_first();
        lemma_all_bytes_last(tail);
        let front = cmds.drop_last();
        assert(front.drop_first() =~= tail.drop_last());
        assert(command::all_bytes(front) == command::command_bytes(front[0]) + command::all_bytes(
            front.drop_first(),
        ));
        let a = command::command_bytes(cmds[0]);
        let b = command::all_bytes(tail.drop_last());
        let c = command::command_bytes(cmds.last());
        assert(a + (b + c) =~= (a + b) + c);
    }
}

/// Law: the commands of a datagram are read as they were written.
pub proof fn lemma_commands_read(cmds: Seq<command::CommandView>)
    requires
        cmds.len() <= MAX_COMMANDS_PER_PACKET,
        forall|i: int| 0 <= i < cmds.len() ==> command::well_typed(#[trigger] cmds[i]),
    ensures
        command::parse_all(emit::concat(bytes_of(cmds)), MAX_COMMANDS_PER_PACKET as nat) == cmds,
{
    lemma_all_bytes(cmds);
    command::lemma_commands_round_trip(cmds, MAX_COMMANDS_PER_PACKET as nat);
}

/// Law: what a datagram with well-typed commands does to the host that it is
/// addressed to is what those commands do, one after the other.
pub proof fn lemma_datagram_received(
    p: PeerView,
    h: HostView,
    key: Option<PeerKey>,
    from: Address,
    cmds: Seq<command::CommandView>,
    sent: u32,
    now: u32,
)
    requires
        addressed(p, h, key, from),
        cmds.len() <= MAX_COMMANDS_PER_PACKET,
        forall|i: int| 0 <= i < cmds.len() ==> command::well_typed(#[trigger] cmds[i]),
    ensures
        h.on_datagram(p.datagram(h.use_checksum, bytes_of(cmds), sent), from, now) == Turn::first(h).on_commands(key, Some((sent % 0x1_0000) as u16), cmds, from, now).flush_acks(
            key,
            from,
            now,
        ),
{
    reveal(HostView::on_datagram);
    lemma_datagram_admitted(p, h, key, from, bytes_of(cmds), sent);
    lemma_commands_read(cmds);
}

/// A command is well-typed if its type is that of its body and its flags are
/// outside the bits of the type.
pub proof fn lemma_well_typed(
    cmd_type: u8,
    flags: u8,
    channel_id: u8,
    seq: u16,
    body: command::BodyView,
)
    requires
        cmd_type == command::body_type(body),
        flags == 0 || flags == 0x80 || flags == 0x40,
        command::body_data(body).len() <= 0xFFFF,
    ensures
        command::well_typed(channel::command_of(cmd_type, flags, channel_id, seq, body)),
        header::ack_bit(cmd_type | flags) == (flags == 0x80),
{
    assert((cmd_type | flags) % 16 == cmd_type && ((cmd_type | flags) >= 128) == (flags == 0x80))
        by (bit_vector)
        requires
            cmd_type < 16,
            flags == 0 || flags == 0x80 || flags == 0x40,
    ;
}

} // verus!
