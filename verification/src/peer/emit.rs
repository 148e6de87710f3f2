//! Datagrams: how commands are laid out in them and how many it takes.

use vstd::prelude::*;

use bytes::{Bytes, BytesMut};

use crate::buffer;
use crate::channel;
use crate::peer;
use crate::peer::{Action, ActionView, PeerEntry, PeerView};
use crate::protocol::crc;
use crate::protocol::crc32;
use crate::protocol::header;
use crate::protocol::wire;
use crate::protocol::{
    ProtocolHeader, HEADER_FLAG_SENT_TIME, MAX_COMMANDS_PER_PACKET, PEER_ID_UNASSIGNED,
};

verus! {

/// Byte strings one after the other.
pub open spec fn concat(parts: Seq<Seq<u8>>) -> Seq<u8>
    decreases parts.len(),
{
    if parts.len() == 0 {
        Seq::empty()
    } else {
        concat(parts.drop_last()) + parts.last()
    }
}

/// The header of a datagram sent at `now`: the receiver's slot and session,
/// and the low 16 bits of the time.
pub open spec fn datagram_header(peer_id: u16, session_id: u8, now: u32) -> Seq<u8> {
    wire::be16(header::timed_raw(peer_id, session_id)) + wire::be16((now % 0x1_0000) as u16)
}

/// The checksum of a datagram: the CRC-32 of the whole datagram with the
/// connect ID in the place of the checksum.
pub open spec fn checksum(head: Seq<u8>, connect_id: u32, body: Seq<u8>) -> u32 {
    crc::crc32_of(head + wire::be32(connect_id) + body)
}

/// A datagram: its header, the checksum where there is one, and the commands.
/// `id` is the connect ID that goes into the checksum.
#[verifier::opaque]
pub open spec fn framed(
    peer_id: u16,
    session_id: u8,
    id: u32,
    ck: bool,
    body: Seq<u8>,
    now: u32,
) -> Seq<u8> {
    let head = datagram_header(peer_id, session_id, now);
    if ck {
        head + wire::be32(checksum(head, id, body)) + body
    } else {
        head + body
    }
}

/// The greedy split of commands into datagrams: a command goes into the same
/// datagram as the one before it, unless that makes the datagram larger than
/// `room` or gives it more commands than one may have.
pub open spec fn batches(cmds: Seq<Seq<u8>>, room: int) -> Seq<Seq<Seq<u8>>>
    decreases cmds.len(),
{
    if cmds.len() == 0 {
        Seq::empty()
    } else {
        let before = batches(cmds.drop_last(), room);
        let c = cmds.last();
        if before.len() == 0 || concat(before.last()).len() + c.len() > room || before.last().len()
            >= MAX_COMMANDS_PER_PACKET {
            before.push(seq![c])
        } else {
            before.update(before.len() - 1, before.last().push(c))
        }
    }
}

impl PeerView {
    /// The connect ID that goes into the checksum of what is sent: none as
    /// long as the other side did not assign a peer.
    pub open spec fn checksum_id(self) -> u32 {
        if self.outgoing_peer_id == PEER_ID_UNASSIGNED {
            0
        } else {
            self.connect_id
        }
    }

    /// The datagram that carries `cmds` to this peer.
    pub open spec fn datagram(self, ck: bool, cmds: Seq<Seq<u8>>, now: u32) -> Seq<u8> {
        framed(
            self.outgoing_peer_id,
            self.outgoing_session_id,
            self.checksum_id(),
            ck,
            concat(cmds),
            now,
        )
    }

    /// The datagrams that carry batches of commands to this peer.
    pub open spec fn datagrams(self, ck: bool, groups: Seq<Seq<Seq<u8>>>, now: u32) -> Seq<
        ActionView,
    > {
        groups.map_values(
            |cmds: Seq<Seq<u8>>|
                ActionView::SendTo { addr: self.addr, datagram: self.datagram(ck, cmds, now) },
        )
    }

    /// The bytes that commands may take in a datagram.
    pub open spec fn room(self, ck: bool) -> int {
        self.mtu - 4 - peer::checksum_size(ck)
    }

    /// One datagram with all of `cmds`, if there are any.
    pub open spec fn emitted(self, ck: bool, cmds: Seq<Seq<u8>>, now: u32) -> Seq<ActionView> {
        if cmds.len() == 0 {
            Seq::empty()
        } else {
            seq![ActionView::SendTo { addr: self.addr, datagram: self.datagram(ck, cmds, now) }]
        }
    }

    /// The datagrams of up to one MTU that carry `cmds` in their order.
    pub open spec fn flushed(self, ck: bool, cmds: Seq<Seq<u8>>, now: u32) -> Seq<ActionView> {
        self.datagrams(ck, batches(cmds, self.room(ck)), now)
    }

    /// The peer after `cmds` were sent to it.
    pub open spec fn sent(self, cmds: Seq<Seq<u8>>, now: u32) -> Self {
        if cmds.len() == 0 {
            self
        } else {
            PeerView { last_send_time: now, ..self }
        }
    }
}

/// Law: splitting loses nothing and reorders nothing: the batches one after
/// the other are the commands. No batch is empty, none has more commands than a
/// datagram may have, and none is larger than a datagram unless it is a single
/// command.
pub proof fn lemma_batches(cmds: Seq<Seq<u8>>, room: int)
    ensures
        join(batches(cmds, room)) == cmds,
        forall|i: int|
            0 <= i < batches(cmds, room).len() ==> {
                let b = #[trigger] batches(cmds, room)[i];
                &&& 0 < b.len() <= MAX_COMMANDS_PER_PACKET
                &&& concat(b).len() <= room || b.len() == 1
            },
    decreases cmds.len(),
{
    if cmds.len() > 0 {
        let front = cmds.drop_last();
        let c = cmds.last();
        lemma_batches(front, room);
        let before = batches(front, room);
        let after = batches(cmds, room);
        assert(cmds =~= front.push(c));
        if before.len() == 0 || concat(before.last()).len() + c.len() > room || before.last().len()
            >= MAX_COMMANDS_PER_PACKET {
            assert(after.drop_last() =~= before);
            assert(join(after) =~= front + seq![c]);
        } else {
            let last = before.last().push(c);
            assert(after.drop_last() =~= before.drop_last());
            assert(after.last() == last);
            assert(last.drop_last() =~= before.last());
            assert(join(before) == join(before.drop_last()) + before.last());
            assert(join(after) =~= front.push(c));
        }
    }
}

/// Groups of commands one after the other.
pub open spec fn join(groups: Seq<Seq<Seq<u8>>>) -> Seq<Seq<u8>>
    decreases groups.len(),
{
    if groups.len() == 0 {
        Seq::empty()
    } else {
        join(groups.drop_last()) + groups.last()
    }
}

proof fn lemma_concat_push(parts: Seq<Seq<u8>>, last: Seq<u8>)
    ensures
        concat(parts.push(last)) == concat(parts) + last,
{
    assert(parts.push(last).drop_last() =~= parts);
}

/// Appends byte strings to a buffer.
fn append_all(buf: &mut BytesMut, cmds: &[Bytes])
    requires
        buffer::written(*old(buf)).len() + concat(channel::contents(cmds@)).len() <= isize::MAX,
    ensures
        buffer::written(*final(buf)) == buffer::written(*old(buf)) + concat(
            channel::contents(cmds@),
        ),
{
    let ghost before = buffer::written(*buf);
    let ghost all = channel::contents(cmds@);
    let mut i: usize = 0;
    assert(all.take(0) =~= Seq::empty());
    assert(before + Seq::<u8>::empty() =~= before);
    while i < cmds.len()
        invariant
            i <= cmds@.len(),
            all == channel::contents(cmds@),
            before.len() + concat(all).len() <= isize::MAX,
            buffer::written(*buf) == before + concat(all.take(i as int)),
        decreases cmds@.len() - i,
    {
        proof {
            assert(all.take(i + 1) =~= all.take(i as int).push(all[i as int]));
            lemma_concat_push(all.take(i as int), all[i as int]);
            lemma_concat_prefix(all, i + 1);
            assert(all[i as int] == buffer::content(cmds@[i as int]));
        }
        buf.extend_from_slice(buffer::as_slice(&cmds[i]));
        assert(buffer::written(*buf) =~= before + concat(all.take(i + 1)));
        i += 1;
    }
    assert(all.take(i as int) =~= all);
}

proof fn lemma_concat_prefix(parts: Seq<Seq<u8>>, i: int)
    requires
        0 <= i <= parts.len(),
    ensures
        concat(parts.take(i)).len() <= concat(parts).len(),
    decreases parts.len() - i,
{
    if i < parts.len() {
        lemma_concat_prefix(parts, i + 1);
        assert(parts.take(i + 1) =~= parts.take(i).push(parts[i]));
        lemma_concat_push(parts.take(i), parts[i]);
    } else {
        assert(parts.take(i) =~= parts);
    }
}

/// The datagram that carries `cmds`, with `id` in its checksum.
pub fn frame(
    peer_id: u16,
    session_id: u8,
    id: u32,
    ck: bool,
    cmds: &[Bytes],
    now_ms: u32,
) -> (r: Bytes)
    requires
        8 + concat(channel::contents(cmds@)).len() <= isize::MAX,
    ensures
        buffer::content(r) == framed(
            peer_id,
            session_id,
            id,
            ck,
            concat(channel::contents(cmds@)),
            now_ms,
        ),
{
    reveal(framed);
    let ghost head = datagram_header(peer_id, session_id, now_ms);
    let ghost body = concat(channel::contents(cmds@));
    assert(now_ms as u16 == now_ms % 0x1_0000) by (bit_vector);
    let hdr = ProtocolHeader::new(
        peer_id,
        session_id,
        HEADER_FLAG_SENT_TIME,
        Some(now_ms as u16),
    );
    let mut buf = BytesMut::new();
    hdr.write(&mut buf);
    assert(buffer::written(buf) =~= head);
    if ck {
        buf.extend_from_slice(&wire::to_be32(id));
        append_all(&mut buf, cmds);
        let sum: u32 = crc32(buffer::written_slice(&buf));
        assert(buffer::written(buf) == head + wire::be32(id) + body);
        let bytes = wire::to_be32(sum);
        let s: &mut [u8] = buffer::written_slice_mut(&mut buf);
        s[4] = bytes[0];
        s[5] = bytes[1];
        s[6] = bytes[2];
        s[7] = bytes[3];
        assert(buffer::written(buf) =~= head + wire::be32(sum) + body);
    } else {
        append_all(&mut buf, cmds);
    }
    buf.freeze()
}

impl PeerEntry {
    /// The datagram that carries `cmds`.
    pub fn make_datagram(&self, ck: bool, cmds: &[Bytes], now_ms: u32) -> (r: Bytes)
        requires
            8 + concat(channel::contents(cmds@)).len() <= isize::MAX,
        ensures
            buffer::content(r) == self@.datagram(ck, channel::contents(cmds@), now_ms),
    {
        let id: u32 = if self.outgoing_peer_id == PEER_ID_UNASSIGNED {
            0
        } else {
            self.connect_id
        };
        frame(self.outgoing_peer_id, self.outgoing_session_id, id, ck, cmds, now_ms)
    }

    /// Sends all of `cmds` in one datagram.
    pub fn emit(&mut self, ck: bool, cmds: &[Bytes], now_ms: u32, out: &mut Vec<Action>)
        requires
            8 + concat(channel::contents(cmds@)).len() <= isize::MAX,
        ensures
            final(self)@ == old(self)@.sent(channel::contents(cmds@), now_ms),
            peer::actions(final(out)@) == peer::actions(old(out)@) + old(self)@.emitted(
                ck,
                channel::contents(cmds@),
                now_ms,
            ),
            final(self).channels == old(self).channels,
    {
        if cmds.len() == 0 {
            assert(peer::actions(out@) =~= peer::actions(out@) + Seq::<ActionView>::empty());
            return;
        }
        let datagram = self.make_datagram(ck, cmds, now_ms);
        let ghost before = peer::actions(out@);
        out.push(Action::SendTo { addr: self.addr, datagram });
        self.last_send_time = now_ms;
        assert(peer::actions(out@) =~= before + old(self)@.emitted(
            ck,
            channel::contents(cmds@),
            now_ms,
        ));
    }

    /// Sends `cmds` in datagrams of up to one MTU.
    pub fn flush_batch(&mut self, ck: bool, cmds: Vec<Bytes>, now_ms: u32, out: &mut Vec<Action>)
        requires
            old(self)@.mtu_fits() || 8 + concat(channel::contents(cmds@)).len() <= isize::MAX,
            forall|i: int|
                0 <= i < cmds@.len() ==> buffer::content(#[trigger] cmds@[i]).len() + 8
                    <= isize::MAX,
        ensures
            final(self)@ == old(self)@.sent(channel::contents(cmds@), now_ms),
            peer::actions(final(out)@) == peer::actions(old(out)@) + old(self)@.flushed(
                ck,
                channel::contents(cmds@),
                now_ms,
            ),
            final(self).channels == old(self).channels,
    {
        let mtu: u64 = self.mtu as u64;
        let hdr: u64 = if ck {
            8
        } else {
            4
        };
        let ghost all = channel::contents(cmds@);
        let ghost room = self@.room(ck);
        let ghost start = peer::actions(out@);
        let ghost this = self@;
        let mut batch: Vec<Bytes> = Vec::new();
        let mut size: u64 = hdr;
        let mut i: usize = 0;
        proof {
            assert(channel::contents(batch@) =~= Seq::empty());
            assert(all.take(0) =~= Seq::empty());
            assert(this.datagrams(ck, Seq::empty(), now_ms) =~= Seq::empty());
            assert(start =~= start + Seq::<ActionView>::empty());
        }
        let ghost mut groups: Seq<Seq<Seq<u8>>> = Seq::empty();
        while i < cmds.len()
            invariant
                i <= cmds@.len(),
                all == channel::contents(cmds@),
                room == this.room(ck),
                mtu == this.mtu,
                hdr == 4 + peer::checksum_size(ck),
                this.mtu_fits() || 8 + concat(all).len() <= isize::MAX,
                forall|j: int|
                    0 <= j < cmds@.len() ==> buffer::content(#[trigger] cmds@[j]).len() + 8
                        <= isize::MAX,
                batch@.len() == 0 <==> i == 0,
                i == 0 ==> groups.len() == 0,
                i > 0 ==> batches(all.take(i as int), room) == groups.push(
                    channel::contents(batch@),
                ),
                size == hdr + concat(channel::contents(batch@)).len(),
                concat(channel::contents(batch@)).len() <= room || batch@.len() <= 1,
                concat(channel::contents(batch@)).len() + 8 <= isize::MAX,
                concat(channel::contents(batch@)).len() <= concat(all.take(i as int)).len(),
                peer::actions(out@) == start + this.datagrams(ck, groups, now_ms),
                self@ == this || self@ == (PeerView { last_send_time: now_ms, ..this }),
                groups.len() == 0 ==> self@ == this,
                self.channels == old(self).channels,
            decreases cmds@.len() - i,
        {
            let cmd: Bytes = cmds[i].clone();
            let n: u64 = cmd.len() as u64;
            proof {
                assert(all[i as int] == buffer::content(cmds@[i as int]));
                assert(all.take(i + 1) =~= all.take(i as int).push(all[i as int]));
                assert(all.take(i + 1).drop_last() =~= all.take(i as int));
                lemma_concat_push(all.take(i as int), all[i as int]);
                lemma_concat_prefix(all, i + 1);
            }
            if (size + n > mtu || batch.len() >= MAX_COMMANDS_PER_PACKET) && batch.len() > 0 {
                self.emit(ck, &batch, now_ms, out);
                proof {
                    groups = groups.push(channel::contents(batch@));
                    assert(peer::actions(out@) =~= start + this.datagrams(ck, groups, now_ms));
                }
                batch = Vec::new();
                assert(channel::contents(batch@) =~= Seq::empty());
                size = hdr;
            }
            let ghost held = channel::contents(batch@);
            size = size + n;
            batch.push(cmd);
            proof {
                assert(channel::contents(batch@) =~= held.push(all[i as int]));
                lemma_concat_push(held, all[i as int]);
                if held.len() == 0 {
                    assert(held =~= Seq::empty());
                    assert(channel::contents(batch@) =~= seq![all[i as int]]);
                    if i > 0 {
                        assert(batches(all.take(i + 1), room) =~= groups.push(seq![all[i as int]]));
                    } else {
                        assert(groups =~= Seq::empty());
                        assert(batches(all.take(0), room) == Seq::<Seq<Seq<u8>>>::empty());
                        assert(batches(all.take(1), room) =~= groups.push(seq![all[0]]));
                    }
                } else {
                    let before = batches(all.take(i as int), room);
                    assert(before.last() == held);
                    assert(before.update(before.len() - 1, held.push(all[i as int]))
                        =~= groups.push(held.push(all[i as int])));
                }
            }
            i += 1;
        }
        assert(all.take(i as int) =~= all);
        if batch.len() > 0 {
            self.emit(ck, &batch, now_ms, out);
            assert(peer::actions(out@) =~= start + this.datagrams(
                ck,
                groups.push(channel::contents(batch@)),
                now_ms,
            ));
        } else {
            assert(all =~= Seq::empty());
        }
    }
}

} // verus!
