//! The handshake: CONNECT on both sides.

use std::collections::VecDeque;

use vstd::prelude::*;

use bytes::Bytes;
use rand::Rng;

use crate::address::{Address, PeerKey};
use crate::buffer;
use crate::channel;
use crate::channel::{encode_command, Channel, ChannelView, UnsequencedWindow};
use crate::peer;
use crate::peer::budget;
use crate::peer::emit;
use crate::peer::receive;
use crate::peer::receive::{clamped_window, window_for};
use crate::peer::send;
use crate::peer::{Action, ActionView, PeerEntry, PeerState, PeerView};
use crate::protocol::command;
use crate::protocol::{
    AcknowledgeCmd, CommandBody, ConnectCmd, DisconnectCmd, VerifyConnectCmd,
    CHANNEL_ID_CONNECTION, CMD_ACKNOWLEDGE, CMD_CONNECT, CMD_DISCONNECT, CMD_VERIFY_CONNECT,
    DEFAULT_PACKET_THROTTLE, DEFAULT_RTT_MS, MTU_MAX, MTU_MIN, PEER_ID_UNASSIGNED,
    THROTTLE_ACCELERATION, THROTTLE_DECELERATION, THROTTLE_INTERVAL_MS, WINDOW_SIZE_MAX,
};
use crate::task;
use crate::task::{HostTask, HostView};

verus! {

/// The bytes of an acknowledgement.
pub open spec fn ack_command(channel_id: u8, seq: u16, sent_time: u16) -> Seq<u8> {
    channel::encoded(
        CMD_ACKNOWLEDGE,
        0,
        channel_id,
        0,
        command::BodyView::Acknowledge(
            AcknowledgeCmd { received_reliable_seq: seq, received_sent_time: sent_time },
        ),
    )
}

/// The session that follows the one that the remote side declares, where it
/// declares one. Else the session that follows the previous one of the slot,
/// or the one after that where it is `other`, the outgoing session that the
/// remote side declares.
pub open spec fn next_session(declared: u8, previous: u8, other: u8) -> u8 {
    if declared != 0xFF {
        ((declared + 1) % 4) as u8
    } else if (previous + 1) % 4 == other {
        ((previous + 2) % 4) as u8
    } else {
        ((previous + 1) % 4) as u8
    }
}

/// The MTU that a server grants: the client's within the limits, and no more
/// than the host's.
pub open spec fn granted_mtu(requested: u32, host_mtu: u32) -> u32 {
    let clamped = if requested < MTU_MIN {
        MTU_MIN
    } else if requested > MTU_MAX {
        MTU_MAX
    } else {
        requested
    };
    if clamped < host_mtu {
        clamped
    } else {
        host_mtu
    }
}

/// The smaller of two numbers.
pub open spec fn least(a: u32, b: u32) -> u32 {
    if a < b {
        a
    } else {
        b
    }
}

/// The window for what the server sends: by the smaller of the server's
/// outgoing and the client's incoming bandwidth, where both are limited, else
/// by the limited one.
pub open spec fn peer_window(server_out: u32, client_in: u32) -> u32 {
    if server_out == 0 {
        receive::bandwidth_window(client_in)
    } else if client_in == 0 {
        receive::bandwidth_window(server_out)
    } else {
        receive::bandwidth_window(least(server_out, client_in))
    }
}

/// How many channels a server opens: the low byte of the request, and at
/// least one.
pub open spec fn granted_channels(requested: u32) -> u8 {
    if requested % 256 == 0 {
        1
    } else {
        (requested % 256) as u8
    }
}

/// The datagram that refuses a connection. Its checksum, where there is one, is
/// over the client's connect ID.
pub open spec fn refusal(connect: ConnectCmd, ck: bool, now: u32) -> Seq<u8> {
    emit::framed(
        connect.outgoing_peer_id,
        0,
        connect.connect_id,
        ck,
        channel::encoded(
            CMD_DISCONNECT,
            0,
            CHANNEL_ID_CONNECTION,
            0,
            command::BodyView::Disconnect(DisconnectCmd { data: 0 }),
        ),
        now,
    )
}

impl HostView {
    /// The client's side of a connection before CONNECT is sent.
    pub open spec fn client_peer(
        self,
        addr: Address,
        channel_count: u8,
        connect_id: u32,
        now: u32,
    ) -> PeerView {
        PeerView {
            connect_id,
            mtu: self.host_mtu,
            window_size: WINDOW_SIZE_MAX,
            throttle_interval: THROTTLE_INTERVAL_MS,
            throttle_acceleration: THROTTLE_ACCELERATION,
            throttle_deceleration: THROTTLE_DECELERATION,
            reply_held: true,
            ..PeerView::fresh(
                addr,
                PeerState::Connecting,
                if channel_count == 0 {
                    1
                } else {
                    channel_count as int
                },
                now,
            )
        }
    }

    /// What CONNECT says.
    pub open spec fn connect_body(self, slot: int, channel_count: u8, connect_id: u32, data: u32)
        -> ConnectCmd {
        ConnectCmd {
            outgoing_peer_id: (slot % 0x1_0000) as u16,
            incoming_session_id: 0xFF,
            outgoing_session_id: 0xFF,
            mtu: self.host_mtu,
            window_size: WINDOW_SIZE_MAX,
            channel_count: if channel_count == 0 {
                1
            } else {
                channel_count as u32
            },
            incoming_bandwidth: self.incoming_bandwidth,
            outgoing_bandwidth: self.outgoing_bandwidth,
            throttle_interval: THROTTLE_INTERVAL_MS,
            throttle_acceleration: THROTTLE_ACCELERATION,
            throttle_deceleration: THROTTLE_DECELERATION,
            connect_id,
            data,
        }
    }

    /// The host with a new peer in a slot.
    pub open spec fn with_new_peer(self, slot: int, p: PeerView) -> Self {
        HostView {
            peers: self.peers.update(slot, Some(p)),
            addr_map: self.addr_map.insert(p.addr, PeerKey(slot as usize)),
            ..self
        }
    }

    /// A connection attempt under a connect ID: the host with the new peer,
    /// where there is a free slot, and the bytes of CONNECT.
    pub open spec fn begin_connect(
        self,
        addr: Address,
        channel_count: u8,
        data: u32,
        connect_id: u32,
        now: u32,
    ) -> (Self, Option<(PeerKey, Seq<u8>)>) {
        match self.free_slot() {
            None => (self, None),
            Some(slot) => {
                let p = self.client_peer(addr, channel_count, connect_id, now);
                let body = command::BodyView::Connect(
                    self.connect_body(slot, channel_count, connect_id, data),
                );
                (
                    self.with_new_peer(
                        slot,
                        p.with_reliable(CHANNEL_ID_CONNECTION, CMD_CONNECT, body, now),
                    ),
                    Some(
                        (
                            PeerKey(slot as usize),
                            p.reliable_command(CHANNEL_ID_CONNECTION, CMD_CONNECT, body),
                        ),
                    ),
                )
            },
        }
    }

    /// A connection attempt under a connect ID, with CONNECT sent.
    pub open spec fn connect(
        self,
        addr: Address,
        channel_count: u8,
        data: u32,
        connect_id: u32,
        now: u32,
    ) -> (Self, Seq<ActionView>) {
        match self.begin_connect(addr, channel_count, data, connect_id, now) {
            (h, None) => (h, Seq::empty()),
            (h, Some((key, cmd))) => h.emit(key, seq![cmd], now),
        }
    }

    /// The window that is granted to a client: the smallest of what the two
    /// sides' bandwidths allow and of what the client asks for, within the
    /// limits.
    pub open spec fn granted_window(self, connect: ConnectCmd) -> u32 {
        receive::clamp_window(
            least(
                least(
                    receive::bandwidth_window(self.incoming_bandwidth),
                    peer_window(self.outgoing_bandwidth, connect.incoming_bandwidth),
                ),
                connect.window_size,
            ),
        )
    }

    /// The incoming and the outgoing session that a client gets in a slot.
    pub open spec fn next_sessions(self, slot: int, connect: ConnectCmd) -> (u8, u8) {
        let other = connect.outgoing_session_id;
        (
            next_session(connect.incoming_session_id, self.sessions[slot].0, other),
            next_session(connect.outgoing_session_id, self.sessions[slot].1, other),
        )
    }

    /// The host with the sessions of a slot noted.
    pub open spec fn with_sessions(self, slot: int, pair: (u8, u8)) -> Self {
        HostView { sessions: self.sessions.update(slot, pair), ..self }
    }

    /// The server's side of a connection before VERIFY_CONNECT is sent.
    pub open spec fn server_peer(
        self,
        slot: int,
        connect: ConnectCmd,
        seq: u16,
        from: Address,
        now: u32,
    ) -> PeerView {
        PeerView {
            outgoing_peer_id: connect.outgoing_peer_id,
            connect_id: connect.connect_id,
            incoming_session_id: self.next_sessions(slot, connect).0,
            outgoing_session_id: self.next_sessions(slot, connect).1,
            mtu: granted_mtu(connect.mtu, self.host_mtu),
            window_size: self.granted_window(connect),
            throttle_interval: connect.throttle_interval,
            throttle_acceleration: connect.throttle_acceleration,
            throttle_deceleration: connect.throttle_deceleration,
            incoming_reliable_seq: seq,
            ..PeerView::fresh(
                from,
                PeerState::AcknowledgingConnect,
                granted_channels(connect.channel_count) as int,
                now,
            )
        }
    }

    /// What VERIFY_CONNECT says. The sessions are those of the client: the
    /// one it will see and the one it is to use.
    pub open spec fn verify_body(self, slot: int, connect: ConnectCmd) -> VerifyConnectCmd {
        VerifyConnectCmd {
            outgoing_peer_id: (slot % 0x1_0000) as u16,
            incoming_session_id: self.next_sessions(slot, connect).1,
            outgoing_session_id: self.next_sessions(slot, connect).0,
            mtu: granted_mtu(connect.mtu, self.host_mtu),
            window_size: self.granted_window(connect),
            channel_count: granted_channels(connect.channel_count) as u32,
            incoming_bandwidth: self.incoming_bandwidth,
            outgoing_bandwidth: self.outgoing_bandwidth,
            throttle_interval: connect.throttle_interval,
            throttle_acceleration: connect.throttle_acceleration,
            throttle_deceleration: connect.throttle_deceleration,
            connect_id: connect.connect_id,
        }
    }

    /// A CONNECT: ignored from a known address, refused where there is no
    /// free slot, else answered with an acknowledgement, where the time it
    /// was sent is known, and VERIFY_CONNECT.
    pub open spec fn on_connect(
        self,
        connect: ConnectCmd,
        seq: u16,
        sent_time: Option<u16>,
        from: Address,
        now: u32,
    ) -> (Self, Seq<ActionView>) {
        if self.addr_map.contains_key(from) {
            (self, Seq::empty())
        } else {
            match self.free_slot() {
                None => (
                    self,
                    seq![
                        ActionView::SendTo {
                            addr: from,
                            datagram: refusal(connect, self.use_checksum, now),
                        },
                    ],
                ),
                Some(slot) => {
                    let p = self.server_peer(slot, connect, seq, from, now);
                    let body = command::BodyView::VerifyConnect(self.verify_body(slot, connect));
                    let verify = p.reliable_command(
                        CHANNEL_ID_CONNECTION,
                        CMD_VERIFY_CONNECT,
                        body,
                    );
                    let cmds = match sent_time {
                        Some(st) => seq![ack_command(CHANNEL_ID_CONNECTION, seq, st), verify],
                        None => seq![verify],
                    };
                    self.with_sessions(slot, self.next_sessions(slot, connect)).with_new_peer(
                        slot,
                        p.with_reliable(CHANNEL_ID_CONNECTION, CMD_VERIFY_CONNECT, body, now),
                    ).emit(PeerKey(slot as usize), cmds, now)
                },
            }
        }
    }
}

/// A new peer is well-formed.
pub proof fn lemma_fresh_wf(addr: Address, state: PeerState, channels: int, now: u32, ck: bool)
    requires
        1 <= channels <= 255,
    ensures
        PeerView::fresh(addr, state, channels, now).wf(ck),
{
    budget::lemma_fresh_held(channels as nat);
}

/// Law: both sides of a new connection are well-formed.
pub proof fn lemma_new_peers_wf(
    h: HostView,
    addr: Address,
    channel_count: u8,
    connect_id: u32,
    slot: int,
    connect: ConnectCmd,
    seq: u16,
    now: u32,
    ck: bool,
)
    ensures
        h.client_peer(addr, channel_count, connect_id, now).wf(ck),
        h.server_peer(slot, connect, seq, addr, now).wf(ck),
{
    let n = if channel_count == 0 {
        1
    } else {
        channel_count as int
    };
    lemma_fresh_wf(addr, PeerState::Connecting, n, now, ck);
    lemma_fresh_wf(
        addr,
        PeerState::AcknowledgingConnect,
        granted_channels(connect.channel_count) as int,
        now,
        ck,
    );
}

/// A new peer in a free slot keeps the host well-formed.
pub proof fn lemma_with_new_peer_wf(h: HostView, slot: int, p: PeerView)
    requires
        h.wf(),
        h.free_slot() == Some(slot),
        slot <= usize::MAX,
        p.wf(h.use_checksum),
    ensures
        h.with_new_peer(slot, p).wf(),
        h.with_new_peer(slot, p).live(PeerKey(slot as usize)),
        h.with_new_peer(slot, p).peer(PeerKey(slot as usize)) == p,
{
    task::lemma_free_slot(h.peers, 0);
    let g = h.with_new_peer(slot, p);
    assert forall|a: Address| #[trigger] g.addr_map.contains_key(a) implies g.live(g.addr_map[a])
        && g.peer(g.addr_map[a]).addr == a by {
        if a != p.addr {
            assert(h.addr_map.contains_key(a));
        }
    }
}

/// `rand::thread_rng().gen()`: a random number. Nothing is known of it.
#[verifier::external_body]
fn random_u32() -> (r: u32) {
    rand::thread_rng().gen()
}

/// The bytes of an acknowledgement.
pub fn ack(channel_id: u8, seq: u16, sent_time: u16) -> (r: Bytes)
    ensures
        buffer::content(r) == ack_command(channel_id, seq, sent_time),
        buffer::content(r).len() == 8,
{
    let body = CommandBody::Acknowledge(
        AcknowledgeCmd { received_reliable_seq: seq, received_sent_time: sent_time },
    );
    proof {
        channel::lemma_encoded_len(CMD_ACKNOWLEDGE, 0, channel_id, 0, body@);
    }
    encode_command(CMD_ACKNOWLEDGE, 0, channel_id, 0, &body)
}

/// Empty channels.
fn new_channels(n: u8) -> (r: Vec<Channel>)
    ensures
        peer::channel_views(r@) == Seq::new(n as nat, |i: int| ChannelView::fresh()),
        forall|i: int| 0 <= i < r@.len() ==> (#[trigger] r@[i]).wf(),
{
    let mut r: Vec<Channel> = Vec::new();
    let mut i: u8 = 0;
    while i < n
        invariant
            i <= n,
            r@.len() == i,
            forall|j: int|
                0 <= j < r@.len() ==> (#[trigger] r@[j]).wf() && r@[j]@ == ChannelView::fresh(),
        decreases n - i,
    {
        r.push(Channel::new());
        i += 1;
    }
    assert(peer::channel_views(r@) =~= Seq::new(n as nat, |i: int| ChannelView::fresh()));
    r
}

/// A new peer.
fn new_peer(addr: Address, state: PeerState, channels: u8, now_ms: u32, ck: bool) -> (r: PeerEntry)
    requires
        channels >= 1,
    ensures
        r@ == PeerView::fresh(addr, state, channels as int, now_ms),
        r.wf(ck),
{
    proof {
        lemma_fresh_wf(addr, state, channels as int, now_ms, ck);
    }
    let r = PeerEntry {
        addr,
        state,
        outgoing_peer_id: PEER_ID_UNASSIGNED,
        connect_id: 0,
        incoming_session_id: 0xFF,
        outgoing_session_id: 0xFF,
        mtu: 0,
        window_size: 0,
        packet_throttle: DEFAULT_PACKET_THROTTLE,
        throttle_interval: 0,
        throttle_acceleration: 0,
        throttle_deceleration: 0,
        rtt: DEFAULT_RTT_MS,
        rtt_var: DEFAULT_RTT_MS / 2,
        rtt_initialized: false,
        last_send_time: now_ms,
        last_receive_time: now_ms,
        channels: new_channels(channels),
        unsequenced_window: UnsequencedWindow::new(),
        outgoing_reliable: Vec::new(),
        pending_send: VecDeque::new(),
        fragment_bytes_in_flight: 0,
        packet_throttle_epoch: 0,
        rtt_at_throttle_epoch: DEFAULT_RTT_MS,
        handle_held: true,
        reply_held: false,
        incoming_reliable_seq: 0,
        outgoing_reliable_seq: 0,
    };
    assert(r@ =~= PeerView::fresh(addr, state, channels as int, now_ms));
    r
}

/// The low 16 bits of a slot number.
fn low_16(n: usize) -> (r: u16)
    ensures
        r == n as int % 0x1_0000,
{
    let wide: u64 = n as u64;
    assert(wide as u16 == wide % 0x1_0000) by (bit_vector);
    wide as u16
}

/// The session that follows the declared one, or the previous one.
fn session_after(declared: u8, previous: u8, other: u8) -> (r: u8)
    ensures
        r == next_session(declared, previous, other),
{
    if declared != 0xFF {
        return declared.wrapping_add(1) % 4;
    }
    let next: u8 = previous.wrapping_add(1) % 4;
    if next == other {
        (next + 1) % 4
    } else {
        next
    }
}

/// The MTU that a server grants.
fn mtu_for(requested: u32, host_mtu: u32) -> (r: u32)
    ensures
        r == granted_mtu(requested, host_mtu),
{
    let clamped: u32 = if requested < MTU_MIN {
        MTU_MIN
    } else if requested > MTU_MAX {
        MTU_MAX
    } else {
        requested
    };
    if clamped < host_mtu {
        clamped
    } else {
        host_mtu
    }
}

/// The smaller of two numbers.
pub fn smaller(a: u32, b: u32) -> (r: u32)
    ensures
        r == least(a, b),
{
    if a < b {
        a
    } else {
        b
    }
}

/// The window for what the server sends.
fn window_between(server_out: u32, client_in: u32) -> (r: u32)
    ensures
        r == peer_window(server_out, client_in),
{
    if server_out == 0 {
        window_for(client_in)
    } else if client_in == 0 {
        window_for(server_out)
    } else {
        window_for(smaller(server_out, client_in))
    }
}

/// How many channels a server opens.
fn channels_for(requested: u32) -> (r: u8)
    ensures
        r == granted_channels(requested),
        r >= 1,
{
    assert(requested as u8 == requested % 256) by (bit_vector);
    let low: u8 = requested as u8;
    if low == 0 {
        1
    } else {
        low
    }
}

impl HostTask {
    /// Puts a new peer in a free slot.
    fn install(&mut self, slot: usize, entry: PeerEntry)
        requires
            old(self).wf(),
            old(self)@.free_slot() == Some(slot as int),
            entry.wf(old(self).use_checksum),
        ensures
            final(self).wf(),
            final(self)@ == old(self)@.with_new_peer(slot as int, entry@),
    {
        let ghost before = self.peers@;
        proof {
            task::lemma_free_slot(self@.peers, 0);
            lemma_with_new_peer_wf(self@, slot as int, entry@);
            task::lemma_slot_update(before, slot as int, Some(entry));
        }
        self.addr_map.insert(entry.addr, PeerKey(slot));
        self.peers.set(slot, Some(entry));
        assert(self@ =~= old(self)@.with_new_peer(slot as int, entry@));
    }

    /// Starts a connection attempt under a connect ID. Returns the new key
    /// and the bytes of CONNECT, or nothing where there is no free slot.
    pub fn begin_connect_with(
        &mut self,
        addr: Address,
        channel_count: u8,
        user_data: u32,
        connect_id: u32,
        now_ms: u32,
    ) -> (r: Option<(PeerKey, Bytes)>)
        requires
            old(self).wf(),
        ensures
            final(self).wf(),
            final(self)@ == old(self)@.begin_connect(
                addr,
                channel_count,
                user_data,
                connect_id,
                now_ms,
            ).0,
            match r {
                Some((k, c)) => old(self)@.begin_connect(
                    addr,
                    channel_count,
                    user_data,
                    connect_id,
                    now_ms,
                ).1 == Some((k, buffer::content(c))) && final(self)@.live(k) && buffer::content(
                    c,
                ).len() == 48,
                None => old(self)@.begin_connect(
                    addr,
                    channel_count,
                    user_data,
                    connect_id,
                    now_ms,
                ).1 is None,
            },
    {
        let ck: bool = self.use_checksum;
        let slot: usize = match self.alloc_slot() {
            Some(s) => s,
            None => return None,
        };
        let ch: u8 = if channel_count == 0 {
            1
        } else {
            channel_count
        };
        let mut entry = new_peer(addr, PeerState::Connecting, ch, now_ms, ck);
        entry.connect_id = connect_id;
        entry.mtu = self.host_mtu;
        entry.window_size = WINDOW_SIZE_MAX;
        entry.throttle_interval = THROTTLE_INTERVAL_MS;
        entry.throttle_acceleration = THROTTLE_ACCELERATION;
        entry.throttle_deceleration = THROTTLE_DECELERATION;
        entry.reply_held = true;
        proof {
            assert(entry@ =~= self@.client_peer(addr, channel_count, connect_id, now_ms));
        }
        let body = CommandBody::Connect(
            ConnectCmd {
                outgoing_peer_id: low_16(slot),
                incoming_session_id: 0xFF,
                outgoing_session_id: 0xFF,
                mtu: self.host_mtu,
                window_size: WINDOW_SIZE_MAX,
                channel_count: ch as u32,
                incoming_bandwidth: self.incoming_bandwidth,
                outgoing_bandwidth: self.outgoing_bandwidth,
                throttle_interval: THROTTLE_INTERVAL_MS,
                throttle_acceleration: THROTTLE_ACCELERATION,
                throttle_deceleration: THROTTLE_DECELERATION,
                connect_id,
                data: user_data,
            },
        );
        proof {
            channel::lemma_encoded_len(
                CMD_CONNECT,
                0x80,
                CHANNEL_ID_CONNECTION,
                entry@.next_seq(CHANNEL_ID_CONNECTION),
                body@,
            );
        }
        let cmd = entry.make_reliable(ck, CHANNEL_ID_CONNECTION, CMD_CONNECT, now_ms, &body);
        proof {
            lemma_with_new_peer_wf(self@, slot as int, entry@);
        }
        self.install(slot, entry);
        Some((PeerKey(slot), cmd))
    }

    /// Starts a connection attempt under a random connect ID.
    pub fn begin_connect(
        &mut self,
        addr: Address,
        channel_count: u8,
        user_data: u32,
        now_ms: u32,
    ) -> (r: Option<(PeerKey, Bytes)>)
        requires
            old(self).wf(),
        ensures
            final(self).wf(),
            r is Some <==> old(self)@.free_slot() is Some,
            exists|connect_id: u32|
                {
                    let (h, started) = #[trigger] old(self)@.begin_connect(
                        addr,
                        channel_count,
                        user_data,
                        connect_id,
                        now_ms,
                    );
                    &&& final(self)@ == h
                    &&& r matches Some((k, c)) ==> started == Some((k, buffer::content(c)))
                        && buffer::content(c).len() == 48
                    &&& r is None ==> started is None
                },
    {
        let connect_id: u32 = random_u32();
        let r = self.begin_connect_with(addr, channel_count, user_data, connect_id, now_ms);
        assert(self@ == old(self)@.begin_connect(
            addr,
            channel_count,
            user_data,
            connect_id,
            now_ms,
        ).0);
        r
    }

    /// Starts a connection attempt under a connect ID and sends CONNECT.
    /// Returns the new key, or nothing where there is no free slot.
    pub fn connect_with(
        &mut self,
        addr: Address,
        channel_count: u8,
        user_data: u32,
        connect_id: u32,
        now_ms: u32,
        out: &mut Vec<Action>,
    ) -> (r: Option<PeerKey>)
        requires
            old(self).wf(),
        ensures
            final(self).wf(),
            final(self)@ == old(self)@.connect(
                addr,
                channel_count,
                user_data,
                connect_id,
                now_ms,
            ).0,
            peer::actions(final(out)@) == peer::actions(old(out)@) + old(self)@.connect(
                addr,
                channel_count,
                user_data,
                connect_id,
                now_ms,
            ).1,
            r == (match old(self)@.free_slot() {
                Some(slot) => Some(PeerKey(slot as usize)),
                None => None,
            }),
    {
        match self.begin_connect_with(addr, channel_count, user_data, connect_id, now_ms) {
            Some((key, cmd)) => {
                let one = [cmd];
                proof {
                    assert(channel::contents(one@) =~= seq![buffer::content(cmd)]);
                    send::lemma_single(self@.peer(key), false, buffer::content(cmd), now_ms);
                }
                self.emit_by_key(key, &one, now_ms, out);
                Some(key)
            },
            None => {
                assert(peer::actions(out@) + Seq::<ActionView>::empty() =~= peer::actions(out@));
                None
            },
        }
    }

    /// Connects to a host under a random connect ID.
    pub fn connect(
        &mut self,
        addr: Address,
        channel_count: u8,
        user_data: u32,
        now_ms: u32,
        out: &mut Vec<Action>,
    ) -> (r: Option<PeerKey>)
        requires
            old(self).wf(),
        ensures
            final(self).wf(),
            r == (match old(self)@.free_slot() {
                Some(slot) => Some(PeerKey(slot as usize)),
                None => None,
            }),
            exists|connect_id: u32|
                {
                    let (h, sent) = #[trigger] old(self)@.connect(
                        addr,
                        channel_count,
                        user_data,
                        connect_id,
                        now_ms,
                    );
                    final(self)@ == h && peer::actions(final(out)@) == peer::actions(old(out)@)
                        + sent
                },
    {
        match self.begin_connect(addr, channel_count, user_data, now_ms) {
            Some((key, cmd)) => {
                let ghost id = choose|connect_id: u32|
                    {
                        let (h, started) = #[trigger] old(self)@.begin_connect(
                            addr,
                            channel_count,
                            user_data,
                            connect_id,
                            now_ms,
                        );
                        self@ == h && started == Some((key, buffer::content(cmd)))
                    };
                let one = [cmd];
                proof {
                    assert(channel::contents(one@) =~= seq![buffer::content(cmd)]);
                    send::lemma_single(self@.peer(key), false, buffer::content(cmd), now_ms);
                }
                self.emit_by_key(key, &one, now_ms, out);
                assert(self@ == old(self)@.connect(
                    addr,
                    channel_count,
                    user_data,
                    id,
                    now_ms,
                ).0);
                Some(key)
            },
            None => {
                assert(peer::actions(out@) + Seq::<ActionView>::empty() =~= peer::actions(out@));
                assert(self@ == old(self)@.connect(addr, channel_count, user_data, 0, now_ms).0);
                None
            },
        }
    }

    /// Send a bare CMD_DISCONNECT datagram to `addr` without needing a peer slot.
    /// Used to reject incoming CONNECT requests when no slot is available.
    fn send_raw_disconnect(
        &self,
        connect: &ConnectCmd,
        addr: Address,
        now_ms: u32,
        out: &mut Vec<Action>,
    )
        ensures
            peer::actions(final(out)@) == peer::actions(old(out)@).push(
                ActionView::SendTo {
                    addr,
                    datagram: refusal(*connect, self.use_checksum, now_ms),
                },
            ),
    {
        let body = CommandBody::Disconnect(DisconnectCmd { data: 0 });
        proof {
            channel::lemma_encoded_len(CMD_DISCONNECT, 0, CHANNEL_ID_CONNECTION, 0, body@);
        }
        let cmd = encode_command(CMD_DISCONNECT, 0, CHANNEL_ID_CONNECTION, 0, &body);
        let ghost bytes = buffer::content(cmd);
        let cmds = [cmd];
        proof {
            assert(channel::contents(cmds@) =~= seq![bytes]);
            lemma_one(bytes);
        }
        // The client's slot, so that it recognises the datagram.
        let datagram = emit::frame(
            connect.outgoing_peer_id,
            0,
            connect.connect_id,
            self.use_checksum,
            &cmds,
            now_ms,
        );
        let ghost before = peer::actions(out@);
        out.push(Action::SendTo { addr, datagram });
        assert(peer::actions(out@) =~= before.push(
            ActionView::SendTo { addr, datagram: refusal(*connect, self.use_checksum, now_ms) },
        ));
    }

    /// The server's side of a new connection.
    fn accept_peer(
        &self,
        slot: usize,
        connect: &ConnectCmd,
        seq: u16,
        from: Address,
        now_ms: u32,
    ) -> (r: PeerEntry)
        requires
            slot < self.sessions@.len(),
        ensures
            r@ == self@.server_peer(slot as int, *connect, seq, from, now_ms),
            r.wf(self.use_checksum),
    {
        let ch: u8 = channels_for(connect.channel_count);
        let mut entry = new_peer(
            from,
            PeerState::AcknowledgingConnect,
            ch,
            now_ms,
            self.use_checksum,
        );
        entry.outgoing_peer_id = connect.outgoing_peer_id;
        entry.connect_id = connect.connect_id;
        let (incoming, outgoing): (u8, u8) = self.sessions[slot];
        let other: u8 = connect.outgoing_session_id;
        entry.incoming_session_id = session_after(connect.incoming_session_id, incoming, other);
        entry.outgoing_session_id = session_after(connect.outgoing_session_id, outgoing, other);
        entry.mtu = mtu_for(connect.mtu, self.host_mtu);
        let server_window: u32 = window_for(self.incoming_bandwidth);
        let client_window: u32 = window_between(
            self.outgoing_bandwidth,
            connect.incoming_bandwidth,
        );
        entry.window_size = clamped_window(
            smaller(smaller(server_window, client_window), connect.window_size),
        );
        entry.throttle_interval = connect.throttle_interval;
        entry.throttle_acceleration = connect.throttle_acceleration;
        entry.throttle_deceleration = connect.throttle_deceleration;
        entry.incoming_reliable_seq = seq;
        assert(entry@ =~= self@.server_peer(slot as int, *connect, seq, from, now_ms));
        entry
    }

    /// Takes a CONNECT.
    pub fn on_connect(
        &mut self,
        connect: ConnectCmd,
        seq: u16,
        sent_time: Option<u16>,
        from: Address,
        now_ms: u32,
        out: &mut Vec<Action>,
    )
        requires
            old(self).wf(),
        ensures
            final(self).wf(),
            final(self)@ == old(self)@.on_connect(connect, seq, sent_time, from, now_ms).0,
            peer::actions(final(out)@) == peer::actions(old(out)@) + old(self)@.on_connect(
                connect,
                seq,
                sent_time,
                from,
                now_ms,
            ).1,
    {
        let ck: bool = self.use_checksum;
        let ghost actions = peer::actions(out@);
        if self.addr_map.get(from).is_some() {
            assert(actions + Seq::<ActionView>::empty() =~= actions);
            return;
        }
        let slot: usize = match self.alloc_slot() {
            Some(s) => s,
            None => {
                // The client is told at once and need not run into a timeout.
                self.send_raw_disconnect(&connect, from, now_ms, out);
                assert(peer::actions(out@) =~= actions + self@.on_connect(
                    connect,
                    seq,
                    sent_time,
                    from,
                    now_ms,
                ).1);
                return;
            },
        };
        let mut entry = self.accept_peer(slot, &connect, seq, from, now_ms);
        let ghost p = entry@;
        let body = CommandBody::VerifyConnect(
            VerifyConnectCmd {
                outgoing_peer_id: low_16(slot),
                incoming_session_id: entry.outgoing_session_id,
                outgoing_session_id: entry.incoming_session_id,
                mtu: entry.mtu,
                window_size: entry.window_size,
                channel_count: channels_for(connect.channel_count) as u32,
                incoming_bandwidth: self.incoming_bandwidth,
                outgoing_bandwidth: self.outgoing_bandwidth,
                throttle_interval: entry.throttle_interval,
                throttle_acceleration: entry.throttle_acceleration,
                throttle_deceleration: entry.throttle_deceleration,
                connect_id: connect.connect_id,
            },
        );
        assert(body@ == command::BodyView::VerifyConnect(self@.verify_body(slot as int, connect)));
        proof {
            channel::lemma_encoded_len(
                CMD_VERIFY_CONNECT,
                0x80,
                CHANNEL_ID_CONNECTION,
                p.next_seq(CHANNEL_ID_CONNECTION),
                body@,
            );
        }
        let verify = entry.make_reliable(
            ck,
            CHANNEL_ID_CONNECTION,
            CMD_VERIFY_CONNECT,
            now_ms,
            &body,
        );
        self.sessions.set(slot, (entry.incoming_session_id, entry.outgoing_session_id));
        proof {
            lemma_with_new_peer_wf(self@, slot as int, entry@);
        }
        self.install(slot, entry);
        let ghost v = buffer::content(verify);
        let mut cmds: Vec<Bytes> = Vec::new();
        if let Some(st) = sent_time {
            let a = ack(CHANNEL_ID_CONNECTION, seq, st);
            let ghost c = buffer::content(a);
            cmds.push(a);
            cmds.push(verify);
            proof {
                assert(channel::contents(cmds@) =~= seq![c, v]);
                lemma_two(c, v);
            }
        } else {
            cmds.push(verify);
            proof {
                assert(channel::contents(cmds@) =~= seq![v]);
                send::lemma_single(p, ck, v, now_ms);
            }
        }
        self.emit_by_key(PeerKey(slot), &cmds, now_ms, out);
    }
}

proof fn lemma_one(a: Seq<u8>)
    ensures
        emit::concat(seq![a]) == a,
{
    assert(seq![a].drop_last() =~= Seq::empty());
    assert(emit::concat(seq![a].drop_last()) == Seq::<u8>::empty());
    assert(emit::concat(seq![a]) =~= a);
}

proof fn lemma_two(a: Seq<u8>, b: Seq<u8>)
    ensures
        emit::concat(seq![a, b]).len() == a.len() + b.len(),
{
    let two = seq![a, b];
    assert(two.drop_last() =~= seq![a]);
    assert(seq![a].drop_last() =~= Seq::empty());
    assert(emit::concat(seq![a].drop_last()) == Seq::<u8>::empty());
    assert(emit::concat(seq![a]) =~= a);
}

} // verus!
