//! The gossip membership state machine.
//!
//! Peers ping each other over UDP; each ping and pong carries what the sender
//! says of itself and a list of friends it knows. This module decides what a
//! packet, a command or a timer tick does to the peer table and what is to be
//! sent; the caller owns the socket, encodes the packets and runs the clock.
//! Times named `now` are milliseconds on a monotonic clock; those named `tm`
//! are wall-clock milliseconds, used only in packets.
use crate::peer::{
    applied,
    apply_field,
    is_new,
    count_up,
    index_of,
    lemma_index_of,
    lemma_index_unique,
    merged,
    unique_ids,
    Address,
    HostId,
    Info,
    Learned,
    Peer,
    Report,
};
use vstd::prelude::*;

verus! {

/// At most this many peers are pinged on each periodic broadcast.
pub const NUM_FRIENDS: usize = 10;

/// A peer heard from or probed this recently (ms) is left out of a broadcast.
pub const MIN_PROBE: u64 = 5000;

/// Where an address that was asked for stands.
#[derive(PartialEq, Eq, Structural, Clone, Copy, Debug)]
pub enum AddrStatus {
    /// A packet came from it.
    Available,
    /// It was pinged and has not answered yet.
    PingSent,
}

/// A scheduled retry of an address that was asked for.
#[derive(PartialEq, Eq, Structural, Clone, Copy, Debug)]
pub struct FutureHost {
    pub deadline: u64,
    pub address: Address,
    /// Pings sent so far.
    pub attempts: u32,
    /// The current delay between retries.
    pub timeout: u64,
}

/// What the local node is and how it gossips.
pub struct Config {
    pub cluster_name: String,
    pub machine_id: HostId,
    /// The addresses advertised to peers.
    pub addresses: Vec<Address>,
    pub hostname: String,
    pub name: String,
    /// Time between periodic broadcasts.
    pub interval: u64,
    /// The longest delay between retries of an address.
    pub max_interval: u64,
    /// The first delay before retrying an address that was asked for.
    pub add_host_first_sleep: u64,
}

/// What a packet's sender says of itself.
pub struct MyInfo {
    pub id: HostId,
    pub addresses: Vec<Address>,
    pub host: String,
    pub name: String,
    pub report: Report,
}

/// What a packet's sender knows of one of its peers.
pub struct FriendInfo {
    pub id: HostId,
    pub my_primary_addr: Option<Address>,
    pub addresses: Vec<Address>,
    pub host: Option<String>,
    pub name: Option<String>,
    /// A report and when (wall-clock ms) it was received.
    pub report: Option<(u64, Report)>,
    /// When (wall-clock ms) a round trip was measured, and its length in ms.
    pub roundtrip: Option<(u64, u64)>,
}

/// A gossip packet.
pub enum Packet {
    Ping { cluster: String, me: MyInfo, now: u64, friends: Vec<FriendInfo> },
    Pong {
        cluster: String,
        me: MyInfo,
        ping_time: u64,
        peer_time: u64,
        friends: Vec<FriendInfo>,
    },
}

/// What the caller is to do.
#[derive(PartialEq, Eq, Structural, Clone, Copy, Debug)]
pub enum Action {
    /// Send a ping to the address.
    Ping(Address),
    /// Answer a ping from `to` that was sent at `ping_time`, received at `peer_time`.
    Pong { to: Address, ping_time: u64, peer_time: u64 },
    /// Tell the transport layer that the peer's primary address is new.
    Touch(HostId),
}

/// The status recorded last for `a` in `s`.
pub open spec fn status_of(s: Seq<(Address, AddrStatus)>, a: Address) -> Option<AddrStatus>
    decreases s.len(),
{
    if s.len() == 0 {
        None
    } else if s.last().0 == a {
        Some(s.last().1)
    } else {
        status_of(s.drop_last(), a)
    }
}

/// The index of the last entry for `a` in `s`, or -1.
pub open spec fn status_index(s: Seq<(Address, AddrStatus)>, a: Address) -> int
    decreases s.len(),
{
    if s.len() == 0 {
        -1
    } else if s.last().0 == a {
        s.len() - 1
    } else {
        status_index(s.drop_last(), a)
    }
}

proof fn lemma_status_index(s: Seq<(Address, AddrStatus)>, a: Address)
    ensures
        -1 <= status_index(s, a) < s.len(),
        (status_index(s, a) == -1) == status_of(s, a).is_none(),
        status_index(s, a) >= 0 ==> s[status_index(s, a)].0 == a && status_of(s, a) == Some(
            s[status_index(s, a)].1,
        ),
    decreases s.len(),
{
    if s.len() > 0 {
        lemma_status_index(s.drop_last(), a);
    }
}

proof fn lemma_status_update(s: Seq<(Address, AddrStatus)>, a: Address, v: AddrStatus, x: Address)
    requires
        status_index(s, a) >= 0,
    ensures
        status_of(s.update(status_index(s, a), (a, v)), x) == if x == a {
            Some(v)
        } else {
            status_of(s, x)
        },
    decreases s.len(),
{
    lemma_status_index(s, a);
    let k = status_index(s, a);
    let u = s.update(k, (a, v));
    if k == s.len() - 1 {
        assert(u.drop_last() =~= s.drop_last());
    } else {
        assert(u.drop_last() =~= s.drop_last().update(k, (a, v)));
        lemma_status_update(s.drop_last(), a, v, x);
    }
}

/// `h` after one more ping: the delay doubles, up to `max_interval`.
pub open spec fn retried(h: FutureHost, now: u64, max_interval: u64) -> FutureHost {
    let timeout = if 2 * h.timeout < max_interval {
        (2 * h.timeout) as u64
    } else {
        max_interval
    };
    FutureHost {
        deadline: now.saturating_add(timeout),
        address: h.address,
        attempts: h.attempts.saturating_add(1),
        timeout,
    }
}

/// The queue `q` after the retries due at `now`.
pub open spec fn queue_after(q: Seq<FutureHost>, now: u64, max_interval: u64) -> Seq<FutureHost> {
    Seq::new(
        q.len(),
        |k: int|
            if q[k].deadline <= now {
                retried(q[k], now, max_interval)
            } else {
                q[k]
            },
    )
}

/// The pings of the retries due at `now`, in queue order.
pub open spec fn retry_pings(q: Seq<FutureHost>, now: u64) -> Seq<Action>
    decreases q.len(),
{
    if q.len() == 0 {
        seq![]
    } else if q.last().deadline <= now {
        retry_pings(q.drop_last(), now).push(Action::Ping(q.last().address))
    } else {
        retry_pings(q.drop_last(), now)
    }
}

/// The cluster a packet claims to come from.
pub open spec fn packet_cluster(p: Packet) -> Seq<char> {
    match p {
        Packet::Ping { cluster, .. } => cluster@,
        Packet::Pong { cluster, .. } => cluster@,
    }
}

/// What a packet's sender says of itself.
pub open spec fn packet_me(p: Packet) -> MyInfo {
    match p {
        Packet::Ping { me, .. } => me,
        Packet::Pong { me, .. } => me,
    }
}

/// Whether a packet is taken in: from this cluster, and not from this node.
pub open spec fn accepted(config: Config, p: Packet) -> bool {
    packet_cluster(p) == config.cluster_name@ && packet_me(p).id != config.machine_id
}

/// Whether a text field holds a value that came from the peer itself.
pub open spec fn trusted_text(f: Option<Learned<String>>) -> bool {
    f.is_some() && f.unwrap().trusted
}

/// What relayed updates leave alone in a peer: its id, its counters of
/// direct packets, a primary address once set, and what came from the peer
/// itself without a time to compare.
pub open spec fn keeps_direct(a: Peer, b: Peer) -> bool {
    &&& b.id == a.id
    &&& b.pings_received == a.pings_received
    &&& b.pongs_received == a.pongs_received
    &&& a.primary_addr.is_some() ==> b.primary_addr == a.primary_addr
    &&& a.addresses_trusted ==> b.addresses@ == a.addresses@ && b.addresses_trusted
    &&& trusted_text(a.hostname) ==> b.hostname == a.hostname
    &&& trusted_text(a.node_name) ==> b.node_name == a.node_name
}

/// Whether `b` is the table `a` after relayed updates only: no peer is
/// lost, what `keeps_direct` names stays, and the node itself is not added.
pub open spec fn relayed_only(a: Info, b: Info, me: HostId) -> bool {
    &&& b.wf()
    &&& b.has_remote == a.has_remote
    &&& forall|x: HostId| #[trigger] a.knows(x) ==> b.knows(x) && keeps_direct(a.peer(x), b.peer(x))
    &&& !a.knows(me) ==> !b.knows(me)
}

/// The value a counter of a peer had before a packet: zero for a new peer.
pub open spec fn before(info: Info, id: HostId, count: spec_fn(Peer) -> u64) -> u64 {
    if info.knows(id) {
        count(info.peer(id))
    } else {
        0
    }
}

/// The round trip a peer had before a packet: none for a new peer.
pub open spec fn before_roundtrip(info: Info, id: HostId) -> Option<Learned<u64>> {
    if info.knows(id) {
        info.peer(id).roundtrip
    } else {
        None
    }
}

/// The last probe of a peer before a packet: none for a new peer.
pub open spec fn before_probe(info: Info, id: HostId) -> Option<(u64, Address)> {
    if info.knows(id) {
        info.peer(id).last_probe
    } else {
        None
    }
}

/// The friend list a packet carries.
pub open spec fn packet_friends(p: Packet) -> Seq<FriendInfo> {
    match p {
        Packet::Ping { friends, .. } => friends@,
        Packet::Pong { friends, .. } => friends@,
    }
}

/// Whether a packet from `addr` moves its sender's primary address.
pub open spec fn touches(info: Info, p: Packet, addr: Address) -> bool {
    !(info.knows(packet_me(p).id) && info.peer(packet_me(p).id).primary_addr == Some(addr))
}

/// What a packet from `addr` at `tm` does to its sender's peer, before its
/// friend list: the peer is added where unknown; its addresses, report,
/// names and primary address are set as trusted; the ping or pong is
/// counted; a pong whose times are in order sets the round trip; nothing
/// else of the table changes.
pub open spec fn sender_applied(i0: Info, p: Packet, addr: Address, tm: u64, i1: Info) -> bool {
    let me = packet_me(p);
    let id = me.id;
    let q = i1.peer(id);
    &&& i1.wf()
    &&& i1.has_remote == i0.has_remote
    &&& i1.knows(id)
    &&& forall|x: HostId|
        x != id ==> (#[trigger] i1.knows(x) == i0.knows(x)) && (i0.knows(x) ==> i1.peer(x)
            == i0.peer(x))
    &&& direct_fields(q, me, addr, tm)
    &&& q.report == Some(Learned { value: me.report, timestamp: tm, trusted: true })
    &&& q.last_probe == before_probe(i0, id)
    &&& q.probes_sent == before(i0, id, |p: Peer| p.probes_sent)
    &&& match p {
        Packet::Ping { .. } => {
            &&& q.pings_received == before(i0, id, |p: Peer| p.pings_received).saturating_add(1)
            &&& q.pongs_received == before(i0, id, |p: Peer| p.pongs_received)
        },
        Packet::Pong { .. } => {
            &&& q.pings_received == before(i0, id, |p: Peer| p.pings_received)
            &&& q.pongs_received == before(i0, id, |p: Peer| p.pongs_received).saturating_add(1)
        },
    }
    &&& q.roundtrip == sender_roundtrip(i0, p, tm)
}

/// The sender's round trip after a packet received at `tm`: measured from a
/// pong whose times are in order, as before otherwise.
pub open spec fn sender_roundtrip(i0: Info, p: Packet, tm: u64) -> Option<Learned<u64>> {
    match p {
        Packet::Pong { ping_time, peer_time, .. } => if ping_time <= tm && ping_time <= peer_time {
            Some(Learned { value: (tm - ping_time) as u64, timestamp: tm, trusted: true })
        } else {
            before_roundtrip(i0, packet_me(p).id)
        },
        Packet::Ping { .. } => before_roundtrip(i0, packet_me(p).id),
    }
}

/// Whether an action answers a ping.
pub open spec fn is_pong(a: Action) -> bool {
    match a {
        Action::Pong { .. } => true,
        _ => false,
    }
}

/// The actions a packet's sender update gives: a touch where its primary
/// address moves.
pub open spec fn sender_actions(i0: Info, p: Packet, addr: Address) -> Seq<Action> {
    if touches(i0, p, addr) {
        seq![Action::Touch(packet_me(p).id)]
    } else {
        seq![]
    }
}

/// What a direct packet from `me` at `addr`, received at `tm`, sets in the
/// sender's peer `p`.
pub open spec fn direct_fields(p: Peer, me: MyInfo, addr: Address, tm: u64) -> bool {
    &&& p.id == me.id
    &&& p.primary_addr == Some(addr)
    &&& p.addresses@ == merged(seq![], me.addresses@)
    &&& p.addresses_trusted
    &&& p.hostname == Some(Learned { value: me.host, timestamp: tm, trusted: true })
    &&& p.node_name == Some(Learned { value: me.name, timestamp: tm, trusted: true })
}

/// Whether `p` may be pinged on a broadcast at wall-clock time `tm`: it has
/// an address and was neither probed nor heard from in the last `MIN_PROBE` ms.
pub open spec fn eligible(p: Peer, tm: u64) -> bool {
    &&& p.primary_addr.is_some()
    &&& match p.last_probe {
        Some((t, _)) => t + MIN_PROBE < tm,
        None => true,
    }
    &&& match p.report {
        Some(l) => l.timestamp + MIN_PROBE < tm,
        None => true,
    }
}

/// Whether `b` is `a` after a broadcast probe at `tm`: marked probed at its
/// primary address and counted, nothing else changed.
pub open spec fn probed(a: Peer, b: Peer, tm: u64) -> bool {
    &&& b.last_probe == Some((tm, a.primary_addr.unwrap()))
    &&& b.probes_sent == a.probes_sent.saturating_add(1)
    &&& b.id == a.id
    &&& b.primary_addr == a.primary_addr
    &&& b.addresses == a.addresses
    &&& b.addresses_trusted == a.addresses_trusted
    &&& b.hostname == a.hostname
    &&& b.node_name == a.node_name
    &&& b.report == a.report
    &&& b.roundtrip == a.roundtrip
    &&& b.pings_received == a.pings_received
    &&& b.pongs_received == a.pongs_received
}

/// Whether `p` is to be left out of a friend list sent to `to`.
pub open spec fn is_destination(p: Peer, to: Address) -> bool {
    p.primary_addr == Some(to)
}

/// Whether some retry in `q` is for `a`.
pub open spec fn queued(q: Seq<FutureHost>, a: Address) -> bool {
    exists|k: int| 0 <= k < q.len() && (#[trigger] q[k]).address == a
}

/// Whether the retries `q` match the statuses `s`: an address has a status
/// if and only if a retry is queued for it, and it has one retry at most.
pub open spec fn retries_match(s: Seq<(Address, AddrStatus)>, q: Seq<FutureHost>) -> bool {
    &&& forall|k: int| 0 <= k < q.len() ==> status_of(s, (#[trigger] q[k]).address).is_some()
    &&& forall|i: int, j: int| 0 <= i < j < q.len() ==> q[i].address != q[j].address
    &&& forall|a: Address| #[trigger] status_of(s, a).is_some() ==> queued(q, a)
}

proof fn lemma_retries_add(
    s: Seq<(Address, AddrStatus)>,
    q: Seq<FutureHost>,
    a: Address,
    v: AddrStatus,
    h: FutureHost,
)
    requires
        retries_match(s, q),
        status_of(s, a).is_none(),
        h.address == a,
    ensures
        retries_match(s.push((a, v)), q.push(h)),
        queued(q.push(h), a),
{
    let s2 = s.push((a, v));
    let q2 = q.push(h);
    assert(s2.drop_last() =~= s);
    assert(q2[q.len() as int].address == a);
    assert forall|k: int| 0 <= k < q2.len() implies status_of(s2, (#[trigger] q2[k]).address).is_some() by {
        if k < q.len() {
            assert(q2[k] == q[k]);
        }
    }
    assert forall|i: int, j: int| 0 <= i < j < q2.len() implies q2[i].address != q2[j].address by {
        if j == q.len() {
            assert(q2[i] == q[i]);
            assert(status_of(s, q[i].address).is_some());
        } else {
            assert(q2[i] == q[i] && q2[j] == q[j]);
        }
    }
    assert forall|x: Address| #[trigger] status_of(s2, x).is_some() implies queued(q2, x) by {
        if x != a {
            assert(status_of(s, x).is_some());
            assert(queued(q, x));
            let k = choose|k: int| 0 <= k < q.len() && (#[trigger] q[k]).address == x;
            assert(q2[k] == q[k]);
        }
    }
}

proof fn lemma_retries_same(
    s: Seq<(Address, AddrStatus)>,
    q: Seq<FutureHost>,
    s2: Seq<(Address, AddrStatus)>,
    q2: Seq<FutureHost>,
)
    requires
        retries_match(s, q),
        forall|x: Address| #[trigger] status_of(s2, x).is_some() == status_of(s, x).is_some(),
        q2.len() == q.len(),
        forall|k: int| 0 <= k < q.len() ==> (#[trigger] q2[k]).address == q[k].address,
    ensures
        retries_match(s2, q2),
{
    assert forall|x: Address| #[trigger] status_of(s2, x).is_some() implies queued(q2, x) by {
        assert(status_of(s, x).is_some());
        let k = choose|k: int| 0 <= k < q.len() && (#[trigger] q[k]).address == x;
        assert(q2[k].address == x);
    }
    assert forall|k: int| 0 <= k < q2.len() implies status_of(s2, (#[trigger] q2[k]).address).is_some() by {
        assert(status_of(s, q[k].address).is_some());
    }
    assert forall|i: int, j: int| 0 <= i < j < q2.len() implies q2[i].address != q2[j].address by {
        assert(q2[i].address == q[i].address && q2[j].address == q[j].address);
    }
}

/// The gossip state of one node.
pub struct Proto {
    pub config: Config,
    /// The status of each address that was asked for.
    pub addr_status: Vec<(Address, AddrStatus)>,
    /// Retries of addresses that were asked for.
    pub queue: Vec<FutureHost>,
    /// When the next periodic broadcast is due.
    pub next_ping: u64,
}

impl Proto {
    /// Whether each address asked for has exactly one retry queued, and
    /// each queued retry is for an address asked for.
    pub open spec fn wf(&self) -> bool {
        retries_match(self.addr_status@, self.queue@)
    }

    /// A node that has heard of nobody; its first broadcast is due one
    /// interval after `now`.
    pub fn new(config: Config, now: u64) -> (r: Proto)
        ensures
            r.config == config,
            r.addr_status@.len() == 0,
            r.queue@.len() == 0,
            r.next_ping == now.saturating_add(config.interval),
            r.wf(),
    {
        let next_ping = now.saturating_add(config.interval);
        Proto { config, addr_status: Vec::new(), queue: Vec::new(), next_ping }
    }

    /// The status of address `a`, if it was asked for.
    pub fn status(&self, a: Address) -> (r: Option<AddrStatus>)
        ensures
            r == status_of(self.addr_status@, a),
    {
        match self.status_position(a) {
            Some(i) => Some(self.addr_status[i].1),
            None => None,
        }
    }

    fn status_position(&self, a: Address) -> (r: Option<usize>)
        ensures
            r.is_none() <==> status_index(self.addr_status@, a) == -1,
            r.is_some() ==> r.unwrap() == status_index(self.addr_status@, a),
            status_index(self.addr_status@, a) == -1 <==> status_of(
                self.addr_status@,
                a,
            ).is_none(),
            r.is_some() ==> r.unwrap() < self.addr_status@.len() && status_of(
                self.addr_status@,
                a,
            ) == Some(self.addr_status@[r.unwrap() as int].1),
    {
        proof {
            lemma_status_index(self.addr_status@, a);
        }
        let s = &self.addr_status;
        let mut i: usize = s.len();
        proof {
            assert(s@.take(i as int) =~= s@);
        }
        while i > 0
            invariant
                s@ == self.addr_status@,
                0 <= i <= s@.len(),
                status_index(s@, a) == status_index(s@.take(i as int), a),
            decreases i,
        {
            proof {
                assert(s@.take(i as int).drop_last() =~= s@.take(i - 1));
            }
            if s[i - 1].0 == a {
                proof {
                    assert(s@.take(i as int).last() == s@[i - 1]);
                    lemma_status_index(self.addr_status@, a);
                }
                return Some(i - 1);
            }
            i = i - 1;
        }
        None
    }

    /// Marks an address that was asked for as answering.
    pub fn mark_available(&mut self, a: Address)
        ensures
            old(self).wf() ==> final(self).wf(),
            final(self).config == old(self).config,
            final(self).queue == old(self).queue,
            final(self).next_ping == old(self).next_ping,
            forall|x: Address| #[trigger]
                status_of(final(self).addr_status@, x) == if x == a && status_of(
                    old(self).addr_status@,
                    a,
                ).is_some() {
                    Some(AddrStatus::Available)
                } else {
                    status_of(old(self).addr_status@, x)
                },
    {
        match self.status_position(a) {
            Some(i) => {
                self.addr_status.set(i, (a, AddrStatus::Available));
                proof {
                    assert forall|x: Address| #[trigger]
                        status_of(self.addr_status@, x) == if x == a {
                            Some(AddrStatus::Available)
                        } else {
                            status_of(old(self).addr_status@, x)
                        } by {
                        lemma_status_update(old(self).addr_status@, a, AddrStatus::Available, x);
                    }
                    if old(self).wf() {
                        lemma_retries_same(
                            old(self).addr_status@,
                            old(self).queue@,
                            self.addr_status@,
                            self.queue@,
                        );
                    }
                }
            },
            None => {},
        }
    }

    /// Asks for a peer at `a`: pings it at once unless it already answered,
    /// and where it was never asked for, schedules retries.
    pub fn add_host(&mut self, a: Address, now: u64) -> (r: Vec<Action>)
        ensures
            final(self).config == old(self).config,
            final(self).next_ping == old(self).next_ping,
            r@ == if status_of(old(self).addr_status@, a) == Some(AddrStatus::Available) {
                Seq::<Action>::empty()
            } else {
                seq![Action::Ping(a)]
            },
            status_of(old(self).addr_status@, a).is_none() ==> final(self).addr_status@ == old(self).addr_status@.push((a, AddrStatus::PingSent)) && final(self).queue@ == old(self).queue@.push(
                FutureHost {
                    deadline: now.saturating_add(old(self).config.add_host_first_sleep),
                    address: a,
                    attempts: 1,
                    timeout: old(self).config.add_host_first_sleep,
                },
            ),
            status_of(old(self).addr_status@, a).is_some() ==> final(self).addr_status == old(self).addr_status && final(self).queue == old(self).queue,
            old(self).wf() ==> final(self).wf() && queued(final(self).queue@, a),
    {
        let status = self.status(a);
        let mut r: Vec<Action> = Vec::new();
        match status {
            Some(AddrStatus::Available) => {},
            _ => {
                r.push(Action::Ping(a));
            },
        }
        if status.is_none() {
            self.addr_status.push((a, AddrStatus::PingSent));
            let timeout = self.config.add_host_first_sleep;
            self.queue.push(
                FutureHost {
                    deadline: now.saturating_add(timeout),
                    address: a,
                    attempts: 1,
                    timeout,
                },
            );
        }
        proof {
            if status != Some(AddrStatus::Available) {
                assert(r@ =~= seq![Action::Ping(a)]);
            }
            if old(self).wf() && status.is_none() {
                lemma_retries_add(
                    old(self).addr_status@,
                    old(self).queue@,
                    a,
                    AddrStatus::PingSent,
                    self.queue@.last(),
                );
                assert(self.queue@ =~= old(self).queue@.push(self.queue@.last()));
            }
        }
        r
    }

    /// Pings each address whose retry is due and reschedules it with twice
    /// the delay, up to the configured maximum.
    pub fn retry_due(&mut self, now: u64) -> (r: Vec<Action>)
        ensures
            final(self).config == old(self).config,
            final(self).addr_status == old(self).addr_status,
            final(self).next_ping == old(self).next_ping,
            final(self).queue@ == queue_after(old(self).queue@, now, old(self).config.max_interval),
            r@ == retry_pings(old(self).queue@, now),
            old(self).wf() ==> final(self).wf(),
    {
        let ghost q0 = self.queue@;
        let max_interval = self.config.max_interval;
        let mut r: Vec<Action> = Vec::new();
        let mut i: usize = 0;
        while i < self.queue.len()
            invariant
                self.config == old(self).config,
                self.addr_status == old(self).addr_status,
                self.next_ping == old(self).next_ping,
                max_interval == self.config.max_interval,
                self.queue@.len() == q0.len(),
                0 <= i <= q0.len(),
                forall|k: int|
                    0 <= k < q0.len() ==> #[trigger] self.queue@[k] == if k < i {
                        queue_after(q0, now, max_interval)[k]
                    } else {
                        q0[k]
                    },
                r@ == retry_pings(q0.take(i as int), now),
            decreases q0.len() - i,
        {
            let h = self.queue[i];
            proof {
                assert(q0.take(i + 1).drop_last() =~= q0.take(i as int));
            }
            if h.deadline <= now {
                let timeout = if h.timeout <= max_interval / 2 {
                    h.timeout * 2
                } else {
                    max_interval
                };
                self.queue.set(
                    i,
                    FutureHost {
                        deadline: now.saturating_add(timeout),
                        address: h.address,
                        attempts: h.attempts.saturating_add(1),
                        timeout,
                    },
                );
                r.push(Action::Ping(h.address));
            }
            i = i + 1;
        }
        proof {
            assert(q0.take(q0.len() as int) =~= q0);
            assert(self.queue@ =~= queue_after(q0, now, max_interval));
            if old(self).wf() {
                lemma_retries_same(old(self).addr_status@, q0, self.addr_status@, self.queue@);
            }
        }
        r
    }

    /// When the state machine next needs a tick: the next broadcast or the
    /// earliest retry, whichever comes first.
    pub fn next_wakeup(&self) -> (r: u64)
        ensures
            r <= self.next_ping,
            forall|k: int| 0 <= k < self.queue@.len() ==> r <= #[trigger] self.queue@[k].deadline,
            r == self.next_ping || exists|k: int|
                0 <= k < self.queue@.len() && r == #[trigger] self.queue@[k].deadline,
    {
        let mut r = self.next_ping;
        let mut i: usize = 0;
        while i < self.queue.len()
            invariant
                0 <= i <= self.queue@.len(),
                r <= self.next_ping,
                forall|k: int| 0 <= k < i ==> r <= #[trigger] self.queue@[k].deadline,
                r == self.next_ping || exists|k: int|
                    0 <= k < i && r == #[trigger] self.queue@[k].deadline,
            decreases self.queue@.len() - i,
        {
            if self.queue[i].deadline < r {
                r = self.queue[i].deadline;
            }
            i = i + 1;
        }
        r
    }

    /// Takes in a packet from `addr`, received at wall-clock time `tm`.
    /// A packet from another cluster or from this node changes nothing.
    /// Otherwise the sender's own fields are set as trusted, its friend
    /// list is applied as relayed, and a ping is answered with a pong.
    /// An address that was asked for and sends an accepted packet is marked
    /// available; when that happens is this module's own choice.
    pub fn consume_gossip(&mut self, info: &mut Info, packet: Packet, addr: Address, tm: u64) -> (r:
        Vec<Action>)
        requires
            old(info).wf(),
        ensures
            old(self).wf() ==> final(self).wf(),
            !accepted(old(self).config, packet) ==> *final(info) == *old(info) && *final(self)
                == *old(self) && r@.len() == 0,
            accepted(old(self).config, packet) ==> final(self).config == old(self).config
                && final(self).queue == old(self).queue && final(self).next_ping == old(self).next_ping,
            accepted(old(self).config, packet) ==> forall|x: Address| #[trigger]
                status_of(final(self).addr_status@, x) == if x == addr && status_of(
                    old(self).addr_status@,
                    addr,
                ).is_some() {
                    Some(AddrStatus::Available)
                } else {
                    status_of(old(self).addr_status@, x)
                },
            accepted(old(self).config, packet) ==> exists|mid: Info, rf: Seq<Action>|
                #![trigger sender_applied(*old(info), packet, addr, tm, mid), friends_applied(mid, packet_friends(packet), tm, old(self).config.machine_id, *final(info), sender_actions(*old(info), packet, addr), rf)]
                sender_applied(*old(info), packet, addr, tm, mid) && friends_applied(
                    mid,
                    packet_friends(packet),
                    tm,
                    old(self).config.machine_id,
                    *final(info),
                    sender_actions(*old(info), packet, addr),
                    rf,
                ) && r@ == match packet {
                    Packet::Ping { now, .. } => rf.push(
                        Action::Pong { to: addr, ping_time: now, peer_time: tm },
                    ),
                    Packet::Pong { .. } => rf,
                },
            accepted(old(self).config, packet) ==> final(info).wf() && final(info).has_remote
                == old(info).has_remote,
            accepted(old(self).config, packet) ==> final(info).knows(packet_me(packet).id)
                && direct_fields(
                final(info).peer(packet_me(packet).id),
                packet_me(packet),
                addr,
                tm,
            ),
            accepted(old(self).config, packet) ==> forall|x: HostId| #[trigger]
                old(info).knows(x) ==> final(info).knows(x),
            accepted(old(self).config, packet) && !old(info).knows(old(self).config.machine_id)
                ==> !final(info).knows(old(self).config.machine_id),
            accepted(old(self).config, packet) ==> (r@.contains(
                Action::Touch(packet_me(packet).id),
            ) <==> touches(*old(info), packet, addr)),
            accepted(old(self).config, packet) && unnamed(
                packet_friends(packet),
                packet_me(packet).id,
            ) ==> final(info).peer(packet_me(packet).id).report == Some(
                Learned { value: packet_me(packet).report, timestamp: tm, trusted: true },
            ) && final(info).peer(packet_me(packet).id).roundtrip == sender_roundtrip(
                *old(info),
                packet,
                tm,
            ),
            match packet {
                Packet::Ping { me, now, .. } => accepted(old(self).config, packet) ==> {
                    &&& final(info).peer(me.id).pings_received == before(
                        *old(info),
                        me.id,
                        |p: Peer| p.pings_received,
                    ).saturating_add(1)
                    &&& final(info).peer(me.id).pongs_received == before(
                        *old(info),
                        me.id,
                        |p: Peer| p.pongs_received,
                    )
                    &&& r@.len() > 0
                    &&& r@.last() == Action::Pong { to: addr, ping_time: now, peer_time: tm }
                    &&& forall|k: int| 0 <= k < r@.len() - 1 ==> !is_pong(#[trigger] r@[k])
                },
                Packet::Pong { me, .. } => accepted(old(self).config, packet) ==> {
                    &&& final(info).peer(me.id).pongs_received == before(
                        *old(info),
                        me.id,
                        |p: Peer| p.pongs_received,
                    ).saturating_add(1)
                    &&& final(info).peer(me.id).pings_received == before(
                        *old(info),
                        me.id,
                        |p: Peer| p.pings_received,
                    )
                    &&& forall|k: int| 0 <= k < r@.len() ==> !is_pong(#[trigger] r@[k])
                },
            },
    {
        let machine_id = self.config.machine_id;
        match packet {
            Packet::Ping { cluster, me, now, friends } => {
                if cluster != self.config.cluster_name || me.id == machine_id {
                    return Vec::new();
                }
                let id = me.id;
                let (idx, touched) = apply_sender(info, me, addr, tm, machine_id);
                let ghost b0 = *info;
                count_up(&mut info.peers[idx].pings_received);
                proof {
                    lemma_same_ids(b0.peers@, info.peers@);
                    lemma_index_unique(info.peers@, idx as int);
                    assert forall|x: HostId| x != id implies (#[trigger] info.knows(x) == old(info).knows(x)) && (old(info).knows(x) ==> info.peer(x) == old(info).peer(x)) by {
                        assert(index_of(b0.peers@, x) == index_of(info.peers@, x));
                        assert(b0.knows(x) == old(info).knows(x));
                        lemma_index_of(b0.peers@, x);
                    }
                }
                let ghost mid = *info;
                let mut r: Vec<Action> = Vec::new();
                if touched {
                    r.push(Action::Touch(id));
                }
                proof {
                    assert(sender_applied(*old(info), packet, addr, tm, mid));
                    assert(r@ =~= sender_actions(*old(info), packet, addr));
                }
                let ghost r0 = r@;
                self.mark_available(addr);
                apply_friends(info, &friends, tm, machine_id, &mut r);
                let ghost rf = r@;
                proof {
                    assert(mid.knows(id));
                    assert(keeps_direct(mid.peer(id), info.peer(id)));
                    assert forall|x: HostId| #[trigger] old(info).knows(x) implies info.knows(x) by {
                        assert(b0.knows(x));
                        assert(mid.knows(x));
                    }
                }
                r.push(Action::Pong { to: addr, ping_time: now, peer_time: tm });
                proof {
                    assert(r@.drop_last() =~= rf);
                    lemma_touch_once(*old(info), packet, addr, mid, r0, rf, r@);
                    assert(packet_friends(packet) == friends@);
                    assert(sender_applied(*old(info), packet, addr, tm, mid) && friends_applied(
                        mid,
                        packet_friends(packet),
                        tm,
                        old(self).config.machine_id,
                        *info,
                        sender_actions(*old(info), packet, addr),
                        rf,
                    ));
                    assert forall|k: int| 0 <= k < r@.len() - 1 implies !is_pong(#[trigger] r@[k]) by {
                        assert(r@[k] == rf[k]);
                        if k >= r0.len() {
                            assert(!is_pong(rf[k]));
                        }
                    }
                    if unnamed(friends@, id) {
                        assert(info.peer(id) == mid.peer(id));
                    }
                }
                r
            },
            Packet::Pong { cluster, me, ping_time, peer_time, friends } => {
                if cluster != self.config.cluster_name || me.id == machine_id {
                    return Vec::new();
                }
                let id = me.id;
                let (idx, touched) = apply_sender(info, me, addr, tm, machine_id);
                let ghost b0 = *info;
                count_up(&mut info.peers[idx].pongs_received);
                if ping_time <= tm && ping_time <= peer_time {
                    apply_field(&mut info.peers[idx].roundtrip, tm - ping_time, tm, true);
                }
                proof {
                    assert(forall|k: int|
                        0 <= k < b0.peers@.len() ==> b0.peers@[k].id == info.peers@[k].id);
                    lemma_same_ids(b0.peers@, info.peers@);
                    lemma_index_unique(info.peers@, idx as int);
                    assert forall|x: HostId| x != id implies (#[trigger] info.knows(x) == old(info).knows(x)) && (old(info).knows(x) ==> info.peer(x) == old(info).peer(x)) by {
                        assert(index_of(b0.peers@, x) == index_of(info.peers@, x));
                        assert(b0.knows(x) == old(info).knows(x));
                        lemma_index_of(b0.peers@, x);
                    }
                }
                let ghost mid = *info;
                let mut r: Vec<Action> = Vec::new();
                if touched {
                    r.push(Action::Touch(id));
                }
                proof {
                    assert(sender_applied(*old(info), packet, addr, tm, mid));
                    assert(r@ =~= sender_actions(*old(info), packet, addr));
                }
                let ghost r0 = r@;
                self.mark_available(addr);
                apply_friends(info, &friends, tm, machine_id, &mut r);
                proof {
                    assert(mid.knows(id));
                    assert(keeps_direct(mid.peer(id), info.peer(id)));
                    assert forall|x: HostId| #[trigger] old(info).knows(x) implies info.knows(x) by {
                        assert(b0.knows(x));
                        assert(mid.knows(x));
                    }
                    lemma_touch_once(*old(info), packet, addr, mid, r0, r@, r@);
                    assert(packet_friends(packet) == friends@);
                    assert(sender_applied(*old(info), packet, addr, tm, mid) && friends_applied(
                        mid,
                        packet_friends(packet),
                        tm,
                        old(self).config.machine_id,
                        *info,
                        sender_actions(*old(info), packet, addr),
                        r@,
                    ));
                    assert forall|k: int| 0 <= k < r@.len() implies !is_pong(#[trigger] r@[k]) by {
                        if k >= r0.len() {
                            assert(!is_pong(r@[k]));
                        }
                    }
                    if unnamed(friends@, id) {
                        assert(info.peer(id) == mid.peer(id));
                    }
                }
                r
            },
        }
    }

    /// The periodic broadcast, when due at `now`: pings up to `NUM_FRIENDS`
    /// peers, in table order, that have an address and were neither probed
    /// nor heard from in the last `MIN_PROBE` ms, and records the probes.
    pub fn broadcast(&mut self, info: &mut Info, now: u64, tm: u64) -> (r: Vec<Action>)
        requires
            old(info).wf(),
        ensures
            final(self).config == old(self).config,
            final(self).queue == old(self).queue,
            final(self).addr_status == old(self).addr_status,
            now < old(self).next_ping ==> *final(info) == *old(info) && r@.len() == 0
                && final(self).next_ping == old(self).next_ping,
            now >= old(self).next_ping ==> final(self).next_ping == now.saturating_add(
                old(self).config.interval,
            ),
            final(info).wf(),
            final(info).has_remote == old(info).has_remote,
            final(info).peers@.len() == old(info).peers@.len(),
            forall|k: int|
                0 <= k < old(info).peers@.len() ==> (#[trigger] final(info).peers@[k]).id == old(
                    info,
                ).peers@[k].id,
            r@.len() <= NUM_FRIENDS,
            forall|k: int|
                0 <= k < old(info).peers@.len() && !eligible(old(info).peers@[k], tm)
                    ==> #[trigger] final(info).peers@[k] == old(info).peers@[k],
            forall|k: int|
                0 <= k < old(info).peers@.len() ==> #[trigger] final(info).peers@[k] == old(info).peers@[k] || (eligible(old(info).peers@[k], tm) && probed(
                    old(info).peers@[k],
                    final(info).peers@[k],
                    tm,
                )),
            forall|j: int|
                #![trigger r@[j]]
                0 <= j < r@.len() ==> exists|k: int|
                    0 <= k < old(info).peers@.len() && eligible(old(info).peers@[k], tm) && r@[j]
                        == Action::Ping(old(info).peers@[k].primary_addr.unwrap()) && (
                    #[trigger] final(info).peers@[k]).last_probe == Some(
                        (tm, old(info).peers@[k].primary_addr.unwrap()),
                    ),
            now >= old(self).next_ping && r@.len() < NUM_FRIENDS ==> forall|k: int|
                0 <= k < old(info).peers@.len() && eligible(old(info).peers@[k], tm)
                    ==> #[trigger] final(info).peers@[k].last_probe == Some(
                    (tm, old(info).peers@[k].primary_addr.unwrap()),
                ) && r@.contains(Action::Ping(old(info).peers@[k].primary_addr.unwrap())),
    {
        let mut r: Vec<Action> = Vec::new();
        if now < self.next_ping {
            return r;
        }
        self.next_ping = now.saturating_add(self.config.interval);
        let ghost p0 = info.peers@;
        let mut i: usize = 0;
        while i < info.peers.len() && r.len() < NUM_FRIENDS
            invariant
                info.peers@.len() == p0.len(),
                unique_ids(p0),
                info.has_remote == old(info).has_remote,
                p0 == old(info).peers@,
                0 <= i <= p0.len(),
                r@.len() <= NUM_FRIENDS,
                forall|k: int| 0 <= k < p0.len() ==> (#[trigger] info.peers@[k]).id == p0[k].id,
                forall|k: int|
                    0 <= k < p0.len() && (k >= i || !eligible(p0[k], tm))
                        ==> #[trigger] info.peers@[k] == p0[k],
                forall|k: int|
                    0 <= k < i && eligible(p0[k], tm) ==> #[trigger] info.peers@[k].last_probe
                        == Some((tm, p0[k].primary_addr.unwrap())) && r@.contains(
                        Action::Ping(p0[k].primary_addr.unwrap()),
                    ) && probed(p0[k], info.peers@[k], tm),
                forall|j: int|
                    #![trigger r@[j]]
                    0 <= j < r@.len() ==> exists|k: int|
                        0 <= k < i && eligible(p0[k], tm) && r@[j] == Action::Ping(
                            p0[k].primary_addr.unwrap(),
                        ) && (#[trigger] info.peers@[k]).last_probe == Some(
                            (tm, p0[k].primary_addr.unwrap()),
                        ),
            decreases p0.len() - i,
        {
            let ghost r_prev = r@;
            let ghost b0 = info.peers@;
            let p = &mut info.peers[i];
            let fresh_probe = match p.last_probe {
                Some((t, _)) => t < tm && tm - t > MIN_PROBE,
                None => true,
            };
            let fresh_report = match &p.report {
                Some(l) => l.timestamp < tm && tm - l.timestamp > MIN_PROBE,
                None => true,
            };
            if fresh_probe && fresh_report {
                match p.primary_addr {
                    Some(a) => {
                        p.last_probe = Some((tm, a));
                        count_up(&mut p.probes_sent);
                        r.push(Action::Ping(a));
                        proof {
                            assert(r@[r_prev.len() as int] == Action::Ping(a));
                        }
                    },
                    None => {},
                }
            }
            proof {
                assert forall|j: int| #![trigger r@[j]] 0 <= j < r@.len() implies exists|k: int|
                    0 <= k < i + 1 && eligible(p0[k], tm) && r@[j] == Action::Ping(
                        p0[k].primary_addr.unwrap(),
                    ) && (#[trigger] info.peers@[k]).last_probe == Some(
                        (tm, p0[k].primary_addr.unwrap()),
                    ) by {
                    if j < r_prev.len() {
                        assert(r@[j] == r_prev[j]);
                        let k = choose|k: int|
                            0 <= k < i && eligible(p0[k], tm) && r_prev[j] == Action::Ping(
                                p0[k].primary_addr.unwrap(),
                            ) && (#[trigger] b0[k]).last_probe == Some(
                                (tm, p0[k].primary_addr.unwrap()),
                            );
                        assert(info.peers@[k] == b0[k]);
                    } else {
                        assert(info.peers@[i as int].last_probe == Some(
                            (tm, p0[i as int].primary_addr.unwrap()),
                        ));
                    }
                }
                assert forall|k: int|
                    0 <= k < i + 1 && eligible(p0[k], tm) implies #[trigger] info.peers@[k].last_probe
                    == Some((tm, p0[k].primary_addr.unwrap())) && r@.contains(
                    Action::Ping(p0[k].primary_addr.unwrap()),
                ) by {
                    if k < i {
                        assert(info.peers@[k] == b0[k]);
                        let j = choose|j: int|
                            0 <= j < r_prev.len() && r_prev[j] == Action::Ping(
                                p0[k].primary_addr.unwrap(),
                            );
                        assert(r@[j] == r_prev[j]);
                    } else {
                        assert(r@[r_prev.len() as int] == Action::Ping(
                            p0[k].primary_addr.unwrap(),
                        ));
                    }
                }
            }
            i = i + 1;
        }
        proof {
            lemma_same_ids(p0, info.peers@);
        }
        r
    }

    /// A timer tick at `now` (wall-clock `tm`): the periodic broadcast when
    /// due, then the retries that are due.
    pub fn tick(&mut self, info: &mut Info, now: u64, tm: u64) -> (r: Vec<Action>)
        requires
            old(info).wf(),
        ensures
            old(self).wf() ==> final(self).wf(),
            final(info).wf(),
            final(self).config == old(self).config,
            final(self).addr_status == old(self).addr_status,
            final(self).queue@ == queue_after(old(self).queue@, now, old(self).config.max_interval),
            now >= old(self).next_ping ==> final(self).next_ping == now.saturating_add(
                old(self).config.interval,
            ),
            now < old(self).next_ping ==> final(self).next_ping == old(self).next_ping
                && *final(info) == *old(info),
            exists|b: Seq<Action>|
                r@ == b + retry_pings(old(self).queue@, now) && b.len() <= NUM_FRIENDS && (now
                    < old(self).next_ping ==> b.len() == 0),
    {
        let mut r = self.broadcast(info, now, tm);
        let mut retries = self.retry_due(now);
        r.append(&mut retries);
        r
    }

    /// What this node says of itself in a packet.
    pub fn my_info(&self, info: &Info) -> (r: MyInfo)
        ensures
            my_info_of(r, self.config, *info),
    {
        let n = info.peers.len();
        let peers: u32 = if n < u32::MAX as usize {
            n as u32
        } else {
            u32::MAX
        };
        MyInfo {
            id: self.config.machine_id,
            addresses: copy_addresses(&self.config.addresses),
            host: self.config.hostname.clone(),
            name: self.config.name.clone(),
            report: Report { peers, has_remote: info.has_remote },
        }
    }

    /// A ping to `to`, sent at wall-clock time `tm`, with at most `limit`
    /// friends.
    pub fn ping_packet(&self, info: &Info, to: Address, tm: u64, limit: usize) -> (r: Packet)
        requires
            info.wf(),
        ensures
            match r {
                Packet::Ping { cluster, me, now, friends } => {
                    &&& cluster@ == self.config.cluster_name@
                    &&& my_info_of(me, self.config, *info)
                    &&& now == tm
                    &&& friends_for(friends@, *info, to, limit)
                },
                _ => false,
            },
    {
        Packet::Ping {
            cluster: self.config.cluster_name.clone(),
            me: self.my_info(info),
            now: tm,
            friends: info_friends(info, to, limit),
        }
    }

    /// The answer to a ping from `to` sent at `ping_time` and received at
    /// wall-clock time `tm`, with at most `limit` friends.
    pub fn pong_packet(&self, info: &Info, to: Address, ping_time: u64, tm: u64, limit: usize) -> (r:
        Packet)
        requires
            info.wf(),
        ensures
            match r {
                Packet::Pong { cluster, me, ping_time: pt, peer_time, friends } => {
                    &&& cluster@ == self.config.cluster_name@
                    &&& my_info_of(me, self.config, *info)
                    &&& pt == ping_time
                    &&& peer_time == tm
                    &&& friends_for(friends@, *info, to, limit)
                },
                _ => false,
            },
    {
        Packet::Pong {
            cluster: self.config.cluster_name.clone(),
            me: self.my_info(info),
            ping_time,
            peer_time: tm,
            friends: info_friends(info, to, limit),
        }
    }
}

/// Sets the fields that a direct packet from `me` at `addr` carries, as
/// trusted, in the sender's peer (added where unknown). Returns its index and
/// whether its primary address changed.
fn apply_sender(info: &mut Info, me: MyInfo, addr: Address, tm: u64, machine_id: HostId) -> (r: (
    usize,
    bool,
))
    requires
        old(info).wf(),
        me.id != machine_id,
    ensures
        final(info).wf(),
        final(info).has_remote == old(info).has_remote,
        r.0 < final(info).peers@.len(),
        r.0 == index_of(final(info).peers@, me.id),
        final(info).knows(me.id),
        direct_fields(final(info).peer(me.id), me, addr, tm),
        final(info).peer(me.id).pings_received == before(*old(info), me.id, |p: Peer| p.pings_received),
        final(info).peer(me.id).pongs_received == before(*old(info), me.id, |p: Peer| p.pongs_received),
        r.1 == !(old(info).knows(me.id) && old(info).peer(me.id).primary_addr == Some(addr)),
        forall|x: HostId| #[trigger] old(info).knows(x) ==> final(info).knows(x),
        !old(info).knows(machine_id) ==> !final(info).knows(machine_id),
        forall|x: HostId|
            x != me.id && #[trigger] old(info).knows(x) ==> final(info).peer(x) == old(info).peer(x),
        forall|x: HostId| x != me.id ==> #[trigger] final(info).knows(x) == old(info).knows(x),
        final(info).peer(me.id).report == Some(
            Learned { value: me.report, timestamp: tm, trusted: true },
        ),
        final(info).peer(me.id).roundtrip == before_roundtrip(*old(info), me.id),
        final(info).peer(me.id).last_probe == before_probe(*old(info), me.id),
        final(info).peer(me.id).probes_sent == before(*old(info), me.id, |p: Peer| p.probes_sent),
{
    let id = me.id;
    let idx = info.entry(id);
    let ghost mid = *info;
    proof {
        lemma_index_of(old(info).peers@, id);
        lemma_index_of(mid.peers@, machine_id);
        assert forall|x: HostId| #[trigger] old(info).knows(x) implies mid.knows(x) && (x != id
            ==> mid.peer(x) == old(info).peer(x)) by {
            lemma_index_of(old(info).peers@, x);
            lemma_index_of(mid.peers@, x);
            let k = index_of(old(info).peers@, x);
            assert(mid.peers@[k] == old(info).peers@[k]);
            lemma_index_unique(mid.peers@, k);
        }
        assert forall|x: HostId| x != id && #[trigger] mid.knows(x) implies old(info).knows(x) by {
            if !old(info).knows(id) {
                assert(mid.peers@.drop_last() == old(info).peers@);
                assert(mid.peers@.last().id == id);
            }
        }
        lemma_index_unique(mid.peers@, idx as int);
    }
    let MyInfo { id: _, addresses, host, name, report } = me;
    let p = &mut info.peers[idx];
    let touched = p.primary_addr != Some(addr);
    p.apply_addresses(&addresses, true);
    apply_field(&mut p.report, report, tm, true);
    apply_field(&mut p.hostname, host, tm, true);
    apply_field(&mut p.node_name, name, tm, true);
    if touched {
        p.primary_addr = Some(addr);
    }
    proof {
        assert(info.peers@ == mid.peers@.update(idx as int, info.peers@[idx as int]));
        assert forall|x: HostId| #[trigger] mid.knows(x) implies info.knows(x) && (x != id
            ==> info.peer(x) == mid.peer(x)) by {
            lemma_index_of(mid.peers@, x);
            let k = index_of(mid.peers@, x);
            lemma_index_unique(info.peers@, k);
        }
        lemma_index_of(info.peers@, machine_id);
        if info.knows(machine_id) {
            let k = index_of(info.peers@, machine_id);
            assert(mid.peers@[k].id == machine_id);
            lemma_index_unique(mid.peers@, k);
        }
        lemma_index_unique(info.peers@, idx as int);
        lemma_same_ids(mid.peers@, info.peers@);
        assert forall|x: HostId| x != id implies #[trigger] info.knows(x) == old(info).knows(x) by {
            if info.knows(x) {
                assert(mid.knows(x));
            }
        }
    }
    (idx, touched)
}

/// The sender is touched only by its own packet: the friend list touches
/// only peers that had no primary address, and the sender has one by then.
proof fn lemma_touch_once(
    i0: Info,
    p: Packet,
    addr: Address,
    mid: Info,
    r0: Seq<Action>,
    rf: Seq<Action>,
    r: Seq<Action>,
)
    requires
        r0 == sender_actions(i0, p, addr),
        mid.knows(packet_me(p).id),
        mid.peer(packet_me(p).id).primary_addr == Some(addr),
        rf.len() >= r0.len(),
        forall|k: int| 0 <= k < r0.len() ==> rf[k] == r0[k],
        forall|k: int|
            r0.len() <= k < rf.len() ==> match #[trigger] rf[k] {
                Action::Touch(x) => !mid.knows(x) || mid.peer(x).primary_addr.is_none(),
                Action::Ping(_) => true,
                Action::Pong { .. } => false,
            },
        r == rf || (r.len() == rf.len() + 1 && r.drop_last() == rf && is_pong(r.last())),
    ensures
        r.contains(Action::Touch(packet_me(p).id)) <==> touches(i0, p, addr),
{
    let t = Action::Touch(packet_me(p).id);
    if touches(i0, p, addr) {
        assert(r[0] == rf[0]);
        assert(r[0] == t);
    }
    if r.contains(t) {
        let k = choose|k: int| 0 <= k < r.len() && r[k] == t;
        if k < rf.len() {
            assert(r[k] == rf[k]);
            if k >= r0.len() {
                assert(rf[k] == t);
            }
        }
    }
}

/// Tables with equal ids at equal places find the same peers.
proof fn lemma_same_ids(a: Seq<Peer>, b: Seq<Peer>)
    requires
        a.len() == b.len(),
        forall|k: int| 0 <= k < a.len() ==> a[k].id == b[k].id,
    ensures
        forall|x: HostId| #[trigger] index_of(a, x) == index_of(b, x),
        unique_ids(a) == unique_ids(b),
    decreases a.len(),
{
    if a.len() > 0 {
        assert forall|k: int| 0 <= k < a.len() - 1 implies a.drop_last()[k].id
            == b.drop_last()[k].id by {
            assert(a.drop_last()[k] == a[k]);
            assert(b.drop_last()[k] == b[k]);
        }
        lemma_same_ids(a.drop_last(), b.drop_last());
        assert forall|x: HostId| #[trigger] index_of(a, x) == index_of(b, x) by {
            assert(a.last().id == b.last().id);
            assert(index_of(a.drop_last(), x) == index_of(b.drop_last(), x));
        }
    }
}

/// What one friend entry `f` does to a peer `pb` (giving `pn`) and to the
/// actions `rm` (giving `r1`): its addresses, report, names and round trip
/// are applied as relayed updates; a peer with no primary address takes the
/// one the entry gives, is marked probed at `tm`, touched and pinged.
pub open spec fn friend_update(
    pb: Peer,
    f: FriendInfo,
    tm: u64,
    pn: Peer,
    rm: Seq<Action>,
    r1: Seq<Action>,
) -> bool {
    &&& pn.id == pb.id
    &&& pn.addresses_trusted == pb.addresses_trusted
    &&& pn.addresses@ == if pb.addresses_trusted {
        pb.addresses@
    } else {
        merged(pb.addresses@, f.addresses@)
    }
    &&& pn.report == match f.report {
        Some((ts, rep)) => applied(pb.report, rep, ts, false),
        None => pb.report,
    }
    &&& pn.hostname == match f.host {
        Some(h) => applied(pb.hostname, h, 0, false),
        None => pb.hostname,
    }
    &&& pn.node_name == match f.name {
        Some(n) => applied(pb.node_name, n, 0, false),
        None => pb.node_name,
    }
    &&& pn.roundtrip == match f.roundtrip {
        Some((ts, rtt)) => applied(pb.roundtrip, rtt, ts, false),
        None => pb.roundtrip,
    }
    &&& pn.pings_received == pb.pings_received
    &&& pn.pongs_received == pb.pongs_received
    &&& if pb.primary_addr.is_none() && f.my_primary_addr.is_some() {
        let a = f.my_primary_addr.unwrap();
        &&& pn.primary_addr == Some(a)
        &&& pn.last_probe == Some((tm, a))
        &&& pn.probes_sent == pb.probes_sent.saturating_add(1)
        &&& r1 == rm + seq![Action::Touch(f.id), Action::Ping(a)]
    } else {
        &&& pn.primary_addr == pb.primary_addr
        &&& pn.last_probe == pb.last_probe
        &&& pn.probes_sent == pb.probes_sent
        &&& r1 == rm
    }
}

/// What one friend entry `f` does to the table `i0` (giving `i1`) and to the
/// actions `rm` (giving `r1`). An entry naming this node `me` does nothing;
/// any other adds its peer where unknown and updates it, and only it.
pub open spec fn friend_step(
    i0: Info,
    f: FriendInfo,
    tm: u64,
    me: HostId,
    i1: Info,
    rm: Seq<Action>,
    r1: Seq<Action>,
) -> bool {
    if f.id == me {
        i1 == i0 && r1 == rm
    } else {
        &&& i1.wf()
        &&& i1.has_remote == i0.has_remote
        &&& i1.knows(f.id)
        &&& forall|x: HostId|
            x != f.id ==> (#[trigger] i1.knows(x) == i0.knows(x)) && (i0.knows(x) ==> i1.peer(x)
                == i0.peer(x))
        &&& if i0.knows(f.id) {
            friend_update(i0.peer(f.id), f, tm, i1.peer(f.id), rm, r1)
        } else {
            exists|pb: Peer| is_new(pb, f.id) && friend_update(pb, f, tm, i1.peer(f.id), rm, r1)
        }
    }
}

/// The table `i1` and actions `r1` after the friend entries `fs`, in order,
/// from `i0` and `r0`.
pub open spec fn friends_applied(
    i0: Info,
    fs: Seq<FriendInfo>,
    tm: u64,
    me: HostId,
    i1: Info,
    r0: Seq<Action>,
    r1: Seq<Action>,
) -> bool
    decreases fs.len(),
{
    if fs.len() == 0 {
        i1 == i0 && r1 == r0
    } else {
        exists|im: Info, rm: Seq<Action>|
            friends_applied(i0, fs.drop_last(), tm, me, im, r0, rm) && friend_step(
                im,
                fs.last(),
                tm,
                me,
                i1,
                rm,
                r1,
            )
    }
}

/// Whether `x` is named by no entry of `fs`.
pub open spec fn unnamed(fs: Seq<FriendInfo>, x: HostId) -> bool {
    forall|k: int| 0 <= k < fs.len() ==> (#[trigger] fs[k]).id != x
}

/// Applies a friend list as relayed updates, entry by entry.
fn apply_friends(
    info: &mut Info,
    friends: &Vec<FriendInfo>,
    tm: u64,
    machine_id: HostId,
    r: &mut Vec<Action>,
)
    requires
        old(info).wf(),
    ensures
        friends_applied(*old(info), friends@, tm, machine_id, *final(info), old(r)@, final(r)@),
        relayed_only(*old(info), *final(info), machine_id),
        forall|x: HostId|
            unnamed(friends@, x) ==> (#[trigger] final(info).knows(x) == old(info).knows(x)) && (old(info).knows(x) ==> final(info).peer(x) == old(info).peer(x)),
        final(r)@.len() >= old(r)@.len(),
        forall|k: int| 0 <= k < old(r)@.len() ==> final(r)@[k] == old(r)@[k],
        forall|k: int|
            old(r)@.len() <= k < final(r)@.len() ==> match #[trigger] final(r)@[k] {
                Action::Touch(x) => !old(info).knows(x) || old(info).peer(x).primary_addr.is_none(),
                Action::Ping(_) => true,
                Action::Pong { .. } => false,
            },
{
    let mut i: usize = 0;
    while i < friends.len()
        invariant
            0 <= i <= friends@.len(),
            friends_applied(
                *old(info),
                friends@.take(i as int),
                tm,
                machine_id,
                *info,
                old(r)@,
                r@,
            ),
            relayed_only(*old(info), *info, machine_id),
            forall|x: HostId|
                unnamed(friends@.take(i as int), x) ==> (#[trigger] info.knows(x) == old(info).knows(x)) && (old(info).knows(x) ==> info.peer(x) == old(info).peer(x)),
            r@.len() >= old(r)@.len(),
            forall|k: int| 0 <= k < old(r)@.len() ==> r@[k] == old(r)@[k],
            forall|k: int|
                old(r)@.len() <= k < r@.len() ==> match #[trigger] r@[k] {
                    Action::Touch(x) => !old(info).knows(x) || old(info).peer(x).primary_addr.is_none(),
                    Action::Ping(_) => true,
                    Action::Pong { .. } => false,
                },
        decreases friends@.len() - i,
    {
        let f = &friends[i];
        let ghost prev = *info;
        let ghost r_prev = r@;
        proof {
            assert(friends@.take(i + 1).drop_last() =~= friends@.take(i as int));
            assert(friends@.take(i + 1).last() == friends@[i as int]);
            assert forall|x: HostId| unnamed(friends@.take(i + 1), x) implies unnamed(
                friends@.take(i as int),
                x,
            ) && friends@[i as int].id != x by {
                assert forall|k: int| 0 <= k < i implies (#[trigger] friends@.take(
                    i as int,
                )[k]).id != x by {
                    assert(friends@.take(i + 1)[k] == friends@.take(i as int)[k]);
                }
                assert(friends@.take(i + 1)[i as int] == friends@[i as int]);
            }
        }
        if f.id != machine_id {
            let idx = info.entry(f.id);
            let ghost mid = *info;
            proof {
                lemma_index_of(prev.peers@, f.id);
                lemma_index_of(mid.peers@, machine_id);
                assert forall|x: HostId| #[trigger] prev.knows(x) implies mid.knows(x)
                    && mid.peer(x) == prev.peer(x) by {
                    lemma_index_of(prev.peers@, x);
                    let k = index_of(prev.peers@, x);
                    assert(mid.peers@[k] == prev.peers@[k]);
                    lemma_index_unique(mid.peers@, k);
                }
                assert forall|x: HostId| x != f.id && #[trigger] mid.knows(x) implies prev.knows(x) by {
                    if !prev.knows(f.id) {
                        assert(mid.peers@.drop_last() == prev.peers@);
                        assert(mid.peers@.last().id == f.id);
                    }
                }
            }
            let p = &mut info.peers[idx];
            p.apply_addresses(&f.addresses, false);
            match f.report {
                Some((ts, rep)) => apply_field(&mut p.report, rep, ts, false),
                None => {},
            }
            match &f.host {
                Some(h) => apply_field(&mut p.hostname, h.clone(), 0, false),
                None => {},
            }
            match &f.name {
                Some(n) => apply_field(&mut p.node_name, n.clone(), 0, false),
                None => {},
            }
            match f.roundtrip {
                Some((ts, rtt)) => apply_field(&mut p.roundtrip, rtt, ts, false),
                None => {},
            }
            if p.primary_addr.is_none() {
                match f.my_primary_addr {
                    Some(a) => {
                        p.primary_addr = Some(a);
                        p.last_probe = Some((tm, a));
                        count_up(&mut p.probes_sent);
                        r.push(Action::Touch(f.id));
                        r.push(Action::Ping(a));
                    },
                    None => {},
                }
            }
            proof {
                assert(info.peers@ == mid.peers@.update(idx as int, info.peers@[idx as int]));
                lemma_same_ids(mid.peers@, info.peers@);
                assert forall|x: HostId| #[trigger] mid.knows(x) implies info.knows(x) && (
                x != f.id ==> info.peer(x) == mid.peer(x)) && (x == f.id ==> keeps_direct(
                    mid.peer(x),
                    info.peer(x),
                )) by {
                    lemma_index_of(mid.peers@, x);
                    let k = index_of(mid.peers@, x);
                    lemma_index_unique(info.peers@, k);
                }
                lemma_index_of(info.peers@, machine_id);
                if info.knows(machine_id) {
                    let k = index_of(info.peers@, machine_id);
                    assert(mid.peers@[k].id == machine_id);
                    lemma_index_unique(mid.peers@, k);
                }
                lemma_index_unique(mid.peers@, idx as int);
                lemma_index_unique(info.peers@, idx as int);
                assert(info.peer(f.id) == info.peers@[idx as int]);
                assert(mid.peer(f.id) == mid.peers@[idx as int]);
                if r@.len() > r_prev.len() {
                    assert(r@ =~= r_prev + seq![
                        Action::Touch(f.id),
                        Action::Ping(f.my_primary_addr.unwrap()),
                    ]);
                } else {
                    assert(r@ == r_prev);
                }
                assert(friend_update(mid.peer(f.id), *f, tm, info.peer(f.id), r_prev, r@));
                assert forall|x: HostId|
                    x != f.id implies (#[trigger] info.knows(x) == prev.knows(x)) && (prev.knows(x)
                    ==> info.peer(x) == prev.peer(x)) by {
                    if info.knows(x) {
                        assert(mid.knows(x));
                    }
                }
                if prev.knows(f.id) {
                    assert(friend_update(prev.peer(f.id), *f, tm, info.peer(f.id), r_prev, r@));
                } else {
                    assert(is_new(mid.peer(f.id), f.id));
                }
                assert(friend_step(prev, *f, tm, machine_id, *info, r_prev, r@));
                assert forall|k: int| 0 <= k < old(r)@.len() implies r@[k] == old(r)@[k] by {
                    assert(r@[k] == r_prev[k]);
                }
                assert forall|k: int| old(r)@.len() <= k < r@.len() implies match #[trigger] r@[k] {
                    Action::Touch(x) => !old(info).knows(x) || old(info).peer(x).primary_addr.is_none(),
                    Action::Ping(_) => true,
                    Action::Pong { .. } => false,
                } by {
                    if k < r_prev.len() {
                        assert(r@[k] == r_prev[k]);
                    } else if k == r_prev.len() {
                        assert(r@[k] == Action::Touch(f.id));
                        assert(mid.peer(f.id).primary_addr.is_none());
                        if old(info).knows(f.id) {
                            assert(prev.knows(f.id));
                        }
                    }
                }
            }
        } else {
            proof {
                assert(friend_step(prev, *f, tm, machine_id, *info, r_prev, r@));
            }
        }
        proof {
            assert(friends_applied(
                *old(info),
                friends@.take(i + 1),
                tm,
                machine_id,
                *info,
                old(r)@,
                r@,
            ));
        }
        i = i + 1;
    }
    proof {
        assert(friends@.take(friends@.len() as int) =~= friends@);
    }
}

/// Whether `f` is a friend list for a packet to `to`: at most `limit`
/// entries, one per peer at most, none for the destination, each telling
/// what is known of its peer; and where there are fewer than `limit`, one for every peer
/// but the destination.
pub open spec fn friends_for(f: Seq<FriendInfo>, info: Info, to: Address, limit: usize) -> bool {
    &&& f.len() <= limit
    &&& forall|j: int|
        0 <= j < f.len() ==> info.knows((#[trigger] f[j]).id) && friend_info_of(
            f[j],
            info.peer(f[j].id),
        ) && !is_destination(info.peer(f[j].id), to)
    &&& forall|a: int, b: int| 0 <= a < b < f.len() ==> f[a].id != f[b].id
    &&& f.len() < limit ==> forall|k: int|
        0 <= k < info.peers@.len() && !is_destination(#[trigger] info.peers@[k], to)
            ==> exists|j: int| 0 <= j < f.len() && f[j].id == info.peers@[k].id
}

/// Whether `m` is what this node, configured by `config`, says of itself
/// beside the table `info`: its id, addresses and names, and a report of
/// how many peers it knows (at most `u32::MAX`) and whether it has remote
/// connections.
pub open spec fn my_info_of(m: MyInfo, config: Config, info: Info) -> bool {
    &&& m.id == config.machine_id
    &&& m.addresses@ == config.addresses@
    &&& m.host@ == config.hostname@
    &&& m.name@ == config.name@
    &&& m.report.has_remote == info.has_remote
    &&& m.report.peers as int == if info.peers@.len() < u32::MAX {
        info.peers@.len() as int
    } else {
        u32::MAX as int
    }
}

/// Whether `f` tells others all that this node knows of `p`.
pub open spec fn friend_info_of(f: FriendInfo, p: Peer) -> bool {
    &&& f.id == p.id
    &&& f.my_primary_addr == p.primary_addr
    &&& f.addresses@ == p.addresses@
    &&& f.host == match p.hostname {
        Some(l) => Some(l.value),
        None => None,
    }
    &&& f.name == match p.node_name {
        Some(l) => Some(l.value),
        None => None,
    }
    &&& f.report == match p.report {
        Some(l) => Some((l.timestamp, l.value)),
        None => None,
    }
    &&& f.roundtrip == match p.roundtrip {
        Some(l) => Some((l.timestamp, l.value)),
        None => None,
    }
}

/// A copy of a list of addresses.
fn copy_addresses(v: &Vec<Address>) -> (r: Vec<Address>)
    ensures
        r@ == v@,
{
    let mut r: Vec<Address> = Vec::new();
    let mut i: usize = 0;
    while i < v.len()
        invariant
            0 <= i <= v@.len(),
            r@ == v@.take(i as int),
        decreases v@.len() - i,
    {
        r.push(v[i]);
        i = i + 1;
        proof {
            assert(r@ =~= v@.take(i as int));
        }
    }
    proof {
        assert(v@.take(v@.len() as int) =~= v@);
    }
    r
}

/// What this node tells others of `p`.
fn friend_info(p: &Peer) -> (r: FriendInfo)
    ensures
        friend_info_of(r, *p),
{
    FriendInfo {
        id: p.id,
        my_primary_addr: p.primary_addr,
        addresses: copy_addresses(&p.addresses),
        host: match &p.hostname {
            Some(l) => Some(l.value.clone()),
            None => None,
        },
        name: match &p.node_name {
            Some(l) => Some(l.value.clone()),
            None => None,
        },
        report: match &p.report {
            Some(l) => Some((l.timestamp, l.value)),
            None => None,
        },
        roundtrip: match &p.roundtrip {
            Some(l) => Some((l.timestamp, l.value)),
            None => None,
        },
    }
}

/// The friend list for a packet to `to`: the peers in table order, but the
/// destination, at most `limit` of them.
pub fn info_friends(info: &Info, to: Address, limit: usize) -> (r: Vec<FriendInfo>)
    requires
        info.wf(),
    ensures
        friends_for(r@, *info, to, limit),
{
    let ghost ps = info.peers@;
    let ghost src: Seq<int> = seq![];
    let mut r: Vec<FriendInfo> = Vec::new();
    let mut i: usize = 0;
    while i < info.peers.len() && r.len() < limit
        invariant
            ps == info.peers@,
            unique_ids(ps),
            0 <= i <= ps.len(),
            r@.len() <= limit,
            src.len() == r@.len(),
            forall|j: int|
                0 <= j < src.len() ==> 0 <= #[trigger] src[j] < i && friend_info_of(r@[j], ps[src[j]])
                    && !is_destination(ps[src[j]], to),
            forall|a: int, b: int| 0 <= a < b < src.len() ==> src[a] < src[b],
            forall|k: int|
                0 <= k < i && !is_destination(#[trigger] ps[k], to) ==> exists|j: int|
                    0 <= j < src.len() && src[j] == k,
        decreases ps.len() - i,
    {
        let p = &info.peers[i];
        if p.primary_addr != Some(to) {
            let ghost src_prev = src;
            let f = friend_info(p);
            r.push(f);
            proof {
                src = src.push(i as int);
                assert forall|k: int|
                    0 <= k < i + 1 && !is_destination(#[trigger] ps[k], to) implies exists|j: int|
                    0 <= j < src.len() && src[j] == k by {
                    if k < i {
                        let j = choose|j: int| 0 <= j < src_prev.len() && src_prev[j] == k;
                        assert(src[j] == k);
                    } else {
                        assert(src[src_prev.len() as int] == k);
                    }
                }
            }
        }
        i = i + 1;
    }
    proof {
        assert forall|j: int| 0 <= j < r@.len() implies info.knows((#[trigger] r@[j]).id)
            && friend_info_of(r@[j], info.peer(r@[j].id)) && !is_destination(
            info.peer(r@[j].id),
            to,
        ) by {
            assert(0 <= src[j] < ps.len());
            assert(friend_info_of(r@[j], ps[src[j]]));
            lemma_index_unique(ps, src[j]);
        }
        assert forall|a: int, b: int| 0 <= a < b < r@.len() implies r@[a].id != r@[b].id by {
            assert(src[a] < src[b]);
            assert(0 <= src[a] && src[b] < ps.len());
            assert(friend_info_of(r@[a], ps[src[a]]));
            assert(friend_info_of(r@[b], ps[src[b]]));
        }
        if r@.len() < limit {
            assert forall|k: int|
                0 <= k < ps.len() && !is_destination(#[trigger] ps[k], to) implies exists|j: int|
                0 <= j < r@.len() && r@[j].id == ps[k].id by {
                let j = choose|j: int| 0 <= j < src.len() && src[j] == k;
                assert(friend_info_of(r@[j], ps[src[j]]));
            }
        }
    }
    r
}

} // verus!
