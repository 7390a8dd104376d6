//! The table of peers that gossip has heard of.
//!
//! Every field learned about a peer remembers when it was learned and whether
//! it came from the peer itself (trusted) or from a third party's friend
//! list. A trusted update always wins; a relayed one never replaces a trusted
//! value unless it is newer.
use vstd::prelude::*;

verus! {

/// A host's identity: a fixed-width machine id.
#[derive(PartialEq, Eq, Structural, Clone, Copy, Debug, Hash)]
pub struct HostId(pub u128);

/// A UDP address: an IPv6 address (IPv4 ones mapped into it) and a port.
#[derive(PartialEq, Eq, Structural, Clone, Copy, Debug, Hash)]
pub struct Address {
    pub ip: u128,
    pub port: u16,
}

/// What a peer said of itself: how many peers it knows and whether it has
/// remote connections enabled.
#[derive(PartialEq, Eq, Structural, Clone, Copy, Debug)]
pub struct Report {
    pub peers: u32,
    pub has_remote: bool,
}

/// A field's value, the time (ms) it was learned at, and whether it came
/// from the peer itself.
#[derive(Debug)]
pub struct Learned<T> {
    pub value: T,
    pub timestamp: u64,
    pub trusted: bool,
}

/// Whether an update learned at `timestamp` replaces the field's value `cur`:
/// a trusted one always, a relayed one only where no trusted value is there
/// or where it is newer.
pub open spec fn accepts<T>(cur: Option<Learned<T>>, timestamp: u64, trusted: bool) -> bool {
    trusted || match cur {
        None => true,
        Some(l) => !l.trusted || timestamp > l.timestamp,
    }
}

/// The field `cur` after an update with `value`.
pub open spec fn applied<T>(cur: Option<Learned<T>>, value: T, timestamp: u64, trusted: bool) -> Option<
    Learned<T>,
> {
    if accepts(cur, timestamp, trusted) {
        Some(Learned { value, timestamp, trusted })
    } else {
        cur
    }
}

/// Applies one update to a field by the trust rule.
pub fn apply_field<T>(field: &mut Option<Learned<T>>, value: T, timestamp: u64, trusted: bool)
    ensures
        *final(field) == applied(*old(field), value, timestamp, trusted),
{
    let take = match field {
        None => true,
        Some(l) => trusted || !l.trusted || timestamp > l.timestamp,
    };
    if take {
        *field = Some(Learned { value, timestamp, trusted });
    }
}

/// A trusted value learned at `t0` stays in place after a relayed update
/// that is not newer, and replaces a relayed value whatever its time: so of a
/// relayed update at `t1` followed by a direct one at `t0 < t1`, the direct
/// one is what remains.
pub proof fn lemma_trust_override<T>(
    cur: Option<Learned<T>>,
    relayed: T,
    t1: u64,
    direct: T,
    t0: u64,
)
    requires
        t0 < t1,
    ensures
        applied(applied(cur, relayed, t1, false), direct, t0, true) == Some(
            Learned { value: direct, timestamp: t0, trusted: true },
        ),
        applied(applied(cur, direct, t0, true), relayed, t0, false) == Some(
            Learned { value: direct, timestamp: t0, trusted: true },
        ),
{
}

/// Increments a counter, staying at the largest value once there.
pub fn count_up(c: &mut u64)
    ensures
        *final(c) == old(c).saturating_add(1),
{
    *c = c.saturating_add(1);
}

/// What is known of one peer.
#[derive(Debug)]
pub struct Peer {
    pub id: HostId,
    /// The address believed best for contacting the peer.
    pub primary_addr: Option<Address>,
    /// Its known addresses, without repeats.
    pub addresses: Vec<Address>,
    /// Whether `addresses` came from the peer itself.
    pub addresses_trusted: bool,
    pub hostname: Option<Learned<String>>,
    pub node_name: Option<Learned<String>>,
    pub report: Option<Learned<Report>>,
    /// The last measured round trip in ms, stamped with when it was measured.
    pub roundtrip: Option<Learned<u64>>,
    pub pings_received: u64,
    pub pongs_received: u64,
    pub probes_sent: u64,
    /// When (ms) and where the last ping to the peer went.
    pub last_probe: Option<(u64, Address)>,
}

/// Whether `s` holds `a`.
pub open spec fn has_addr(s: Seq<Address>, a: Address) -> bool {
    exists|i: int| 0 <= i < s.len() && s[i] == a
}

/// `s` followed by those of `t` it lacks, each once, in the order of `t`.
pub open spec fn merged(s: Seq<Address>, t: Seq<Address>) -> Seq<Address>
    decreases t.len(),
{
    if t.len() == 0 {
        s
    } else {
        let m = merged(s, t.drop_last());
        if has_addr(m, t.last()) {
            m
        } else {
            m.push(t.last())
        }
    }
}

/// Whether `p` is a peer of which nothing but the id `id` is known.
pub open spec fn is_new(p: Peer, id: HostId) -> bool {
    &&& p.id == id
    &&& p.primary_addr.is_none()
    &&& p.addresses@.len() == 0
    &&& !p.addresses_trusted
    &&& p.hostname.is_none()
    &&& p.node_name.is_none()
    &&& p.report.is_none()
    &&& p.roundtrip.is_none()
    &&& p.pings_received == 0
    &&& p.pongs_received == 0
    &&& p.probes_sent == 0
    &&& p.last_probe.is_none()
}

impl Peer {
    /// A peer of which nothing but the id is known.
    pub fn new(id: HostId) -> (r: Peer)
        ensures
            is_new(r, id),
    {
        Peer {
            id,
            primary_addr: None,
            addresses: Vec::new(),
            addresses_trusted: false,
            hostname: None,
            node_name: None,
            report: None,
            roundtrip: None,
            pings_received: 0,
            pongs_received: 0,
            probes_sent: 0,
            last_probe: None,
        }
    }

    /// Applies a list of addresses: one from the peer itself replaces the
    /// list; a relayed one adds what is missing, unless the list came from
    /// the peer itself.
    pub fn apply_addresses(&mut self, addrs: &Vec<Address>, trusted: bool)
        ensures
            final(self).id == old(self).id,
            final(self).primary_addr == old(self).primary_addr,
            final(self).hostname == old(self).hostname,
            final(self).node_name == old(self).node_name,
            final(self).report == old(self).report,
            final(self).roundtrip == old(self).roundtrip,
            final(self).pings_received == old(self).pings_received,
            final(self).pongs_received == old(self).pongs_received,
            final(self).probes_sent == old(self).probes_sent,
            final(self).last_probe == old(self).last_probe,
            trusted ==> final(self).addresses@ == merged(seq![], addrs@),
            trusted ==> final(self).addresses_trusted,
            !trusted && old(self).addresses_trusted ==> final(self).addresses@ == old(self).addresses@,
            !trusted && old(self).addresses_trusted ==> final(self).addresses_trusted,
            !trusted && !old(self).addresses_trusted ==> final(self).addresses@ == merged(
                old(self).addresses@,
                addrs@,
            ) && !final(self).addresses_trusted,
    {
        if !trusted && self.addresses_trusted {
            return;
        }
        if trusted {
            self.addresses = Vec::new();
            self.addresses_trusted = true;
        }
        let ghost base = self.addresses@;
        let mut i: usize = 0;
        while i < addrs.len()
            invariant
                0 <= i <= addrs@.len(),
                self.addresses@ == merged(base, addrs@.take(i as int)),
                self.id == old(self).id,
                self.primary_addr == old(self).primary_addr,
                self.hostname == old(self).hostname,
                self.node_name == old(self).node_name,
                self.report == old(self).report,
                self.roundtrip == old(self).roundtrip,
                self.pings_received == old(self).pings_received,
                self.pongs_received == old(self).pongs_received,
                self.probes_sent == old(self).probes_sent,
                self.last_probe == old(self).last_probe,
                self.addresses_trusted == (trusted || old(self).addresses_trusted),
            decreases addrs@.len() - i,
        {
            let a = addrs[i];
            proof {
                assert(addrs@.take(i + 1).drop_last() =~= addrs@.take(i as int));
            }
            let mut found = false;
            let mut j: usize = 0;
            while j < self.addresses.len()
                invariant
                    0 <= j <= self.addresses@.len(),
                    found == (exists|k: int| 0 <= k < j && self.addresses@[k] == a),
                decreases self.addresses@.len() - j,
            {
                if self.addresses[j] == a {
                    found = true;
                }
                j = j + 1;
            }
            if !found {
                self.addresses.push(a);
            }
            i = i + 1;
        }
        proof {
            assert(addrs@.take(addrs@.len() as int) =~= addrs@);
        }
    }
}

/// The index of the last peer of `peers` with id `id`, or -1.
pub open spec fn index_of(peers: Seq<Peer>, id: HostId) -> int
    decreases peers.len(),
{
    if peers.len() == 0 {
        -1
    } else if peers.last().id == id {
        peers.len() - 1
    } else {
        index_of(peers.drop_last(), id)
    }
}

/// Whether no two peers of `peers` share an id.
pub open spec fn unique_ids(peers: Seq<Peer>) -> bool {
    forall|i: int, j: int| 0 <= i < j < peers.len() ==> peers[i].id != peers[j].id
}

pub proof fn lemma_index_of(peers: Seq<Peer>, id: HostId)
    ensures
        -1 <= index_of(peers, id) < peers.len(),
        index_of(peers, id) >= 0 ==> peers[index_of(peers, id)].id == id,
        index_of(peers, id) == -1 <==> forall|i: int| 0 <= i < peers.len() ==> peers[i].id != id,
    decreases peers.len(),
{
    if peers.len() > 0 {
        lemma_index_of(peers.drop_last(), id);
        assert(forall|i: int| 0 <= i < peers.len() - 1 ==> peers.drop_last()[i] == peers[i]);
    }
}

pub proof fn lemma_index_unique(peers: Seq<Peer>, i: int)
    requires
        unique_ids(peers),
        0 <= i < peers.len(),
    ensures
        index_of(peers, peers[i].id) == i,
    decreases peers.len(),
{
    if i < peers.len() - 1 {
        lemma_index_unique(peers.drop_last(), i);
    }
}

/// The shared gossip state: every peer heard of, each id once.
pub struct Info {
    pub peers: Vec<Peer>,
    pub has_remote: bool,
}

impl Info {
    /// Whether no two peers share an id.
    pub open spec fn wf(&self) -> bool {
        unique_ids(self.peers@)
    }

    /// Whether a peer with id `id` is known.
    pub open spec fn knows(&self, id: HostId) -> bool {
        index_of(self.peers@, id) >= 0
    }

    /// The peer with id `id`, where known.
    pub open spec fn peer(&self, id: HostId) -> Peer {
        self.peers@[index_of(self.peers@, id)]
    }

    /// An empty table.
    pub fn new() -> (r: Info)
        ensures
            r.wf(),
            r.peers@.len() == 0,
            !r.has_remote,
    {
        Info { peers: Vec::new(), has_remote: false }
    }

    /// The index of the peer with id `id`, where known.
    pub fn find(&self, id: HostId) -> (r: Option<usize>)
        ensures
            r.is_none() <==> !self.knows(id),
            r.is_some() ==> r.unwrap() == index_of(self.peers@, id),
    {
        proof {
            lemma_index_of(self.peers@, id);
        }
        let mut i: usize = self.peers.len();
        proof {
            assert(self.peers@.take(i as int) =~= self.peers@);
        }
        while i > 0
            invariant
                0 <= i <= self.peers@.len(),
                index_of(self.peers@, id) == index_of(self.peers@.take(i as int), id),
            decreases i,
        {
            proof {
                assert(self.peers@.take(i as int).drop_last() =~= self.peers@.take(i - 1));
            }
            if self.peers[i - 1].id == id {
                return Some(i - 1);
            }
            i = i - 1;
        }
        None
    }

    /// The index of the peer with id `id`, added as a new peer where unknown.
    pub fn entry(&mut self, id: HostId) -> (r: usize)
        requires
            old(self).wf(),
        ensures
            final(self).wf(),
            final(self).has_remote == old(self).has_remote,
            r < final(self).peers@.len(),
            final(self).peers@[r as int].id == id,
            r == index_of(final(self).peers@, id),
            old(self).knows(id) ==> final(self).peers@ == old(self).peers@,
            !old(self).knows(id) ==> final(self).peers@.drop_last() == old(self).peers@ && is_new(
                final(self).peers@.last(),
                id,
            ),
    {
        match self.find(id) {
            Some(i) => {
                proof {
                    lemma_index_of(self.peers@, id);
                }
                i
            },
            None => {
                proof {
                    lemma_index_of(self.peers@, id);
                }
                let p = Peer::new(id);
                self.peers.push(p);
                let r = self.peers.len() - 1;
                proof {
                    assert(self.peers@.drop_last() =~= old(self).peers@);
                }
                r
            },
        }
    }
}

} // verus!
