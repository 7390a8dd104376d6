use cantal::gossip::{
    info_friends, Action, AddrStatus, Config, FriendInfo, FutureHost, MyInfo, Packet, Proto,
};
use cantal::peer::{apply_field, Address, HostId, Info, Learned, Peer, Report};

fn addr(n: u16) -> Address {
    Address { ip: 0x0a000001, port: n }
}

fn config() -> Config {
    Config {
        cluster_name: "prod".to_string(),
        machine_id: HostId(1),
        addresses: vec![addr(1)],
        hostname: "self-host".to_string(),
        name: "self".to_string(),
        interval: 1000,
        max_interval: 8000,
        add_host_first_sleep: 500,
    }
}

fn me(id: u128, host: &str) -> MyInfo {
    MyInfo {
        id: HostId(id),
        addresses: vec![addr(id as u16), addr(id as u16)],
        host: host.to_string(),
        name: format!("{}-name", host),
        report: Report { peers: 3, has_remote: false },
    }
}

fn friend(id: u128, host: &str, primary: Option<Address>) -> FriendInfo {
    FriendInfo {
        id: HostId(id),
        my_primary_addr: primary,
        addresses: vec![addr(200)],
        host: Some(host.to_string()),
        name: None,
        report: Some((99, Report { peers: 1, has_remote: true })),
        roundtrip: Some((98, 7)),
    }
}

fn ping(cluster: &str, me: MyInfo, friends: Vec<FriendInfo>) -> Packet {
    Packet::Ping { cluster: cluster.to_string(), me, now: 555, friends }
}

#[test]
fn add_host_twice_queues_once_and_pings_twice() {
    let mut p = Proto::new(config(), 0);
    let a = addr(4242);
    let first = p.add_host(a, 10);
    let second = p.add_host(a, 20);
    assert_eq!(first, vec![Action::Ping(a)]);
    assert_eq!(second, vec![Action::Ping(a)]);
    assert_eq!(
        p.queue,
        vec![FutureHost { deadline: 510, address: a, attempts: 1, timeout: 500 }]
    );
    assert_eq!(p.status(a), Some(AddrStatus::PingSent));
}

#[test]
fn available_host_is_not_pinged_again() {
    let mut p = Proto::new(config(), 0);
    let mut info = Info::new();
    let a = addr(7);
    p.add_host(a, 0);
    p.consume_gossip(&mut info, ping("prod", me(7, "seven"), vec![]), a, 1000);
    assert_eq!(p.status(a), Some(AddrStatus::Available));
    assert!(p.add_host(a, 50).is_empty());
    assert_eq!(p.queue.len(), 1);
}

#[test]
fn retries_double_up_to_the_maximum() {
    let mut p = Proto::new(config(), 0);
    let a = addr(5);
    p.add_host(a, 0);
    assert!(p.retry_due(499).is_empty());
    let expect = [(1000u64, 2u32), (2000, 3), (4000, 4), (8000, 5), (8000, 6)];
    let mut now = 500;
    for (timeout, attempts) in expect {
        assert_eq!(p.retry_due(now), vec![Action::Ping(a)]);
        assert_eq!(
            p.queue[0],
            FutureHost { deadline: now + timeout, address: a, attempts, timeout }
        );
        now += timeout;
    }
}

#[test]
fn wakeup_is_the_earliest_deadline() {
    let mut p = Proto::new(config(), 100);
    assert_eq!(p.next_wakeup(), 1100);
    p.add_host(addr(2), 200);
    assert_eq!(p.next_wakeup(), 700);
}

#[test]
fn other_cluster_changes_nothing() {
    let mut p = Proto::new(config(), 0);
    let mut info = Info::new();
    let r = p.consume_gossip(&mut info, ping("staging", me(2, "two"), vec![]), addr(2), 10);
    assert!(r.is_empty());
    assert!(info.peers.is_empty());
}

#[test]
fn own_packet_changes_nothing() {
    let mut p = Proto::new(config(), 0);
    let mut info = Info::new();
    let r = p.consume_gossip(
        &mut info,
        ping("prod", me(1, "self"), vec![friend(3, "three", Some(addr(3)))]),
        addr(1),
        10,
    );
    assert!(r.is_empty());
    assert!(info.peers.is_empty());
}

#[test]
fn ping_is_recorded_and_answered() {
    let mut p = Proto::new(config(), 0);
    let mut info = Info::new();
    let r = p.consume_gossip(&mut info, ping("prod", me(2, "two"), vec![]), addr(2), 777);
    assert_eq!(
        r,
        vec![
            Action::Touch(HostId(2)),
            Action::Pong { to: addr(2), ping_time: 555, peer_time: 777 }
        ]
    );
    let peer = &info.peers[0];
    assert_eq!(peer.id, HostId(2));
    assert_eq!(peer.primary_addr, Some(addr(2)));
    assert_eq!(peer.addresses, vec![addr(2)]);
    assert_eq!(peer.pings_received, 1);
    assert_eq!(peer.hostname.as_ref().unwrap().value, "two");
    assert!(peer.hostname.as_ref().unwrap().trusted);
    assert_eq!(peer.node_name.as_ref().unwrap().value, "two-name");
    let r = p.consume_gossip(&mut info, ping("prod", me(2, "two"), vec![]), addr(2), 800);
    assert_eq!(r, vec![Action::Pong { to: addr(2), ping_time: 555, peer_time: 800 }]);
    assert_eq!(info.peers[0].pings_received, 2);
}

#[test]
fn pong_records_round_trip() {
    let mut p = Proto::new(config(), 0);
    let mut info = Info::new();
    let pong = Packet::Pong {
        cluster: "prod".to_string(),
        me: me(4, "four"),
        ping_time: 1000,
        peer_time: 1010,
        friends: vec![],
    };
    let r = p.consume_gossip(&mut info, pong, addr(4), 1030);
    assert_eq!(r, vec![Action::Touch(HostId(4))]);
    let peer = &info.peers[0];
    assert_eq!(peer.pongs_received, 1);
    let rt = peer.roundtrip.as_ref().unwrap();
    assert_eq!((rt.timestamp, rt.value, rt.trusted), (1030, 30, true));
}

#[test]
fn friends_are_probed_once() {
    let mut p = Proto::new(config(), 0);
    let mut info = Info::new();
    let friends = vec![
        friend(3, "three", Some(addr(3))),
        friend(1, "self", Some(addr(1))),
        friend(5, "five", None),
    ];
    let r = p.consume_gossip(&mut info, ping("prod", me(2, "two"), friends), addr(2), 1000);
    assert_eq!(
        r,
        vec![
            Action::Touch(HostId(2)),
            Action::Touch(HostId(3)),
            Action::Ping(addr(3)),
            Action::Pong { to: addr(2), ping_time: 555, peer_time: 1000 }
        ]
    );
    assert_eq!(info.peers.len(), 3);
    let three = info.peers.iter().find(|x| x.id == HostId(3)).unwrap();
    assert_eq!(three.last_probe, Some((1000, addr(3))));
    assert_eq!(three.probes_sent, 1);
    assert!(!three.hostname.as_ref().unwrap().trusted);
    assert!(info.peers.iter().all(|x| x.id != HostId(1)));
}

#[test]
fn direct_update_overrides_relayed_one() {
    let mut p = Proto::new(config(), 0);
    let mut info = Info::new();
    p.consume_gossip(
        &mut info,
        ping("prod", me(2, "two"), vec![friend(3, "relayed", Some(addr(3)))]),
        addr(2),
        2000,
    );
    p.consume_gossip(&mut info, ping("prod", me(3, "direct"), vec![]), addr(3), 1500);
    let three = info.peers.iter().find(|x| x.id == HostId(3)).unwrap();
    assert_eq!(three.hostname.as_ref().unwrap().value, "direct");
    p.consume_gossip(
        &mut info,
        ping("prod", me(2, "two"), vec![friend(3, "relayed again", Some(addr(3)))]),
        addr(2),
        3000,
    );
    let three = info.peers.iter().find(|x| x.id == HostId(3)).unwrap();
    assert_eq!(three.hostname.as_ref().unwrap().value, "direct");
    assert!(three.hostname.as_ref().unwrap().trusted);
}

#[test]
fn field_trust_rule() {
    let mut f: Option<Learned<u64>> = None;
    apply_field(&mut f, 1, 100, false);
    assert_eq!(f.as_ref().unwrap().value, 1);
    apply_field(&mut f, 2, 50, true);
    assert_eq!(f.as_ref().unwrap().value, 2);
    apply_field(&mut f, 3, 50, false);
    assert_eq!(f.as_ref().unwrap().value, 2);
    apply_field(&mut f, 4, 51, false);
    assert_eq!(f.as_ref().unwrap().value, 4);
    apply_field(&mut f, 5, 10, true);
    assert_eq!(f.as_ref().unwrap().value, 5);
}

#[test]
fn broadcast_skips_recent_peers() {
    let mut p = Proto::new(config(), 0);
    let mut info = Info::new();
    for id in 2..20u128 {
        let mut peer = Peer::new(HostId(id));
        if id != 5 {
            peer.primary_addr = Some(addr(id as u16));
        }
        if id == 3 {
            peer.last_probe = Some((9000, addr(3)));
        }
        if id == 4 {
            peer.report = Some(Learned {
                value: Report { peers: 0, has_remote: false },
                timestamp: 8000,
                trusted: true,
            });
        }
        info.peers.push(peer);
    }
    assert!(p.broadcast(&mut info, 999, 10_000).is_empty());
    let r = p.broadcast(&mut info, 1000, 10_000);
    let expected: Vec<Action> = [2u16, 6, 7, 8, 9, 10, 11, 12, 13, 14]
        .iter()
        .map(|n| Action::Ping(addr(*n)))
        .collect();
    assert_eq!(r, expected);
    assert_eq!(p.next_ping, 2000);
    assert_eq!(info.peers[0].last_probe, Some((10_000, addr(2))));
    assert_eq!(info.peers[0].probes_sent, 1);
    assert_eq!(info.peers[1].last_probe, Some((9000, addr(3))));
}

#[test]
fn tick_broadcasts_then_retries() {
    let mut p = Proto::new(config(), 0);
    let mut info = Info::new();
    let mut peer = Peer::new(HostId(2));
    peer.primary_addr = Some(addr(2));
    info.peers.push(peer);
    p.add_host(addr(9), 0);
    let r = p.tick(&mut info, 1000, 50_000);
    assert_eq!(r, vec![Action::Ping(addr(2)), Action::Ping(addr(9))]);
}

#[test]
fn friend_list_leaves_out_the_destination() {
    let mut info = Info::new();
    for id in 2..6u128 {
        let mut peer = Peer::new(HostId(id));
        peer.primary_addr = Some(addr(id as u16));
        info.peers.push(peer);
    }
    let f = info_friends(&info, addr(3), 10);
    let ids: Vec<HostId> = f.iter().map(|x| x.id).collect();
    assert_eq!(ids, vec![HostId(2), HostId(4), HostId(5)]);
    assert_eq!(info_friends(&info, addr(3), 2).len(), 2);
    let p = Proto::new(config(), 0);
    match p.ping_packet(&info, addr(2), 42, 10) {
        Packet::Ping { cluster, me, now, friends } => {
            assert_eq!(cluster, "prod");
            assert_eq!(me.id, HostId(1));
            assert_eq!(me.report.peers, 4);
            assert_eq!(now, 42);
            assert_eq!(friends.len(), 3);
        }
        _ => panic!("expected a ping"),
    }
    match p.pong_packet(&info, addr(2), 7, 42, 10) {
        Packet::Pong { ping_time, peer_time, .. } => assert_eq!((ping_time, peer_time), (7, 42)),
        _ => panic!("expected a pong"),
    }
}

#[test]
fn pong_with_times_out_of_order_keeps_round_trip() {
    let mut p = Proto::new(config(), 0);
    let mut info = Info::new();
    let pong = Packet::Pong {
        cluster: "prod".to_string(),
        me: me(4, "four"),
        ping_time: 2000,
        peer_time: 1500,
        friends: vec![],
    };
    let r = p.consume_gossip(&mut info, pong, addr(4), 2100);
    assert_eq!(r, vec![Action::Touch(HostId(4))]);
    assert!(info.peers[0].roundtrip.is_none());
    assert_eq!(info.peers[0].pings_received, 0);
    let rep = info.peers[0].report.as_ref().unwrap();
    assert_eq!((rep.value, rep.timestamp, rep.trusted), (Report { peers: 3, has_remote: false }, 2100, true));
}

#[test]
fn packets_describe_this_node_and_its_friends() {
    let mut info = Info::new();
    let mut peer = Peer::new(HostId(9));
    peer.primary_addr = Some(addr(9));
    peer.addresses = vec![addr(9), addr(10)];
    peer.hostname = Some(Learned { value: "nine".to_string(), timestamp: 5, trusted: true });
    peer.roundtrip = Some(Learned { value: 12, timestamp: 6, trusted: false });
    info.peers.push(peer);
    info.has_remote = true;
    let p = Proto::new(config(), 0);
    match p.ping_packet(&info, addr(2), 42, 10) {
        Packet::Ping { me, friends, .. } => {
            assert_eq!(me.addresses, vec![addr(1)]);
            assert_eq!(me.host, "self-host");
            assert_eq!(me.name, "self");
            assert_eq!(me.report, Report { peers: 1, has_remote: true });
            assert_eq!(friends.len(), 1);
            let f = &friends[0];
            assert_eq!(f.addresses, vec![addr(9), addr(10)]);
            assert_eq!(f.host.as_deref(), Some("nine"));
            assert_eq!(f.name, None);
            assert_eq!(f.roundtrip, Some((6, 12)));
            assert_eq!(f.report, None);
        }
        _ => panic!("expected a ping"),
    }
    assert!(info_friends(&info, addr(9), 10).is_empty());
}

#[test]
fn relayed_report_needs_to_be_newer_than_a_direct_one() {
    let mut p = Proto::new(config(), 0);
    let mut info = Info::new();
    p.consume_gossip(&mut info, ping("prod", me(3, "three"), vec![]), addr(3), 100);
    let mut f = friend(3, "relayed", Some(addr(30)));
    f.report = Some((90, Report { peers: 7, has_remote: true }));
    p.consume_gossip(&mut info, ping("prod", me(2, "two"), vec![f]), addr(2), 200);
    let three = info.peers.iter().find(|x| x.id == HostId(3)).unwrap();
    assert_eq!(three.report.as_ref().unwrap().timestamp, 100);
    assert_eq!(three.primary_addr, Some(addr(3)));
    let mut f = friend(3, "relayed", None);
    f.report = Some((150, Report { peers: 7, has_remote: true }));
    p.consume_gossip(&mut info, ping("prod", me(2, "two"), vec![f]), addr(2), 300);
    let three = info.peers.iter().find(|x| x.id == HostId(3)).unwrap();
    assert_eq!(three.report.as_ref().unwrap().value.peers, 7);
    assert!(!three.report.as_ref().unwrap().trusted);
}
