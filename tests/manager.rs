use cantal::manager::{Connect, Manager, Message, State, Throttle, INITIAL_TIME, MAX_TIME};
use cantal::peer::{Address, HostId, Info, Peer};

fn addr(n: u16) -> Address {
    Address { ip: 0x7f000001, port: n }
}

fn table(peers: &[(u128, Option<u16>)]) -> Info {
    let mut info = Info::new();
    for &(id, port) in peers {
        let mut p = Peer::new(HostId(id));
        p.primary_addr = port.map(addr);
        info.peers.push(p);
    }
    info
}

fn throttle_of(m: &Manager, id: u128) -> Option<Throttle> {
    let st = m.state.as_ref().unwrap();
    st.throttled.iter().find(|e| e.0 == HostId(id)).map(|e| e.1)
}

#[test]
fn start_with_unaddressed_peer_throttles_it() {
    let info = table(&[(7, None)]);
    let mut m = Manager::new();
    let opened = m.receive_message(Message::Start, &info, 10_000);
    assert!(opened.is_empty());
    let st = m.state.as_ref().unwrap();
    assert_eq!(st.throttled.len(), 1);
    assert_eq!(throttle_of(&m, 7), Some(Throttle { timestamp: 10_000 - INITIAL_TIME, num: 1 }));
    assert!(st.active.is_empty());

    let info = table(&[(7, Some(4000))]);
    let opened = m.receive_message(Message::PeersUpdated, &info, 10_050);
    assert_eq!(opened, vec![Connect { id: HostId(7), addr: addr(4000) }]);
    let st = m.state.as_ref().unwrap();
    assert_eq!(st.active, vec![HostId(7)]);
    assert!(st.throttled.is_empty());
}

#[test]
fn peers_updated_before_start_is_ignored() {
    let info = table(&[(1, Some(1))]);
    let mut m = Manager::new();
    assert!(m.receive_message(Message::PeersUpdated, &info, 5).is_empty());
    assert!(m.state.is_none());
    let opened = m.receive_message(Message::Start, &info, 5);
    assert_eq!(opened.len(), 1);
    assert!(m.receive_message(Message::Start, &info, 6).is_empty());
    assert!(m.receive_message(Message::PeersUpdated, &info, 7).is_empty());
    assert_eq!(m.state.as_ref().unwrap().active, vec![HostId(1)]);
}

#[test]
fn repeated_deaths_grow_one_throttle() {
    let info = table(&[(9, Some(9000))]);
    let mut m = Manager::new();
    assert_eq!(m.receive_message(Message::Start, &info, 1000).len(), 1);

    assert!(m.poll(&info, &vec![HostId(9)], 1000).is_empty());
    assert_eq!(throttle_of(&m, 9), Some(Throttle { timestamp: 1100, num: 1 }));
    assert_eq!(m.poll(&info, &vec![], 1200), vec![Connect { id: HostId(9), addr: addr(9000) }]);

    assert!(m.poll(&info, &vec![HostId(9)], 1300).is_empty());
    assert_eq!(throttle_of(&m, 9), Some(Throttle { timestamp: 1500, num: 2 }));
    assert_eq!(m.poll(&info, &vec![], 1600).len(), 1);

    assert!(m.poll(&info, &vec![HostId(9)], 1700).is_empty());
    assert_eq!(throttle_of(&m, 9), Some(Throttle { timestamp: 2000, num: 3 }));
    assert_eq!(m.state.as_ref().unwrap().throttled.len(), 1);
}

#[test]
fn throttle_delay_is_capped() {
    let mut t = Throttle::new(0);
    assert_eq!(t, Throttle { timestamp: INITIAL_TIME, num: 1 });
    for n in 2..=200u32 {
        t.bump(50);
        assert_eq!(t.num, n);
        let expected = std::cmp::min(INITIAL_TIME * n as u64, MAX_TIME);
        assert_eq!(t.timestamp, 50 + expected);
    }
    assert_eq!(t.timestamp, 50 + MAX_TIME);
}

#[test]
fn due_peer_without_address_is_bumped_and_sets_timer() {
    let mut st = State::new(0);
    st.insert_throttle(HostId(3), 1000);
    st.insert_throttle(HostId(4), 1000);
    let info = table(&[(3, None)]);
    let opened = st.new_connections(&info, 2000);
    assert!(opened.is_empty());
    assert_eq!(st.throttled, vec![(HostId(3), Throttle { timestamp: 2200, num: 2 })]);
    assert_eq!(st.timer, 2200);
}

#[test]
fn timer_is_a_day_ahead_when_nothing_waits() {
    let mut st = State::new(0);
    let info = table(&[]);
    assert!(st.new_connections(&info, 500).is_empty());
    assert_eq!(st.timer, 500 + 86_400_000);
}

#[test]
fn active_peers_get_no_second_connection() {
    let info = table(&[(1, Some(10)), (2, Some(20)), (3, None)]);
    let mut st = State::new(0);
    let first = st.check_connections(&info, 1000);
    assert_eq!(first.len(), 2);
    let second = st.check_connections(&info, 1001);
    assert!(second.is_empty());
    st.dead_connections(&vec![HostId(1)], 1002);
    assert!(!st.is_active(HostId(1)));
    assert!(st.is_active(HostId(2)));
    let third = st.new_connections(&info, 1200);
    assert_eq!(third, vec![Connect { id: HostId(1), addr: addr(10) }]);
    assert_eq!(st.active.iter().filter(|x| **x == HostId(1)).count(), 1);
}

#[test]
fn forgotten_peer_loses_its_throttle() {
    let mut st = State::new(0);
    st.bump_throttle(HostId(5), 100);
    let info = table(&[]);
    assert!(st.new_connections(&info, 1000).is_empty());
    assert!(st.throttled.is_empty());
    st.remove_active(HostId(5));
    st.remove_throttle(HostId(5));
    assert!(st.throttled.is_empty());
}

#[test]
fn restarted_peer_is_not_left_due() {
    let info = table(&[(9, Some(9000))]);
    let mut m = Manager::new();
    m.receive_message(Message::Start, &info, 1000);
    m.poll(&info, &vec![HostId(9)], 1000);
    assert_eq!(throttle_of(&m, 9), Some(Throttle { timestamp: 1100, num: 1 }));
    assert_eq!(m.poll(&info, &vec![], 1200).len(), 1);
    assert_eq!(throttle_of(&m, 9), Some(Throttle { timestamp: 1200, num: 1 }));
    assert!(m.poll(&info, &vec![], 5000).is_empty());
    assert_eq!(throttle_of(&m, 9), Some(Throttle { timestamp: 5000, num: 1 }));
    assert!(m.poll(&info, &vec![HostId(9)], 6000).is_empty());
    assert_eq!(throttle_of(&m, 9), Some(Throttle { timestamp: 6200, num: 2 }));
}
