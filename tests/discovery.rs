use discovery::addr::{Addr, RemoteAddress};
use discovery::known::{AddrKnown, DEFAULT_MAX_KNOWN};
use discovery::manager::DiscoveryAddressManager;
use discovery::message::{
    verify_nodes_message, DiscoveryMessage, GetNodes, MisbehaveResult, Misbehavior, Node, Nodes,
    Payload,
};
use discovery::protocol::{Action, DiscoveryProtocol};
use discovery::state::SessionState;

fn v4(a: u8, b: u8, c: u8, d: u8) -> u128 {
    (0xffffu128 << 32) | u32::from_be_bytes([a, b, c, d]) as u128
}

// public IPv4 addresses 1.0.x.y
fn addr(n: u32) -> Addr {
    Addr { ip: v4(1, 0, (n >> 8) as u8, n as u8), port: 8114 }
}

// loopback addresses 127.0.x.y
fn local_addr(n: u32) -> Addr {
    Addr { ip: v4(127, 0, (n >> 8) as u8, n as u8), port: 8114 }
}

fn nodes(announce: bool, items: usize, addrs_each: usize) -> Nodes {
    let mut v = Vec::new();
    for i in 0..items {
        let addrs = (0..addrs_each).map(|k| addr((i * 4 + k) as u32)).collect();
        v.push(Node::with_addrs(addrs));
    }
    Nodes { announce, items: v }
}

fn get_nodes(count: u32, listen_port: Option<u16>, version: u32) -> Option<DiscoveryMessage> {
    Some(DiscoveryMessage { payload: Some(Payload::GetNodes(GetNodes { listen_port, count, version })) })
}

fn nodes_msg(n: Nodes) -> Option<DiscoveryMessage> {
    Some(DiscoveryMessage { payload: Some(Payload::Nodes(n)) })
}

fn manager_with(n: u32) -> DiscoveryAddressManager {
    let mut m = DiscoveryAddressManager::new();
    m.add_new_addrs(0, (0..n).map(addr).collect());
    m
}

fn answer(actions: &[Action], id: usize) -> &Nodes {
    assert_eq!(actions.len(), 1);
    match &actions[0] {
        Action::Send { session, msg: DiscoveryMessage { payload: Some(Payload::Nodes(n)) } } => {
            assert_eq!(*session, id);
            n
        }
        other => panic!("unexpected action {:?}", other),
    }
}

fn is_disconnect(actions: &[Action], id: usize) -> bool {
    actions.len() == 1 && matches!(actions[0], Action::Disconnect { session } if session == id)
}

#[test]
fn announce_batch_boundary() {
    assert_eq!(verify_nodes_message(&nodes(true, 10, 1)), None);
    assert_eq!(
        verify_nodes_message(&nodes(true, 11, 1)),
        Some(Misbehavior::TooManyItems { announce: true, length: 11 })
    );
    assert_eq!(verify_nodes_message(&nodes(true, 0, 1)), None);
}

#[test]
fn answer_batch_boundary() {
    assert_eq!(verify_nodes_message(&nodes(false, 1000, 1)), None);
    assert_eq!(
        verify_nodes_message(&nodes(false, 1001, 1)),
        Some(Misbehavior::TooManyItems { announce: false, length: 1001 })
    );
    // an announce-sized limit does not apply to answers
    assert_eq!(verify_nodes_message(&nodes(false, 11, 3)), None);
}

#[test]
fn too_many_addresses_in_an_item() {
    assert_eq!(verify_nodes_message(&nodes(true, 2, 4)), Some(Misbehavior::TooManyAddresses(4)));
    assert_eq!(verify_nodes_message(&nodes(false, 5, 3)), None);
    let mut n = nodes(false, 3, 1);
    n.items[1] = Node::with_addrs((0..5).map(addr).collect());
    n.items[2] = Node::with_addrs((0..7).map(addr).collect());
    assert_eq!(verify_nodes_message(&n), Some(Misbehavior::TooManyAddresses(5)));
    // item count is checked first
    assert_eq!(
        verify_nodes_message(&nodes(true, 11, 4)),
        Some(Misbehavior::TooManyItems { announce: true, length: 11 })
    );
}

#[test]
fn duplicate_get_nodes_only_on_second() {
    let mut p = DiscoveryProtocol::new(manager_with(3), None);
    p.connected(7, addr(100), false, None);
    let r = p.received(7, get_nodes(10, None, 0));
    assert_eq!(answer(&r, 7).items.len(), 3);
    let r = p.received(7, get_nodes(10, None, 0));
    assert!(is_disconnect(&r, 7));
}

#[test]
fn duplicate_first_nodes() {
    let mut p = DiscoveryProtocol::new(DiscoveryAddressManager::new(), None);
    p.connected(1, addr(100), false, None);
    assert!(p.received(1, nodes_msg(nodes(true, 2, 1))).is_empty());
    assert!(p.received(1, nodes_msg(nodes(false, 2, 1))).is_empty());
    assert!(p.sessions[0].received_nodes);
    assert!(p.received(1, nodes_msg(nodes(true, 2, 1))).is_empty());
    let r = p.received(1, nodes_msg(nodes(false, 2, 1)));
    assert!(is_disconnect(&r, 1));
    assert!(p.received(1, nodes_msg(nodes(true, 3, 1))).is_empty());
}

#[test]
fn nodes_are_stored_and_known() {
    let mut p = DiscoveryProtocol::new(DiscoveryAddressManager::new(), None);
    p.connected(1, addr(100), false, None);
    let mut n = nodes(false, 2, 2);
    n.items[1].addrs[0] = local_addr(9);
    assert!(p.received(1, nodes_msg(n)).is_empty());
    assert_eq!(p.sessions[0].addr_known.addrs.len(), 4);
    assert!(p.sessions[0].addr_known.contains(&local_addr(9)));
    // the unreachable address is not stored
    assert_eq!(p.addr_mgr.peer_store.len(), 3);
    assert!(!p.addr_mgr.stores(&local_addr(9)));
}

#[test]
fn oversized_nodes_disconnects() {
    let mut p = DiscoveryProtocol::new(DiscoveryAddressManager::new(), None);
    p.connected(1, addr(100), false, None);
    let r = p.received(1, nodes_msg(nodes(true, 11, 1)));
    assert!(is_disconnect(&r, 1));
    assert!(p.sessions[0].addr_known.addrs.is_empty());
}

#[test]
fn undecodable_data_disconnects() {
    let mut p = DiscoveryProtocol::new(DiscoveryAddressManager::new(), None);
    p.connected(1, addr(100), false, None);
    assert!(is_disconnect(&p.received(1, None), 1));
    assert!(p.received(1, Some(DiscoveryMessage { payload: None })).is_empty());
}

#[test]
fn get_nodes_count_five() {
    let mut p = DiscoveryProtocol::new(manager_with(20), None);
    p.connected(3, addr(100), false, None);
    let r = p.received(3, get_nodes(5, None, 0));
    let n = answer(&r, 3);
    assert!(!n.announce);
    assert_eq!(n.items.len(), 5);
    let mut seen = Vec::new();
    for item in &n.items {
        assert_eq!(item.addrs.len(), 1);
        let a = item.addrs[0];
        assert!(p.addr_mgr.stores(&a));
        assert!(p.sessions[0].addr_known.contains(&a));
        assert!(!seen.contains(&a));
        seen.push(a);
    }
}

#[test]
fn get_nodes_count_capped() {
    let mut p = DiscoveryProtocol::new(manager_with(1500), None);
    p.connected(3, addr(9000), false, None);
    let r = p.received(3, get_nodes(5000, None, 0));
    assert_eq!(answer(&r, 3).items.len(), 1000);
}

#[test]
fn get_nodes_skips_invalid_candidates() {
    let mut m = manager_with(2);
    m.discovery_local_address = true;
    m.add_new_addrs(0, vec![local_addr(1)]);
    m.discovery_local_address = false;
    let mut p = DiscoveryProtocol::new(m, None);
    p.connected(3, addr(100), false, None);
    let r = p.received(3, get_nodes(10, None, 0));
    let n = answer(&r, 3);
    assert_eq!(n.items.len(), 2);
    assert!(n.items.iter().all(|i| i.addrs[0] != local_addr(1)));
}

#[test]
fn get_nodes_learns_listen_address() {
    let mut p = DiscoveryProtocol::new(DiscoveryAddressManager::new(), None);
    p.connected(3, Addr { port: 50000, ..addr(42) }, false, None);
    let r = p.received(3, get_nodes(10, Some(8115), 0));
    assert_eq!(answer(&r, 3).items.len(), 0);
    let listen = Addr { port: 8115, ..addr(42) };
    assert_eq!(p.sessions[0].remote_addr, RemoteAddress::Listen(listen));
    assert!(p.sessions[0].addr_known.contains(&listen));
    assert!(p.addr_mgr.stores(&listen));
}

#[test]
fn get_nodes_reuse_port_version_promotes() {
    let mut p = DiscoveryProtocol::new(DiscoveryAddressManager::new(), None);
    p.connected(3, addr(42), false, None);
    p.received(3, get_nodes(10, None, 1));
    assert_eq!(p.sessions[0].remote_addr, RemoteAddress::Listen(addr(42)));
    let mut q = DiscoveryProtocol::new(DiscoveryAddressManager::new(), None);
    q.connected(3, addr(42), false, None);
    q.received(3, get_nodes(10, None, 0));
    assert_eq!(q.sessions[0].remote_addr, RemoteAddress::Init(addr(42)));
}

#[test]
fn gossip_fanout_reaches_at_most_three() {
    let mut m = DiscoveryAddressManager::new();
    m.consensus_peers = vec![addr(500)];
    let mut p = DiscoveryProtocol::new(m, None);
    for id in 0..6 {
        p.connected(id, addr(id as u32), false, None);
    }
    p.notify(1_000);
    let queued: Vec<usize> = (0..6).filter(|&j| p.sessions[j].announce_multiaddrs.contains(&addr(500))).collect();
    assert!(!queued.is_empty() && queued.len() <= 3);
    let mut knows: Vec<bool> = (0..6).map(|j| p.sessions[j].addr_known.contains(&addr(500))).collect();
    for tick in 1..4u64 {
        let r = p.notify(1_000 + tick * 60);
        for j in 0..6 {
            if knows[j] {
                assert!(!p.sessions[j].announce_multiaddrs.contains(&addr(500)));
            }
            knows[j] = knows[j] || p.sessions[j].addr_known.contains(&addr(500));
        }
        assert!(r.iter().all(|a| matches!(a, Action::Send { .. })));
    }
}

#[test]
fn notify_flushes_queue_as_announce() {
    let mut m = DiscoveryAddressManager::new();
    m.consensus_peers = vec![addr(500), addr(501)];
    let mut p = DiscoveryProtocol::new(m, None);
    p.connected(9, addr(1), false, None);
    assert!(p.notify(0).is_empty());
    assert_eq!(p.sessions[0].announce_multiaddrs, vec![addr(500), addr(501)]);
    let r = p.notify(60);
    let n = answer(&r, 9);
    assert!(n.announce);
    assert_eq!(n.items.len(), 2);
    assert_eq!(n.items[0].addrs, vec![addr(500)]);
    assert_eq!(n.items[1].addrs, vec![addr(501)]);
    // both are known now, so nothing is queued again
    assert!(p.sessions[0].announce_multiaddrs.is_empty());
}

#[test]
fn announce_queue_never_exceeds_ten() {
    let mut m = DiscoveryAddressManager::new();
    m.consensus_peers = (0..25).map(addr).collect();
    let mut p = DiscoveryProtocol::new(m, None);
    p.connected(1, addr(900), false, None);
    for tick in 0..5u64 {
        p.notify(tick * 60);
        assert!(p.sessions[0].announce_multiaddrs.len() <= 10);
    }
    let mut q = DiscoveryProtocol::new(DiscoveryAddressManager::new(), None);
    q.addr_mgr.consensus_peers = (0..25).map(addr).collect();
    q.connected(1, addr(900), false, None);
    q.notify(0);
    assert_eq!(q.sessions[0].announce_multiaddrs.len(), 10);
}

#[test]
fn self_announce_when_due() {
    let mut p = DiscoveryProtocol::new(DiscoveryAddressManager::new(), Some(30));
    assert_eq!(p.check_interval(), 30);
    p.connected(1, addr(1), false, None);
    p.connected(2, addr(2), false, None);
    // session 1 reports its listen port, which makes its address gossipable
    p.received(1, get_nodes(0, Some(8115), 0));
    p.notify(0);
    let listen = Addr { port: 8115, ..addr(1) };
    assert_eq!(p.sessions[1].announce_multiaddrs, vec![listen]);
    assert_eq!(p.sessions[0].last_announce, Some(0));
    // not due again until a day has passed
    p.notify(60);
    p.sessions[1].addr_known = AddrKnown::new(DEFAULT_MAX_KNOWN);
    p.notify(3600);
    assert!(p.sessions[1].announce_multiaddrs.is_empty());
    p.notify(86400);
    assert_eq!(p.sessions[1].announce_multiaddrs, vec![listen]);
}

#[test]
fn default_check_interval() {
    let p = DiscoveryProtocol::new(DiscoveryAddressManager::new(), None);
    assert_eq!(p.check_interval(), 60);
}

#[test]
fn connect_and_disconnect() {
    let mut p = DiscoveryProtocol::new(DiscoveryAddressManager::new(), None);
    p.connected(1, addr(1), false, None);
    p.connected(2, addr(2), false, None);
    p.connected(1, addr(3), false, None);
    assert_eq!(p.sessions.len(), 2);
    assert_eq!(p.sessions[0].remote_addr, RemoteAddress::Init(addr(3)));
    assert_eq!(p.addr_mgr.open_sessions, vec![1, 2]);
    p.disconnected(1);
    assert_eq!(p.sessions.len(), 1);
    assert_eq!(p.sessions[0].id, 2);
    assert_eq!(p.addr_mgr.open_sessions, vec![2]);
    assert_eq!(p.find(1), None);
    assert_eq!(p.find(2), Some(0));
}

#[test]
fn known_cache_insert_and_evict() {
    let mut k = AddrKnown::new(2);
    k.insert(&addr(1));
    k.insert(&addr(1));
    assert_eq!(k.addrs, vec![addr(1)]);
    k.insert(&addr(2));
    k.insert(&addr(3));
    assert_eq!(k.addrs, vec![addr(2), addr(3)]);
    assert!(!k.contains(&addr(1)));
    // a known address becomes the most recent, so the other one goes first
    k.insert(&addr(2));
    assert_eq!(k.addrs, vec![addr(3), addr(2)]);
    k.insert(&addr(4));
    assert_eq!(k.addrs, vec![addr(2), addr(4)]);
    let mut e = AddrKnown::new(10);
    e.extend(&vec![addr(4), addr(5), addr(4)]);
    assert_eq!(e.addrs, vec![addr(5), addr(4)]);
}

#[test]
fn manager_validity_and_random() {
    let mut m = DiscoveryAddressManager::new();
    assert!(m.is_valid_addr(&addr(1)));
    assert!(!m.is_valid_addr(&local_addr(1)));
    m.add_new_addr(0, local_addr(1));
    assert!(m.peer_store.is_empty());
    m.discovery_local_address = true;
    assert!(m.is_valid_addr(&local_addr(1)));
    m.add_new_addr(0, local_addr(1));
    m.add_new_addr(0, local_addr(1));
    assert_eq!(m.peer_store, vec![local_addr(1)]);
    m.discovery_local_address = false;
    assert!(!m.is_valid_addr(&Addr { ip: v4(192, 168, 1, 1), port: 1 }));
    assert!(!m.is_valid_addr(&Addr { ip: v4(10, 0, 0, 1), port: 1 }));
    assert!(m.is_valid_addr(&Addr { ip: v4(8, 8, 8, 8), port: 1 }));
    assert!(!m.is_valid_addr(&Addr { ip: 0x2001_0db8u128 << 96, port: 1 }));
    assert!(m.is_valid_addr(&Addr { ip: 0x2400_cb00u128 << 96 | 1, port: 1 }));
    assert!(!m.is_valid_addr(&Addr { ip: 1, port: 1 }));
    let mut m = manager_with(50);
    let r = m.get_random(7);
    assert_eq!(r.len(), 7);
    for (i, a) in r.iter().enumerate() {
        assert!(m.stores(a));
        assert!(!r[..i].contains(a));
    }
    assert_eq!(m.get_random(100), m.peer_store);
    assert_eq!(m.misbehave(0, Misbehavior::InvalidData), MisbehaveResult::Disconnect);
    assert!(MisbehaveResult::Disconnect.is_disconnect());
    assert!(!MisbehaveResult::Continue.is_disconnect());
}

#[test]
fn register_and_unregister() {
    let mut m = DiscoveryAddressManager::new();
    m.register(4);
    m.register(5);
    m.register(4);
    assert_eq!(m.open_sessions, vec![4, 5]);
    m.unregister(4);
    assert_eq!(m.open_sessions, vec![5]);
    m.unregister(4);
    assert_eq!(m.open_sessions, vec![5]);
}

#[test]
fn session_timer_and_flush() {
    let mut s = SessionState::new(1, addr(1));
    assert_eq!(s.check_timer(10, 100), None);
    assert_eq!(s.last_announce, Some(10));
    assert_eq!(s.check_timer(50, 100), None);
    assert_eq!(s.last_announce, Some(10));
    s.remote_addr.change_to_listen();
    assert_eq!(s.check_timer(110, 100), Some(addr(1)));
    assert!(s.send_messages().is_none());
    s.announce_multiaddrs.push(addr(2));
    match s.send_messages() {
        Some(DiscoveryMessage { payload: Some(Payload::Nodes(n)) }) => {
            assert!(n.announce);
            assert_eq!(n.items.len(), 1);
        }
        _ => panic!("expected an announce batch"),
    }
    assert!(s.announce_multiaddrs.is_empty());
}

#[test]
fn remote_address_port_update() {
    let mut r = RemoteAddress::Init(addr(1));
    r.update_port(9000);
    assert_eq!(r, RemoteAddress::Listen(Addr { port: 9000, ..addr(1) }));
    r.update_port(9001);
    assert_eq!(r, RemoteAddress::Listen(Addr { port: 9001, ..addr(1) }));
}

#[test]
fn outbound_session_asks_for_addresses() {
    let mut p = DiscoveryProtocol::new(DiscoveryAddressManager::new(), None);
    let r = p.connected(4, addr(1), true, Some(8115));
    assert_eq!(r.len(), 1);
    match &r[0] {
        Action::Send { session, msg: DiscoveryMessage { payload: Some(Payload::GetNodes(g)) } } => {
            assert_eq!(*session, 4);
            assert_eq!(g.listen_port, Some(8115));
            assert_eq!(g.count, 1000);
            assert_eq!(g.version, 0);
        }
        other => panic!("unexpected action {:?}", other),
    }
    assert!(p.connected(5, addr(2), false, Some(8115)).is_empty());
}

#[test]
fn unreadable_addresses_count_toward_the_limit() {
    let mut n = nodes(true, 2, 2);
    assert_eq!(verify_nodes_message(&n), None);
    n.items[1].raw_len = 4;
    assert_eq!(verify_nodes_message(&n), Some(Misbehavior::TooManyAddresses(4)));
}

#[test]
fn invalid_consensus_addresses_are_not_gossiped() {
    let mut m = DiscoveryAddressManager::new();
    m.consensus_peers = vec![local_addr(1), addr(500)];
    let mut p = DiscoveryProtocol::new(m, None);
    p.connected(1, addr(1), false, None);
    p.notify(0);
    assert_eq!(p.sessions[0].announce_multiaddrs, vec![addr(500)]);
    assert!(!p.sessions[0].addr_known.contains(&local_addr(1)));
}

#[test]
fn added_addresses_keep_their_order() {
    let mut m = DiscoveryAddressManager::new();
    m.add_new_addrs(0, vec![addr(3), local_addr(2), addr(1), addr(3)]);
    assert_eq!(m.peer_store, vec![addr(3), addr(1)]);
}

#[test]
fn lenient_policy_keeps_sessions() {
    let mut m = manager_with(3);
    m.disconnect_on_misbehavior = false;
    assert_eq!(m.misbehave(0, Misbehavior::InvalidData), MisbehaveResult::Continue);
    let mut p = DiscoveryProtocol::new(m, None);
    p.connected(7, addr(100), false, None);
    assert!(p.received(7, None).is_empty());
    assert_eq!(answer(&p.received(7, get_nodes(10, None, 0)), 7).items.len(), 3);
    // a second request is answered too
    assert_eq!(answer(&p.received(7, get_nodes(2, None, 0)), 7).items.len(), 2);
    assert!(p.received(7, nodes_msg(nodes(false, 1, 1))).is_empty());
    assert!(p.received(7, nodes_msg(nodes(false, 1, 1))).is_empty());
    // an oversized batch is still taken in
    assert!(p.received(7, nodes_msg(nodes(true, 11, 1))).is_empty());
    assert!(p.sessions[0].addr_known.contains(&addr(40)));
}

#[test]
fn second_request_updates_listen_port() {
    let mut m = DiscoveryAddressManager::new();
    m.disconnect_on_misbehavior = false;
    let mut p = DiscoveryProtocol::new(m, None);
    p.connected(3, addr(42), false, None);
    p.received(3, get_nodes(10, Some(8115), 0));
    p.received(3, get_nodes(10, Some(8200), 0));
    let listen = Addr { port: 8200, ..addr(42) };
    assert_eq!(p.sessions[0].remote_addr, RemoteAddress::Listen(listen));
    assert!(p.sessions[0].addr_known.contains(&listen));
    assert!(p.addr_mgr.stores(&listen));
}

#[test]
fn answer_from_given_candidates() {
    let mut p = DiscoveryProtocol::new(DiscoveryAddressManager::new(), None);
    p.connected(2, addr(900), false, None);
    let cands: Vec<Addr> = (0..7).map(addr).collect();
    let r = p.answer_get_nodes(2, GetNodes { listen_port: None, count: 5, version: 0 }, cands.clone());
    let n = answer(&r, 2);
    assert_eq!(n.items.len(), 5);
    let mut seen = Vec::new();
    for item in &n.items {
        assert_eq!(item.addrs.len(), 1);
        assert!(cands.contains(&item.addrs[0]));
        assert!(!seen.contains(&item.addrs[0]));
        assert!(p.sessions[0].addr_known.contains(&item.addrs[0]));
        seen.push(item.addrs[0]);
    }
    let mut q = DiscoveryProtocol::new(DiscoveryAddressManager::new(), None);
    q.connected(2, addr(900), false, None);
    let few: Vec<Addr> = (0..3).map(addr).collect();
    let r = q.answer_get_nodes(2, GetNodes { listen_port: None, count: 5, version: 0 }, few.clone());
    let got: Vec<Addr> = answer(&r, 2).items.iter().map(|i| i.addrs[0]).collect();
    assert_eq!(got, few);
    let mut w = DiscoveryProtocol::new(DiscoveryAddressManager::new(), None);
    w.connected(2, addr(9000), false, None);
    let many: Vec<Addr> = (0..1500).map(addr).collect();
    let r = w.answer_get_nodes(2, GetNodes { listen_port: None, count: 5000, version: 0 }, many);
    assert_eq!(answer(&r, 2).items.len(), 1000);
}
