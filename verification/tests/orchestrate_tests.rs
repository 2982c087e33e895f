use rustis::master::orchestrate::{Orchestrator, PeerError, RouteError};
use rustis::slave::endpoints::Topo;
use std::hash::{DefaultHasher, Hash, Hasher};

fn s(x: &str) -> String {
    x.to_string()
}

fn topo(name: &str, v: &[usize]) -> Topo {
    Topo { name: s(name), vnodes: v.to_vec() }
}

#[test]
fn orchestrator_new_defaults() {
    let o = Orchestrator::new(None);
    assert_eq!(o.port, 8080);
    assert_eq!(Orchestrator::new(Some(9000)).port, 9000);
    assert!(o.ring.is_empty());
    assert!(o.vnode_map.is_empty());
    assert_eq!(o.numbering, 0);
}

#[test]
fn orchestrator_new_names_count_up() {
    let mut o = Orchestrator::new(None);
    assert_eq!(o.get_new_name(), s("Node0"));
    assert_eq!(o.get_new_name(), s("Node1"));
    assert_eq!(o.numbering, 2);
}

#[test]
fn orchestrator_load_peers_file() {
    let mut o = Orchestrator::new(None);
    let r = o.load_peers("10.0.0.1 8081\n  cacheA 10.0.0.2 8082 \n\nbad line here too\n10.0.0.3 8083");
    assert_eq!(r, Ok(()));
    assert_eq!(o.numbering, 2);
    assert_eq!(o.peer_route(&s("Node0")), Some((s("10.0.0.1"), 8081)));
    assert_eq!(o.peer_route(&s("cacheA")), Some((s("10.0.0.2"), 8082)));
    assert_eq!(o.peer_route(&s("Node1")), Some((s("10.0.0.3"), 8083)));
    assert_eq!(o.peer_route(&s("Node2")), None);
}

#[test]
fn orchestrator_load_peers_bad_port() {
    let mut o = Orchestrator::new(None);
    assert_eq!(o.load_peers("10.0.0.1 99999"), Err(PeerError::BadPort));
    let mut o2 = Orchestrator::new(None);
    assert_eq!(o2.load_peers("n 10.0.0.1 port"), Err(PeerError::BadPort));
}

#[test]
fn orchestrator_build_url() {
    assert_eq!(Orchestrator::build_url("1.2.3.4", 80), s("http://1.2.3.4:80"));
}

#[test]
fn orchestrator_routes_by_ring() {
    let mut o = Orchestrator::new(None);
    assert_eq!(o.route_for_hash(5), Err(RouteError::EmptyRing));
    o.set_peer(s("A"), s("10.0.0.1"), 1);
    o.set_peer(s("B"), s("10.0.0.2"), 2);
    o.handle_topo(topo("A", &[100, 300]));
    o.handle_topo(topo("B", &[200]));
    assert_eq!(o.ring_owner(50), Some(100));
    assert_eq!(o.ring_owner(100), Some(100));
    assert_eq!(o.ring_owner(150), Some(200));
    assert_eq!(o.ring_owner(301), Some(100));
    assert_eq!(o.route_for_hash(150), Ok((s("10.0.0.2"), 2)));
    assert_eq!(o.route_for_hash(250), Ok((s("10.0.0.1"), 1)));
    assert_eq!(o.route_for_hash(usize::MAX), Ok((s("10.0.0.1"), 1)));
}

#[test]
fn orchestrator_route_errors() {
    let mut o = Orchestrator::new(None);
    o.ring.insert(10);
    assert_eq!(o.route_for_hash(3), Err(RouteError::UnknownVnode));
    o.record_vnode_owners(&topo("C", &[10]));
    assert_eq!(o.route_for_hash(3), Err(RouteError::NoRoute));
    o.set_peer(s("C"), s("h"), 7);
    assert_eq!(o.route_for_hash(3), Ok((s("h"), 7)));
}

#[test]
fn orchestrator_get_vnode_hashes_key() {
    let mut o = Orchestrator::new(None);
    o.set_peer(s("A"), s("a"), 1);
    o.set_peer(s("B"), s("b"), 2);
    o.handle_topo(topo("A", &[usize::MAX / 2]));
    o.handle_topo(topo("B", &[usize::MAX]));
    for key in ["alpha", "beta", "gamma", "delta"] {
        let mut h = DefaultHasher::new();
        key.hash(&mut h);
        let expected = o.route_for_hash(h.finish() as usize);
        assert_eq!(o.get_vnode(key), expected);
    }
}

#[test]
fn orchestrator_join_moves_keys_only_to_new_vnode() {
    let mut o = Orchestrator::new(None);
    o.handle_topo(topo("A", &[100, 300]));
    let before: Vec<Option<usize>> = (0..400).map(|h| o.ring_owner(h)).collect();
    o.handle_topo(topo("B", &[200]));
    for h in 0..400 {
        let after = o.ring_owner(h);
        assert!(after == before[h] || after == Some(200));
    }
}

#[test]
fn orchestrator_handover_moves_node() {
    let mut o = Orchestrator::new(None);
    o.set_peer(s("A"), s("old"), 1);
    o.handle_topo(topo("A", &[1, 5, 9]));
    o.handle_topo(topo("B", &[3]));
    let mut mine = o.vnodes_of(&s("A"));
    mine.sort();
    assert_eq!(mine, vec![1, 5, 9]);
    let mut removed = o.handover(s("A"), s("new"), 2);
    removed.sort();
    assert_eq!(removed, vec![1, 5, 9]);
    assert_eq!(o.ring.iter().copied().collect::<Vec<usize>>(), vec![3]);
    assert_eq!(o.vnode_map.len(), 1);
    assert_eq!(o.peer_route(&s("A")), Some((s("new"), 2)));
}

#[test]
fn orchestrator_node_names_distinct() {
    let mut o = Orchestrator::new(None);
    o.handle_topo(topo("A", &[1, 2]));
    o.handle_topo(topo("B", &[3]));
    let mut names = o.node_names();
    names.sort();
    assert_eq!(names, vec![s("A"), s("B")]);
}

#[test]
fn orchestrator_leave_moves_only_its_keys() {
    let mut o = Orchestrator::new(None);
    o.handle_topo(topo("A", &[100, 300]));
    o.handle_topo(topo("B", &[200]));
    let before: Vec<Option<usize>> = (0..400).map(|h| o.ring_owner(h)).collect();
    o.handover(s("B"), s("elsewhere"), 1);
    for h in 0..400 {
        if before[h] != Some(200) {
            assert_eq!(o.ring_owner(h), before[h]);
        } else {
            assert_ne!(o.ring_owner(h), Some(200));
        }
    }
}

#[test]
fn orchestrator_route_after_set_peer() {
    let mut o = Orchestrator::new(None);
    o.set_peer(s("A"), s("10.0.0.1"), 1);
    o.set_peer(s("B"), s("10.0.0.2"), 2);
    o.set_peer(s("A"), s("10.0.0.9"), 9);
    assert_eq!(o.peer_route(&s("A")), Some((s("10.0.0.9"), 9)));
    assert_eq!(o.peer_route(&s("B")), Some((s("10.0.0.2"), 2)));
    assert_eq!(o.peer_route(&s("C")), None);
}
