use rustis::slave::cache::Cache;
use rustis::slave::dll::EvictionPolicy;
use rustis::slave::redundancy::{Cache_Net, Priority, Routes};
use std::cmp::Ordering;

fn s(x: &str) -> String {
    x.to_string()
}

#[test]
fn priority_rank_and_compare() {
    assert_eq!(Priority::Low.rank(), 0);
    assert_eq!(Priority::Default.rank(), 1);
    assert_eq!(Priority::Medium.rank(), 2);
    assert_eq!(Priority::High.rank(), 3);
    assert_eq!(Priority::Low.compare(&Priority::High), Ordering::Less);
    assert_eq!(Priority::Medium.compare(&Priority::Medium), Ordering::Equal);
    assert_eq!(Priority::High.compare(&Priority::Default), Ordering::Greater);
    assert!(Priority::Low < Priority::Default);
}

#[test]
fn priority_min_max_follow_rank() {
    assert_eq!(Priority::Low.min(Priority::High), Priority::Low);
    assert_eq!(Priority::High.min(Priority::Medium), Priority::Medium);
    assert_eq!(Priority::Default.min(Priority::Default), Priority::Default);
    assert_eq!(Priority::Low.max(Priority::High), Priority::High);
    assert_eq!(Priority::Medium.max(Priority::Default), Priority::Medium);
    assert_eq!(Priority::High.max(Priority::High), Priority::High);
}

#[test]
fn routes_new_and_url() {
    let r = Routes::new(s("10.0.0.1"), 8081, None);
    assert_eq!(r.prio, Priority::Default);
    assert_eq!(r.get_url(), s("http://10.0.0.1:8081"));
    let r2 = Routes::new(s("h"), 0, Some(Priority::High));
    assert_eq!(r2.get_url(), s("http://h:0"));
    assert_eq!(r.compare(&r2), Ordering::Less);
}

#[test]
fn cache_net_new_is_empty() {
    let n = Cache_Net::new(Some(10), Some(EvictionPolicy::Lru));
    assert!(n.vnodes.is_empty());
    assert!(n.redundancies.is_empty());
    assert!(!n.is_down);
    assert!(n.orchestrator.is_none());
    assert!(n.name.is_none());
    assert_eq!(n.cache.get_keys(), Vec::<String>::new());
}

#[test]
fn cache_net_save_orchestrator_high_priority() {
    let mut n = Cache_Net::new(None, None);
    n.save_orchestrator(s("1.2.3.4"), 8080);
    let o = n.orchestrator.unwrap();
    assert_eq!(o.ip, s("1.2.3.4"));
    assert_eq!(o.port, 8080);
    assert_eq!(o.prio, Priority::High);
}

#[test]
fn cache_net_highest_priority_route() {
    let mut n = Cache_Net::new(None, None);
    assert!(n.get_next_highest_priority().is_none());
    n.add_redundancies(vec![
        (s("a"), 1, Some(Priority::Low)),
        (s("b"), 2, None),
        (s("c"), 3, Some(Priority::Medium)),
        (s("d"), 4, Some(Priority::Medium)),
    ]);
    assert_eq!(n.redundancies.len(), 4);
    assert_eq!(n.redundancies[1].prio, Priority::Default);
    let best = n.get_next_highest_priority().unwrap();
    assert_eq!(best.ip, s("c"));
    assert_eq!(best.prio, Priority::Medium);
}

#[test]
fn cache_net_add_vnodes_adds_distinct_hashes() {
    let mut n = Cache_Net::new(None, None);
    n.cache.add(s("k"), s("v"), None);
    let (added, drawn) = n.add_vnodes(4, 10, 200);
    assert_eq!(added, 4);
    assert!(drawn.len() >= 4);
    assert!(drawn.iter().all(|h| n.vnodes.contains(h)));
    assert_eq!(n.vnodes.len(), 4);
    let (more, drawn2) = n.add_vnodes(3, 1, 2);
    assert_eq!(more, 3);
    assert!(drawn2.iter().all(|h| n.vnodes.contains(h)));
    assert_eq!(n.vnodes.len(), 7);
    assert_eq!(n.add_vnodes(0, 1, 2), (0, vec![]));
    assert_eq!(n.vnodes.len(), 7);
}

#[test]
fn cache_net_take_vnode() {
    let mut n = Cache_Net::new(None, None);
    assert!(n.take_vnode(42));
    assert!(!n.take_vnode(42));
    assert!(n.take_vnode(7));
    assert_eq!(n.vnodes.len(), 2);
    assert!(n.vnodes.contains(&42));
}

#[test]
fn cache_net_topo_sorted() {
    let mut n = Cache_Net::new(None, None);
    n.vnodes.insert(30);
    n.vnodes.insert(10);
    n.vnodes.insert(20);
    let t = n.get_topo();
    assert_eq!(t.name, s(""));
    assert_eq!(t.vnodes, vec![10, 20, 30]);
    n.name = Some(s("Node3"));
    assert_eq!(n.get_topo().name, s("Node3"));
}

#[test]
fn cache_net_cache_is_usable() {
    let mut n = Cache_Net::new(Some(1), None);
    let c: &mut Cache = &mut n.cache;
    c.add(s("a"), s("1"), None);
    assert_eq!(c.add(s("b"), s("2"), None), Some(s("a")));
}
