use rustis::slave::cache::{s_TTL, Cache};
use rustis::slave::dll::EvictionPolicy;

fn s(x: &str) -> String {
    x.to_string()
}

#[test]
fn cache_get_after_add() {
    let mut c = Cache::new(None, None);
    assert_eq!(c.add(s("name"), s("John"), None), None);
    assert_eq!(c.get(s("name")), Some(s("John")));
    assert!(c.contains_key(s("name")));
    assert!(!c.contains_key(s("other")));
    assert_eq!(c.get(s("other")), None);
}

#[test]
fn cache_add_replaces_existing_key() {
    let mut c = Cache::new(None, None);
    c.add(s("a"), s("1"), None);
    c.add(s("b"), s("2"), Some(5));
    c.add(s("a"), s("3"), Some(7));
    assert_eq!(c.get_keys(), vec![s("b"), s("a")]);
    assert_eq!(c.get_values(), vec![s("2"), s("3")]);
    assert_eq!(c.get_ttl(s("a")), Some(7));
    assert_eq!(c.get_ttl(s("b")), Some(5));
}

#[test]
fn cache_fifo_evicts_oldest() {
    let mut c = Cache::new(Some(2), Some(EvictionPolicy::Fifo));
    c.add(s("a"), s("1"), None);
    c.add(s("b"), s("2"), None);
    assert_eq!(c.add(s("c"), s("3"), None), Some(s("a")));
    assert!(!c.contains_key(s("a")));
    assert_eq!(c.get_keys(), vec![s("b"), s("c")]);
}

#[test]
fn cache_lifo_evicts_newest() {
    let mut c = Cache::new(Some(2), Some(EvictionPolicy::Lifo));
    c.add(s("a"), s("1"), None);
    c.add(s("b"), s("2"), None);
    assert_eq!(c.add(s("c"), s("3"), None), Some(s("b")));
    assert_eq!(c.get_keys(), vec![s("a"), s("c")]);
}

#[test]
fn cache_lru_evicts_least_recently_used_after_rewrite() {
    let mut c = Cache::new(Some(2), Some(EvictionPolicy::Lru));
    c.add(s("a"), s("1"), None);
    c.add(s("b"), s("2"), None);
    c.add(s("a"), s("1b"), None);
    assert_eq!(c.add(s("c"), s("3"), None), Some(s("b")));
    assert_eq!(c.get_keys(), vec![s("a"), s("c")]);
}

#[test]
fn cache_lru_read_moves_key_to_back() {
    let mut c = Cache::new(Some(2), Some(EvictionPolicy::Lru));
    c.add(s("a"), s("1"), None);
    c.add(s("b"), s("2"), None);
    assert_eq!(c.get(s("a")), Some(s("1")));
    assert_eq!(c.get_keys(), vec![s("b"), s("a")]);
    assert_eq!(c.add(s("c"), s("3"), None), Some(s("b")));
    assert_eq!(c.get_items(), vec![(s("a"), s("1")), (s("c"), s("3"))]);
}

#[test]
fn cache_lru_update_moves_key_to_back() {
    let mut c = Cache::new(Some(3), Some(EvictionPolicy::Lru));
    c.add(s("a"), s("1"), Some(4));
    c.add(s("b"), s("2"), None);
    c.add(s("c"), s("3"), None);
    assert!(c.update(s("a"), Some(s("9")), None));
    assert_eq!(c.get_keys(), vec![s("b"), s("c"), s("a")]);
    assert_eq!(c.get_ttl(s("a")), None);
    assert_eq!(c.add(s("d"), s("4"), None), Some(s("b")));
}

#[test]
fn cache_fifo_read_keeps_order() {
    let mut c = Cache::new(Some(2), Some(EvictionPolicy::Fifo));
    c.add(s("a"), s("1"), None);
    c.add(s("b"), s("2"), None);
    assert_eq!(c.get(s("a")), Some(s("1")));
    assert!(c.update(s("a"), Some(s("5")), None));
    assert_eq!(c.get_keys(), vec![s("a"), s("b")]);
    assert_eq!(c.add(s("c"), s("3"), None), Some(s("a")));
}

#[test]
fn cache_default_policy_evicts_front_when_full() {
    let mut c = Cache::new(Some(2), None);
    assert_eq!(c.add(s("a"), s("1"), None), None);
    assert_eq!(c.add(s("b"), s("2"), None), None);
    assert_eq!(c.add(s("c"), s("3"), None), Some(s("a")));
    assert_eq!(c.get_keys(), vec![s("b"), s("c")]);
}

#[test]
fn cache_readd_when_full_evicts_nothing() {
    let mut c = Cache::new(Some(2), None);
    c.add(s("a"), s("1"), None);
    c.add(s("b"), s("2"), None);
    assert_eq!(c.add(s("a"), s("9"), None), None);
    assert_eq!(c.get_items(), vec![(s("b"), s("2")), (s("a"), s("9"))]);
}

#[test]
fn cache_stays_within_capacity() {
    let mut c = Cache::new(Some(3), None);
    for i in 0..10 {
        c.add(format!("k{i}"), format!("v{i}"), None);
        assert!(c.get_keys().len() <= 3);
    }
    assert_eq!(c.get_keys(), vec![s("k7"), s("k8"), s("k9")]);
}

#[test]
fn cache_delete_removes_only_key() {
    let mut c = Cache::new(None, None);
    c.add(s("a"), s("1"), None);
    c.add(s("b"), s("2"), None);
    c.add(s("c"), s("3"), None);
    c.delete(s("b"));
    assert!(!c.contains_key(s("b")));
    assert_eq!(c.get_keys(), vec![s("a"), s("c")]);
    c.delete(s("zz"));
    assert_eq!(c.get_keys(), vec![s("a"), s("c")]);
    c.delete(s("a"));
    c.delete(s("c"));
    assert_eq!(c.get_keys(), Vec::<String>::new());
}

#[test]
fn cache_update_value_and_ttl() {
    let mut c = Cache::new(None, None);
    c.add(s("a"), s("1"), Some(3));
    assert!(c.update(s("a"), Some(s("2")), None));
    assert_eq!(c.get(s("a")), Some(s("2")));
    assert_eq!(c.get_ttl(s("a")), None);
    assert!(c.update(s("a"), None, Some(9)));
    assert_eq!(c.get(s("a")), Some(s("2")));
    assert_eq!(c.get_ttl(s("a")), Some(9));
    assert!(!c.update(s("b"), Some(s("x")), None));
    assert_eq!(c.get(s("b")), None);
}

#[test]
fn cache_decr_ttl_counts_down() {
    let mut c = Cache::new(None, None);
    c.add(s("a"), s("1"), Some(2));
    c.add(s("b"), s("2"), None);
    c.add(s("z"), s("0"), Some(0));
    assert_eq!(c.decr_ttl(s("a")), Some(s_TTL::Alive));
    assert_eq!(c.get_ttl(s("a")), Some(1));
    assert_eq!(c.decr_ttl(s("a")), Some(s_TTL::Dead));
    assert_eq!(c.get_ttl(s("a")), Some(0));
    assert_eq!(c.decr_ttl(s("b")), Some(s_TTL::NA));
    assert_eq!(c.decr_ttl(s("z")), Some(s_TTL::Dead));
    assert_eq!(c.get_ttl(s("z")), Some(0));
    assert_eq!(c.decr_ttl(s("missing")), None);
}

#[test]
fn cache_contains_value_gives_first_key() {
    let mut c = Cache::new(None, None);
    c.add(s("a"), s("x"), None);
    c.add(s("b"), s("y"), None);
    c.add(s("c"), s("y"), None);
    assert_eq!(c.contains_value(s("y")), Some(s("b")));
    assert_eq!(c.contains_value(s("x")), Some(s("a")));
    assert_eq!(c.contains_value(s("q")), None);
}

#[test]
fn cache_add_all_in_order() {
    let mut c = Cache::new(Some(2), None);
    c.add_all(vec![
        (s("user1"), s("Alice"), None),
        (s("user2"), s("Bob"), Some(300)),
        (s("user3"), s("Charlie"), Some(600)),
    ]);
    assert_eq!(c.get_items(), vec![(s("user2"), s("Bob")), (s("user3"), s("Charlie"))]);
    assert_eq!(c.get_ttl(s("user3")), Some(600));
}

#[test]
fn cache_expire_counts_down_and_removes() {
    let mut c = Cache::new(None, None);
    c.add(s("a"), s("1"), Some(2));
    c.add(s("b"), s("2"), None);
    c.add(s("c"), s("3"), Some(1));
    c.add(s("d"), s("4"), Some(0));
    assert_eq!(c.expire(), vec![s("c"), s("d")]);
    assert_eq!(c.get_keys(), vec![s("a"), s("b")]);
    assert_eq!(c.get_ttl(s("a")), Some(1));
    assert_eq!(c.get_ttl(s("b")), None);
    assert_eq!(c.expire(), vec![s("a")]);
    assert_eq!(c.get_keys(), vec![s("b")]);
    assert_eq!(c.expire(), Vec::<String>::new());
    assert_eq!(c.get_keys(), vec![s("b")]);
    assert_eq!(c.len(), 1);
}

#[test]
fn cache_entries_with_ttl() {
    let mut c = Cache::new(None, None);
    c.add(s("a"), s("1"), Some(2));
    c.add(s("b"), s("2"), None);
    assert_eq!(c.get_entries(), vec![(s("a"), s("1"), Some(2)), (s("b"), s("2"), None)]);
}

#[test]
fn cache_add_all_last_write_wins() {
    let mut c = Cache::new(None, None);
    c.add(s("a"), s("0"), None);
    c.add_all(vec![
        (s("a"), s("1"), Some(5)),
        (s("b"), s("2"), None),
        (s("a"), s("3"), Some(9)),
    ]);
    assert_eq!(c.get(s("a")), Some(s("3")));
    assert_eq!(c.get_ttl(s("a")), Some(9));
    assert_eq!(c.get_keys(), vec![s("b"), s("a")]);
}

#[test]
fn cache_decr_ttl_reports_dead_after_n_ticks() {
    let mut c = Cache::new(None, Some(EvictionPolicy::Lru));
    c.add(s("k"), s("v"), Some(3));
    assert_eq!(c.decr_ttl(s("k")), Some(s_TTL::Alive));
    assert_eq!(c.decr_ttl(s("k")), Some(s_TTL::Alive));
    assert_eq!(c.decr_ttl(s("k")), Some(s_TTL::Dead));
    assert_eq!(c.decr_ttl(s("missing")), None);
}
