use rustis::slave::dll::{fifo, lifo, lru, EvictionPolicy, EvictionRegistry, Node, DLL};

fn keys(list: &DLL<String>) -> Vec<String> {
    let mut it = list.iter();
    let mut out = Vec::new();
    while let Some((k, _v)) = it.next() {
        out.push(k);
    }
    out
}

fn s(x: &str) -> String {
    x.to_string()
}

#[test]
fn dll_push_back_keeps_order() {
    let mut list: DLL<String> = DLL::new(None, None);
    assert_eq!(list.push_back(s("a"), s("1")), None);
    assert_eq!(list.push_back(s("b"), s("2")), None);
    assert_eq!(list.push_front(s("c"), s("3")), None);
    assert_eq!(keys(&list), vec![s("c"), s("a"), s("b")]);
    assert_eq!(list.len(), 3);
    assert_eq!(list.cap(), usize::MAX);
}

#[test]
fn dll_pop_front_and_back() {
    let mut list: DLL<String> = DLL::new(None, None);
    assert_eq!(list.pop_front(), None);
    assert_eq!(list.pop_back(), None);
    list.push_back(s("a"), s("1"));
    list.push_back(s("b"), s("2"));
    list.push_back(s("c"), s("3"));
    assert_eq!(list.pop_front(), Some(s("a")));
    assert_eq!(list.pop_back(), Some(s("c")));
    assert_eq!(list.len(), 1);
    assert_eq!(keys(&list), vec![s("b")]);
    assert_eq!(list.pop_back(), Some(s("b")));
    assert_eq!(list.len(), 0);
    assert_eq!(list.head(), None);
    assert_eq!(list.tail(), None);
}

#[test]
fn dll_pop_back_undoes_push_back() {
    let mut list: DLL<String> = DLL::new(Some(3), None);
    list.push_back(s("a"), s("1"));
    list.push_back(s("b"), s("2"));
    assert_eq!(list.pop_back(), Some(s("b")));
    assert_eq!(keys(&list), vec![s("a")]);
}

#[test]
fn dll_fifo_evicts_front_when_full() {
    let mut list: DLL<String> = DLL::new(Some(2), Some(EvictionPolicy::Fifo));
    assert!(!list.is_full());
    list.push_back(s("a"), s("1"));
    list.push_back(s("b"), s("2"));
    assert!(list.is_full());
    assert_eq!(list.push_back(s("c"), s("3")), Some(s("a")));
    assert_eq!(keys(&list), vec![s("b"), s("c")]);
    assert_eq!(list.len(), 2);
}

#[test]
fn dll_lifo_evicts_back_when_full() {
    let mut list: DLL<String> = DLL::new(Some(2), Some(EvictionPolicy::Lifo));
    list.push_back(s("a"), s("1"));
    list.push_back(s("b"), s("2"));
    assert_eq!(list.push_back(s("c"), s("3")), Some(s("b")));
    assert_eq!(keys(&list), vec![s("a"), s("c")]);
}

#[test]
fn dll_default_policy_evicts_front_when_full() {
    let mut list: DLL<String> = DLL::new(Some(1), None);
    assert_eq!(list.eviction_policy(), EvictionPolicy::Default);
    list.push_back(s("a"), s("1"));
    assert_eq!(list.push_front(s("b"), s("2")), Some(s("a")));
    assert_eq!(keys(&list), vec![s("b")]);
}

#[test]
fn dll_zero_capacity_evicts_nothing_from_empty() {
    let mut list: DLL<String> = DLL::new(Some(0), None);
    assert!(list.is_full());
    assert_eq!(list.push_back(s("a"), s("1")), None);
    assert_eq!(list.len(), 1);
}

#[test]
fn dll_policy_functions() {
    let mut list: DLL<String> = DLL::new(None, None);
    for k in ["a", "b", "c", "d"] {
        list.push_back(s(k), s(k));
    }
    assert_eq!(fifo(&mut list), Some(s("a")));
    assert_eq!(lifo(&mut list), Some(s("d")));
    assert_eq!(lru(&mut list), Some(s("b")));
    assert_eq!(keys(&list), vec![s("c")]);
    assert_eq!(list.evict(), None);
    assert_eq!(keys(&list), vec![s("c")]);
}

#[test]
fn dll_default_policy_keeps_entries_below_capacity() {
    let mut list: DLL<String> = DLL::new(Some(2), None);
    list.push_back(s("a"), s("1"));
    assert_eq!(list.evict(), None);
    assert_eq!(keys(&list), vec![s("a")]);
    list.push_back(s("b"), s("2"));
    assert_eq!(list.evict(), Some(s("a")));
    assert_eq!(keys(&list), vec![s("b")]);
}

#[test]
fn dll_move_to_back() {
    let mut list: DLL<String> = DLL::new(None, None);
    for k in ["a", "b", "c"] {
        list.push_back(s(k), s(k));
    }
    let head = list.head().unwrap();
    list.move_to_back(head);
    assert_eq!(keys(&list), vec![s("b"), s("c"), s("a")]);
    assert_eq!(list.len(), 3);
}

#[test]
fn dll_remove_self_unlinks() {
    let mut list: DLL<String> = DLL::new(None, None);
    list.push_back(s("a"), s("1"));
    list.push_back(s("b"), s("2"));
    list.push_back(s("c"), s("3"));
    let head = list.head().unwrap();
    let middle = list.next_of(head).unwrap();
    assert_eq!(list.key_at(middle), &s("b"));
    assert_eq!(list.value_at(middle), &s("2"));
    assert!(Node::remove_self(&mut list, middle));
    assert_eq!(keys(&list), vec![s("a"), s("c")]);
    let tail = list.tail().unwrap();
    assert!(Node::remove_self(&mut list, tail));
    let only = list.head().unwrap();
    assert!(!Node::remove_self(&mut list, only));
    assert_eq!(list.len(), 0);
}

#[test]
fn dll_reuses_freed_slots() {
    let mut list: DLL<String> = DLL::new(None, None);
    list.push_back(s("a"), s("1"));
    let first = list.head().unwrap();
    list.pop_front();
    list.push_back(s("b"), s("2"));
    assert_eq!(list.head(), Some(first));
    assert_eq!(keys(&list), vec![s("b")]);
}

#[test]
fn dll_set_value_at_changes_value() {
    let mut list: DLL<String> = DLL::new(None, None);
    list.push_back(s("a"), s("1"));
    let id = list.head().unwrap();
    list.set_value_at(id, s("9"));
    let mut it = list.iter();
    assert_eq!(it.next(), Some((s("a"), s("9"))));
    assert_eq!(it.next(), None);
    assert_eq!(it.next(), None);
}

#[test]
fn node_accessors() {
    let mut n = Node::new(s("k"), s("v"));
    assert_eq!(n.get_key(), s("k"));
    assert_eq!(n.get_value(), s("v"));
    n.set_value(s("w"));
    n.set_key(s("j"));
    assert_eq!(n.get_key(), s("j"));
    assert_eq!(n.get_value(), s("w"));
    assert_eq!(n.next, None);
    assert_eq!(n.prev, None);
}

#[test]
fn registry_register_get_remove() {
    let mut r = EvictionRegistry::new();
    assert_eq!(r.len(), 0);
    r.register(s("fifo"), EvictionPolicy::Fifo);
    r.register(s("lifo"), EvictionPolicy::Lifo);
    r.register(s("lru"), EvictionPolicy::Lru);
    assert_eq!(r.len(), 3);
    assert_eq!(r.get("lifo"), Some(EvictionPolicy::Lifo));
    assert_eq!(r.get("mru"), None);
    assert!(r.contains("lru"));
    r.register(s("lifo"), EvictionPolicy::Fifo);
    assert_eq!(r.len(), 3);
    assert_eq!(r.get("lifo"), Some(EvictionPolicy::Fifo));
    assert_eq!(r.remove("lru"), Some(EvictionPolicy::Lru));
    assert!(!r.contains("lru"));
    assert_eq!(r.remove("lru"), None);
    assert_eq!(r.len(), 2);
}
