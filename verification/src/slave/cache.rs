use vstd::prelude::*;
use crate::slave::dll::{DLL, EvictionPolicy, Node, evicts_front};

verus! {

/// One entry of a cache: key, value and time to live.
pub type Entry = (Seq<char>, Seq<char>, Option<usize>);

/// The position of key `k` among the entries, if it is there.
pub open spec fn key_index(s: Seq<Entry>, k: Seq<char>) -> Option<int> {
    if exists|i: int| 0 <= i < s.len() && #[trigger] s[i].0 == k {
        Some(choose|i: int| 0 <= i < s.len() && #[trigger] s[i].0 == k)
    } else {
        None
    }
}

/// No two entries share a key.
pub open spec fn keys_distinct(s: Seq<Entry>) -> bool {
    forall|i: int, j: int| 0 <= i < s.len() && 0 <= j < s.len() && i != j ==> #[trigger] s[i].0 != #[trigger] s[j].0
}

/// The entries without key `k`.
pub open spec fn without_key(s: Seq<Entry>, k: Seq<char>) -> Seq<Entry> {
    match key_index(s, k) {
        Some(i) => s.remove(i),
        None => s,
    }
}

/// The entries after one eviction under `policy`, and the key given up.
pub open spec fn evict_entries(s: Seq<Entry>, policy: EvictionPolicy) -> (Seq<Entry>, Option<Seq<char>>) {
    if s.len() == 0 {
        (s, None)
    } else if evicts_front(policy) {
        (s.drop_first(), Some(s[0].0))
    } else {
        (s.drop_last(), Some(s.last().0))
    }
}

/// What adding `(k, v, ttl)` does to the entries of a cache with capacity `cap` and policy
/// `policy`: an entry with key `k` leaves, one entry is evicted if the cache is then full,
/// and the new entry goes to the back. The second component is the evicted key.
pub open spec fn add_spec(
    s: Seq<Entry>,
    cap: usize,
    policy: EvictionPolicy,
    k: Seq<char>,
    v: Seq<char>,
    ttl: Option<usize>,
) -> (Seq<Entry>, Option<Seq<char>>) {
    let s1 = without_key(s, k);
    let (s2, evicted) = if s1.len() == cap { evict_entries(s1, policy) } else { (s1, None) };
    (s2.push((k, v, ttl)), evicted)
}

/// Whether a time to live is still running after one tick, when there is one.
#[allow(non_camel_case_types)]
#[derive(Clone, Copy, Debug, PartialEq, Eq)]
pub enum s_TTL {
    Alive,
    Dead,
    NA,
}

/// A key-value cache: the entries in insertion order (under `Lru`, in order of last use), each
/// with an optional time to live.
pub struct Cache {
    dll: DLL<String>,
    ttls: Vec<Option<usize>>,
}

impl View for Cache {
    type V = Seq<Entry>;

    closed spec fn view(&self) -> Seq<Entry> {
        Seq::new(self.dll@.len(), |i: int| (self.dll@[i].0@, self.dll@[i].1@, self.ttls@[i]))
    }
}

impl Cache {
    pub closed spec fn capacity(&self) -> usize {
        self.dll.capacity()
    }

    pub closed spec fn policy(&self) -> EvictionPolicy {
        self.dll.policy()
    }

    /// The cache is well formed: its list is, every entry has a time to live, keys are distinct.
    pub closed spec fn wf(&self) -> bool {
        &&& self.dll.wf()
        &&& self.ttls@.len() == self.dll@.len()
        &&& keys_distinct(self@)
    }

    /// In a well-formed cache no two entries share a key.
    pub proof fn lemma_keys_distinct(&self)
        requires
            self.wf(),
        ensures
            keys_distinct(self@),
    {
    }

    proof fn lemma_view(&self)
        ensures
            self@.len() == self.dll@.len(),
            forall|i: int| 0 <= i < self@.len() ==> #[trigger] self@[i] == (self.dll@[i].0@, self.dll@[i].1@, self.ttls@[i]),
    {
    }

    /// An empty cache with capacity `cap` (unbounded when `None`) and the given policy.
    pub fn new(cap: Option<usize>, evic: Option<EvictionPolicy>) -> (c: Self)
        ensures
            c.wf(),
            c@ == Seq::<Entry>::empty(),
            c.capacity() == (match cap { Some(x) => x, None => usize::MAX }),
            c.policy() == (match evic { Some(p) => p, None => EvictionPolicy::Default }),
    {
        let c = Cache { dll: DLL::new(cap, evic), ttls: Vec::new() };
        assert(c@ =~= Seq::<Entry>::empty());
        c
    }

    /// The position and slot of key `k`, if present.
    fn find(&self, k: &String) -> (r: Option<(usize, usize)>)
        requires
            self.wf(),
        ensures
            match r {
                Some((p, id)) => {
                    &&& p < self@.len()
                    &&& self@[p as int].0 == k@
                    &&& self.dll.ids()[p as int] == id
                    &&& key_index(self@, k@) == Some(p as int)
                },
                None => key_index(self@, k@) is None,
            },
    {
        proof {
            self.dll.lemma_ids_distinct();
        }
        let mut cur = self.dll.head();
        let mut pos: usize = 0;
        loop
            invariant
                self.wf(),
                pos <= self@.len(),
                cur == (if pos < self.dll.ids().len() { Some(self.dll.ids()[pos as int]) } else { None }),
                self.dll.ids().len() == self@.len(),
                self.dll.ids().no_duplicates(),
                self@.len() <= usize::MAX,
                forall|i: int| 0 <= i < pos ==> #[trigger] self@[i].0 != k@,
            decreases self@.len() - pos,
        {
            match cur {
                None => {
                    proof {
                        assert(!(exists|i: int| 0 <= i < self@.len() && #[trigger] self@[i].0 == k@));
                    }
                    return None;
                },
                Some(id) => {
                    assert(self.dll.ids()[pos as int] == id);
                    let key = self.dll.key_at(id);
                    if *key == *k {
                        proof {
                            assert(self@[pos as int].0 == k@);
                            let j = choose|i: int| 0 <= i < self@.len() && #[trigger] self@[i].0 == k@;
                            assert(j == pos);
                        }
                        return Some((pos, id));
                    }
                    cur = self.dll.next_of(id);
                    pos = pos + 1;
                },
            }
        }
    }
}

/// Removing key `k` leaves no entry with key `k`, and keeps keys distinct.
pub proof fn lemma_without_key(s: Seq<Entry>, k: Seq<char>)
    requires
        keys_distinct(s),
    ensures
        forall|i: int| 0 <= i < without_key(s, k).len() ==> #[trigger] without_key(s, k)[i].0 != k,
        keys_distinct(without_key(s, k)),
        without_key(s, k).len() == (if key_index(s, k) is Some { s.len() - 1 } else { s.len() as int }),
{
    match key_index(s, k) {
        Some(j) => {
            let r = s.remove(j);
            assert forall|i: int| 0 <= i < r.len() implies #[trigger] r[i].0 != k by {
                if i < j {
                    assert(r[i] == s[i]);
                } else {
                    assert(r[i] == s[i + 1]);
                }
            }
            assert forall|a: int, b: int| 0 <= a < r.len() && 0 <= b < r.len() && a != b implies #[trigger] r[a].0
                != #[trigger] r[b].0 by {
                let a1 = if a < j { a } else { a + 1 };
                let b1 = if b < j { b } else { b + 1 };
                assert(r[a] == s[a1]);
                assert(r[b] == s[b1]);
            }
        },
        None => {},
    }
}

impl Cache {
    /// Removes the entry at position `p`, whose node is in slot `id`.
    fn remove_entry(&mut self, p: usize, id: usize)
        requires
            old(self).wf(),
            p < old(self)@.len(),
            old(self).dll.ids()[p as int] == id,
        ensures
            final(self).wf(),
            final(self)@ == old(self)@.remove(p as int),
            final(self).dll.ids() == old(self).dll.ids().remove(p as int),
            final(self).capacity() == old(self).capacity(),
            final(self).policy() == old(self).policy(),
    {
        proof {
            self.dll.lemma_ids_distinct();
            assert(self.dll.ids().contains(id));
            let j = self.dll.ids().index_of(id);
            assert(self.dll.ids()[j] == id);
            assert(j == p);
        }
        Node::remove_self(&mut self.dll, id);
        self.ttls.remove(p);
        proof {
            self.dll.lemma_ids_distinct();
            assert(self@ =~= old(self)@.remove(p as int));
            let r = old(self)@.remove(p as int);
            assert forall|a: int, b: int| 0 <= a < r.len() && 0 <= b < r.len() && a != b implies #[trigger] r[a].0
                != #[trigger] r[b].0 by {
                let a1 = if a < p { a } else { a + 1 };
                let b1 = if b < p { b } else { b + 1 };
                assert(r[a] == old(self)@[a1]);
                assert(r[b] == old(self)@[b1]);
            }
        }
    }

    /// Adds `k` with value `v` and time to live `ttl` at the back, replacing an entry with
    /// the same key; when the cache is then full it first evicts one entry as its policy says,
    /// and returns the evicted key.
    pub fn add(&mut self, k: String, v: String, ttl: Option<usize>) -> (evicted: Option<String>)
        requires
            old(self).wf(),
            old(self)@.len() < usize::MAX,
        ensures
            final(self).wf(),
            final(self)@ == add_spec(old(self)@, old(self).capacity(), old(self).policy(), k@, v@, ttl).0,
            match evicted {
                Some(e) => add_spec(old(self)@, old(self).capacity(), old(self).policy(), k@, v@, ttl).1 == Some(e@),
                None => add_spec(old(self)@, old(self).capacity(), old(self).policy(), k@, v@, ttl).1 is None,
            },
            final(self).capacity() == old(self).capacity(),
            final(self).policy() == old(self).policy(),
    {
        match self.find(&k) {
            Some((p, id)) => {
                self.remove_entry(p, id);
            },
            None => {},
        }
        proof {
            lemma_without_key(old(self)@, k@);
            assert(self@ == without_key(old(self)@, k@));
            self.dll.lemma_ids_distinct();
        }
        let ghost s1 = self@;
        let ghost d1 = self.dll@;
        let full = self.dll.is_full();
        let front = match self.dll.eviction_policy() {
            EvictionPolicy::Fifo => true,
            EvictionPolicy::Lifo => false,
            EvictionPolicy::Lru => true,
            EvictionPolicy::Default => true,
        };
        let ev = self.dll.push_back(k, v);
        if full && self.ttls.len() > 0 {
            if front {
                self.ttls.remove(0);
            } else {
                self.ttls.pop();
            }
        }
        self.ttls.push(ttl);
        proof {
            let (s2, e2) = if s1.len() == self.capacity() { evict_entries(s1, self.policy()) } else { (s1, None) };
            let target = s2.push((k@, v@, ttl));
            assert(self@ =~= target) by {
                assert forall|i: int| 0 <= i < target.len() implies self@[i] == target[i] by {
                    if i < s2.len() {
                        if full && s1.len() > 0 && front {
                            assert(s2[i] == s1[i + 1]);
                        } else {
                            assert(s2[i] == s1[i]);
                        }
                    }
                }
            }
            assert forall|a: int, b: int| 0 <= a < target.len() && 0 <= b < target.len() && a != b implies #[trigger] target[a].0
                != #[trigger] target[b].0 by {
                if a < s2.len() && b < s2.len() {
                    if full && s1.len() > 0 && front {
                        assert(s2[a] == s1[a + 1]);
                        assert(s2[b] == s1[b + 1]);
                    } else {
                        assert(s2[a] == s1[a]);
                        assert(s2[b] == s1[b]);
                    }
                } else if a < s2.len() {
                    if full && s1.len() > 0 && front {
                        assert(s2[a] == s1[a + 1]);
                    } else {
                        assert(s2[a] == s1[a]);
                    }
                } else if b < s2.len() {
                    if full && s1.len() > 0 && front {
                        assert(s2[b] == s1[b + 1]);
                    } else {
                        assert(s2[b] == s1[b]);
                    }
                }
            }
        }
        ev
    }
}

/// The keys of the entries, in order.
pub open spec fn keys_of(s: Seq<Entry>) -> Seq<Seq<char>> {
    s.map_values(|e: Entry| e.0)
}

/// The values of the entries, in order.
pub open spec fn values_of(s: Seq<Entry>) -> Seq<Seq<char>> {
    s.map_values(|e: Entry| e.1)
}

/// The (key, value) pairs of the entries, in order.
pub open spec fn items_of(s: Seq<Entry>) -> Seq<(Seq<char>, Seq<char>)> {
    s.map_values(|e: Entry| (e.0, e.1))
}

/// The listings of a cache follow its entries one for one, in order: the `i`-th key, value
/// and pair are those of the `i`-th entry.
pub proof fn law_listings_follow_entries(s: Seq<Entry>)
    ensures
        keys_of(s).len() == s.len(),
        values_of(s).len() == s.len(),
        items_of(s).len() == s.len(),
        forall|i: int| 0 <= i < s.len() ==> #[trigger] keys_of(s)[i] == s[i].0,
        forall|i: int| 0 <= i < s.len() ==> #[trigger] values_of(s)[i] == s[i].1,
        forall|i: int| 0 <= i < s.len() ==> #[trigger] items_of(s)[i] == (s[i].0, s[i].1),
{
}

/// A key is found exactly when some entry holds it, and then at an entry that holds it; with
/// distinct keys, each entry's key is found at that entry.
pub proof fn law_key_lookup(s: Seq<Entry>, k: Seq<char>)
    ensures
        key_index(s, k) is None <==> forall|i: int| 0 <= i < s.len() ==> #[trigger] s[i].0 != k,
        key_index(s, k) matches Some(i) ==> 0 <= i < s.len() && s[i].0 == k,
        keys_distinct(s) ==> forall|i: int| 0 <= i < s.len() ==> key_index(s, #[trigger] s[i].0) == Some(i),
{
    assert forall|i: int| 0 <= i < s.len() && keys_distinct(s) implies key_index(s, #[trigger] s[i].0) == Some(i) by {
        let j = choose|j: int| 0 <= j < s.len() && #[trigger] s[j].0 == s[i].0;
        assert(s[j].0 == s[i].0);
    }
}

/// The views of a sequence of strings.
pub open spec fn string_views(s: Seq<String>) -> Seq<Seq<char>> {
    s.map_values(|x: String| x@)
}

/// The views of a sequence of string pairs.
pub open spec fn pair_views(s: Seq<(String, String)>) -> Seq<(Seq<char>, Seq<char>)> {
    s.map_values(|x: (String, String)| (x.0@, x.1@))
}

/// A time to live after one tick: one less, but not below zero.
pub open spec fn tick(t: usize) -> usize {
    if t > 0 { (t - 1) as usize } else { 0 }
}

/// The entries after one tick off the time to live of key `k`, and whether it still runs.
pub open spec fn decr_spec(s: Seq<Entry>, k: Seq<char>) -> (Seq<Entry>, Option<s_TTL>) {
    match key_index(s, k) {
        None => (s, None),
        Some(i) => match s[i].2 {
            None => (s, Some(s_TTL::NA)),
            Some(t) => (
                s.update(i, (s[i].0, s[i].1, Some(tick(t)))),
                Some(if tick(t) > 0 { s_TTL::Alive } else { s_TTL::Dead }),
            ),
        },
    }
}

/// The entries after `m` ticks off the time to live of key `k`.
pub open spec fn decr_times(s: Seq<Entry>, k: Seq<char>, m: nat) -> Seq<Entry>
    decreases m,
{
    if m == 0 {
        s
    } else {
        decr_spec(decr_times(s, k, (m - 1) as nat), k).0
    }
}

/// After `m` ticks off a time to live `n >= m`, the key keeps its place and value, with
/// `n - m` left, and keys stay distinct.
pub proof fn lemma_decr_times(s: Seq<Entry>, k: Seq<char>, p: int, n: usize, m: nat)
    requires
        keys_distinct(s),
        key_index(s, k) == Some(p),
        s[p].2 == Some(n),
        m <= n,
    ensures
        keys_distinct(decr_times(s, k, m)),
        decr_times(s, k, m).len() == s.len(),
        key_index(decr_times(s, k, m), k) == Some(p),
        decr_times(s, k, m)[p] == (s[p].0, s[p].1, Some((n - m) as usize)),
    decreases m,
{
    if m > 0 {
        lemma_decr_times(s, k, p, n, (m - 1) as nat);
        let t = decr_times(s, k, (m - 1) as nat);
        let u = t.update(p, (t[p].0, t[p].1, Some(tick((n - (m - 1)) as usize))));
        assert(decr_times(s, k, m) == u);
        assert forall|a: int, b: int| 0 <= a < u.len() && 0 <= b < u.len() && a != b implies #[trigger] u[a].0
            != #[trigger] u[b].0 by {
            assert(u[a].0 == t[a].0 && u[b].0 == t[b].0);
        }
        assert(u[p].0 == k);
        let j = choose|j: int| 0 <= j < u.len() && #[trigger] u[j].0 == k;
        assert(j == p);
    }
}

/// The entries with the one at position `i` moved to the back.
pub open spec fn to_back(s: Seq<Entry>, i: int) -> Seq<Entry> {
    s.remove(i).push(s[i])
}

/// The entries after the one at position `i` was used: under `Lru` it moves to the back, so
/// that the front is the entry used longest ago; other policies keep the order.
pub open spec fn touched(s: Seq<Entry>, i: int, policy: EvictionPolicy) -> Seq<Entry> {
    if policy is Lru {
        to_back(s, i)
    } else {
        s
    }
}

/// Moving an entry to the back keeps keys distinct and the same entries.
pub proof fn lemma_to_back(s: Seq<Entry>, i: int)
    requires
        keys_distinct(s),
        0 <= i < s.len(),
    ensures
        keys_distinct(to_back(s, i)),
        to_back(s, i).len() == s.len(),
        to_back(s, i).last() == s[i],
        forall|j: int| 0 <= j < i ==> #[trigger] to_back(s, i)[j] == s[j],
        forall|j: int| i <= j < s.len() - 1 ==> #[trigger] to_back(s, i)[j] == s[j + 1],
{
    let r = to_back(s, i);
    assert forall|a: int, b: int| 0 <= a < r.len() && 0 <= b < r.len() && a != b implies #[trigger] r[a].0
        != #[trigger] r[b].0 by {
        let a1 = if a == s.len() - 1 { i } else if a < i { a } else { a + 1 };
        let b1 = if b == s.len() - 1 { i } else if b < i { b } else { b + 1 };
        assert(r[a] == s[a1]);
        assert(r[b] == s[b1]);
    }
}

impl Cache {
    /// Moves the entry at position `p`, whose node is in slot `id`, to the back.
    fn move_entry_to_back(&mut self, p: usize, id: usize)
        requires
            old(self).wf(),
            p < old(self)@.len(),
            old(self).dll.ids()[p as int] == id,
        ensures
            final(self).wf(),
            final(self)@ == to_back(old(self)@, p as int),
            final(self).capacity() == old(self).capacity(),
            final(self).policy() == old(self).policy(),
    {
        proof {
            self.dll.lemma_ids_distinct();
            assert(self.dll.ids().contains(id));
            let j = self.dll.ids().index_of(id);
            assert(self.dll.ids()[j] == id);
            assert(j == p);
            lemma_to_back(self@, p as int);
        }
        self.dll.move_to_back(id);
        let t = self.ttls.remove(p);
        self.ttls.push(t);
        proof {
            let target = to_back(old(self)@, p as int);
            assert(self@ =~= target) by {
                assert forall|j: int| 0 <= j < target.len() implies self@[j] == target[j] by {
                    if j < p {
                        assert(self.dll@[j] == old(self).dll@[j]);
                        assert(self.ttls@[j] == old(self).ttls@[j]);
                    } else if j < target.len() - 1 {
                        assert(self.dll@[j] == old(self).dll@[j + 1]);
                        assert(self.ttls@[j] == old(self).ttls@[j + 1]);
                    } else {
                        assert(self.dll@[j] == old(self).dll@[p as int]);
                        assert(self.ttls@[j] == old(self).ttls@[p as int]);
                    }
                }
            }
        }
    }

    /// Whether the cache moves used entries to the back.
    fn is_lru(&self) -> (r: bool)
        ensures
            r == (self.policy() is Lru),
    {
        match self.dll.eviction_policy() {
            EvictionPolicy::Lru => true,
            _ => false,
        }
    }
}

impl Cache {
    /// Whether key `k` is in the cache.
    pub fn contains_key(&self, k: String) -> (r: bool)
        requires
            self.wf(),
        ensures
            r == key_index(self@, k@) is Some,
    {
        self.find(&k).is_some()
    }

    /// The value stored under key `k`; under `Lru` the entry read moves to the back.
    pub fn get(&mut self, k: String) -> (r: Option<String>)
        requires
            old(self).wf(),
        ensures
            final(self).wf(),
            final(self).capacity() == old(self).capacity(),
            final(self).policy() == old(self).policy(),
            match key_index(old(self)@, k@) {
                Some(i) => r matches Some(v) && v@ == old(self)@[i].1 && final(self)@ == touched(
                    old(self)@,
                    i,
                    old(self).policy(),
                ),
                None => r is None && final(self)@ == old(self)@,
            },
    {
        match self.find(&k) {
            Some((p, id)) => {
                proof {
                    self.dll.lemma_ids_distinct();
                }
                let v = self.dll.value_at(id).clone();
                if self.is_lru() {
                    self.move_entry_to_back(p, id);
                }
                Some(v)
            },
            None => None,
        }
    }

    /// The time to live of key `k`, when the key is there and has one.
    pub fn get_ttl(&self, k: String) -> (r: Option<usize>)
        requires
            self.wf(),
        ensures
            r == (match key_index(self@, k@) {
                Some(i) => self@[i].2,
                None => None,
            }),
    {
        match self.find(&k) {
            Some((p, _id)) => self.ttls[p],
            None => None,
        }
    }

    /// Counts one tick off the time to live of key `k` and tells whether it is still running.
    pub fn decr_ttl(&mut self, k: String) -> (r: Option<s_TTL>)
        requires
            old(self).wf(),
        ensures
            final(self).wf(),
            (final(self)@, r) == decr_spec(old(self)@, k@),
            final(self).capacity() == old(self).capacity(),
            final(self).policy() == old(self).policy(),
            match key_index(old(self)@, k@) {
                None => r is None && final(self)@ == old(self)@,
                Some(i) => match old(self)@[i].2 {
                    None => r == Some(s_TTL::NA) && final(self)@ == old(self)@,
                    Some(t) => {
                        &&& final(self)@ == old(self)@.update(i, (old(self)@[i].0, old(self)@[i].1, Some(tick(t))))
                        &&& r == Some(if tick(t) > 0 { s_TTL::Alive } else { s_TTL::Dead })
                    },
                },
            },
    {
        match self.find(&k) {
            None => None,
            Some((p, _id)) => {
                match self.ttls[p] {
                    None => Some(s_TTL::NA),
                    Some(t) => {
                        let n = t.saturating_sub(1);
                        self.ttls.set(p, Some(n));
                        proof {
                            let target = old(self)@.update(p as int, (old(self)@[p as int].0, old(self)@[p as int].1, Some(tick(t))));
                            assert(self@ =~= target);
                            assert forall|a: int, b: int| 0 <= a < target.len() && 0 <= b < target.len() && a != b implies #[trigger] target[a].0
                                != #[trigger] target[b].0 by {
                                assert(target[a].0 == old(self)@[a].0);
                                assert(target[b].0 == old(self)@[b].0);
                            }
                        }
                        if n > 0 {
                            Some(s_TTL::Alive)
                        } else {
                            Some(s_TTL::Dead)
                        }
                    },
                }
            },
        }
    }

    /// Removes key `k`, if present.
    pub fn delete(&mut self, k: String)
        requires
            old(self).wf(),
        ensures
            final(self).wf(),
            final(self)@ == without_key(old(self)@, k@),
            final(self).capacity() == old(self).capacity(),
            final(self).policy() == old(self).policy(),
    {
        match self.find(&k) {
            Some((p, id)) => {
                self.remove_entry(p, id);
            },
            None => {},
        }
    }

    /// Sets the value of key `k` (when `v` is given) and its time to live; false when the key
    /// is not there. Under `Lru` the entry updated moves to the back.
    pub fn update(&mut self, k: String, v: Option<String>, ttl: Option<usize>) -> (r: bool)
        requires
            old(self).wf(),
        ensures
            final(self).wf(),
            final(self).capacity() == old(self).capacity(),
            final(self).policy() == old(self).policy(),
            match key_index(old(self)@, k@) {
                None => !r && final(self)@ == old(self)@,
                Some(i) => r && final(self)@ == touched(
                    old(self)@.update(
                        i,
                        (old(self)@[i].0, match v { Some(x) => x@, None => old(self)@[i].1 }, ttl),
                    ),
                    i,
                    old(self).policy(),
                ),
            },
    {
        match self.find(&k) {
            None => false,
            Some((p, id)) => {
                let ghost vv = match v { Some(ref x) => x@, None => old(self)@[p as int].1 };
                proof {
                    self.dll.lemma_ids_distinct();
                    assert(self.dll.ids().contains(id));
                }
                match v {
                    Some(value) => {
                        self.dll.set_value_at(id, value);
                    },
                    None => {},
                }
                self.ttls.set(p, ttl);
                proof {
                    let target = old(self)@.update(p as int, (old(self)@[p as int].0, vv, ttl));
                    assert(self@ =~= target) by {
                        assert forall|i: int| 0 <= i < target.len() implies self@[i] == target[i] by {
                            assert(self.dll@[i].0 == old(self).dll@[i].0);
                        }
                    }
                    assert forall|a: int, b: int| 0 <= a < target.len() && 0 <= b < target.len() && a != b implies #[trigger] target[a].0
                        != #[trigger] target[b].0 by {
                        assert(target[a].0 == old(self)@[a].0);
                        assert(target[b].0 == old(self)@[b].0);
                    }
                    self.dll.lemma_ids_distinct();
                }
                if self.is_lru() {
                    self.move_entry_to_back(p, id);
                }
                true
            },
        }
    }
}

impl Cache {
    /// The key of the first entry, in order, whose value is `v`.
    pub fn contains_value(&self, v: String) -> (r: Option<String>)
        requires
            self.wf(),
        ensures
            match r {
                Some(key) => exists|i: int|
                    0 <= i < self@.len() && #[trigger] self@[i].1 == v@ && key@ == self@[i].0
                        && forall|j: int| 0 <= j < i ==> self@[j].1 != v@,
                None => forall|i: int| 0 <= i < self@.len() ==> #[trigger] self@[i].1 != v@,
            },
    {
        proof {
            self.lemma_view();
            self.dll.lemma_ids_distinct();
        }
        let mut it = self.dll.iter();
        let mut ret: Option<String> = None;
        loop
            invariant_except_break
                it.valid(),
                it.list() == self.dll,
                ret is None,
                0 <= it.pos() <= self@.len(),
                self.wf(),
                self@.len() == self.dll@.len(),
                forall|i: int| 0 <= i < self@.len() ==> #[trigger] self@[i] == (self.dll@[i].0@, self.dll@[i].1@, self.ttls@[i]),
                forall|j: int| 0 <= j < it.pos() ==> #[trigger] self@[j].1 != v@,
            ensures
                match ret {
                    Some(key) => exists|i: int|
                        0 <= i < self@.len() && #[trigger] self@[i].1 == v@ && key@ == self@[i].0
                            && forall|j: int| 0 <= j < i ==> self@[j].1 != v@,
                    None => forall|i: int| 0 <= i < self@.len() ==> #[trigger] self@[i].1 != v@,
                },
            decreases self@.len() - it.pos(),
        {
            let ghost p = it.pos();
            match it.next() {
                Some((k, val)) => {
                    assert(self@[p] == (self.dll@[p].0@, self.dll@[p].1@, self.ttls@[p]));
                    if val == v {
                        assert(self@[p].1 == v@);
                        ret = Some(k);
                        break;
                    }
                },
                None => {
                    break;
                },
            }
        }
        ret
    }

    /// The keys, in order.
    pub fn get_keys(&self) -> (r: Vec<String>)
        requires
            self.wf(),
        ensures
            string_views(r@) == keys_of(self@),
            string_views(r@).no_duplicates(),
            r@.len() == self@.len(),
            forall|i: int| 0 <= i < self@.len() ==> #[trigger] r@[i]@ == self@[i].0,
    {
        proof {
            self.lemma_view();
            self.dll.lemma_ids_distinct();
            assert forall|a: int, b: int| 0 <= a < self@.len() && 0 <= b < self@.len() && a != b implies keys_of(
                self@,
            )[a] != keys_of(self@)[b] by {
                assert(self@[a].0 != self@[b].0);
            }
        }
        let mut it = self.dll.iter();
        let mut out: Vec<String> = Vec::new();
        loop
            invariant
                it.valid(),
                it.list() == self.dll,
                0 <= it.pos() <= self@.len(),
                self.wf(),
                self@.len() == self.dll@.len(),
                forall|i: int| 0 <= i < self@.len() ==> #[trigger] self@[i] == (self.dll@[i].0@, self.dll@[i].1@, self.ttls@[i]),
                out@.len() == it.pos(),
                forall|j: int| 0 <= j < it.pos() ==> #[trigger] out@[j]@ == self@[j].0,
            decreases self@.len() - it.pos(),
        {
            let ghost p = it.pos();
            match it.next() {
                Some((k, _val)) => {
                    out.push(k);
                },
                None => {
                    assert(string_views(out@) =~= keys_of(self@));
                    return out;
                },
            }
        }
    }

    /// The values, in order.
    pub fn get_values(&self) -> (r: Vec<String>)
        requires
            self.wf(),
        ensures
            string_views(r@) == values_of(self@),
            r@.len() == self@.len(),
            forall|i: int| 0 <= i < self@.len() ==> #[trigger] r@[i]@ == self@[i].1,
    {
        proof {
            self.lemma_view();
            self.dll.lemma_ids_distinct();
        }
        let mut it = self.dll.iter();
        let mut out: Vec<String> = Vec::new();
        loop
            invariant
                it.valid(),
                it.list() == self.dll,
                0 <= it.pos() <= self@.len(),
                self.wf(),
                self@.len() == self.dll@.len(),
                forall|i: int| 0 <= i < self@.len() ==> #[trigger] self@[i] == (self.dll@[i].0@, self.dll@[i].1@, self.ttls@[i]),
                out@.len() == it.pos(),
                forall|j: int| 0 <= j < it.pos() ==> #[trigger] out@[j]@ == self@[j].1,
            decreases self@.len() - it.pos(),
        {
            match it.next() {
                Some((_k, val)) => {
                    out.push(val);
                },
                None => {
                    assert(string_views(out@) =~= values_of(self@));
                    return out;
                },
            }
        }
    }

    /// The (key, value) pairs, in order.
    pub fn get_items(&self) -> (r: Vec<(String, String)>)
        requires
            self.wf(),
        ensures
            pair_views(r@) == items_of(self@),
            r@.len() == self@.len(),
            forall|i: int| 0 <= i < self@.len() ==> #[trigger] r@[i].0@ == self@[i].0 && r@[i].1@ == self@[i].1,
    {
        proof {
            self.lemma_view();
            self.dll.lemma_ids_distinct();
        }
        let mut it = self.dll.iter();
        let mut out: Vec<(String, String)> = Vec::new();
        loop
            invariant
                it.valid(),
                it.list() == self.dll,
                0 <= it.pos() <= self@.len(),
                self.wf(),
                self@.len() == self.dll@.len(),
                forall|i: int| 0 <= i < self@.len() ==> #[trigger] self@[i] == (self.dll@[i].0@, self.dll@[i].1@, self.ttls@[i]),
                out@.len() == it.pos(),
                forall|j: int| 0 <= j < it.pos() ==> #[trigger] out@[j].0@ == self@[j].0 && out@[j].1@ == self@[j].1,
            decreases self@.len() - it.pos(),
        {
            match it.next() {
                Some(kv) => {
                    out.push(kv);
                },
                None => {
                    assert(pair_views(out@) =~= items_of(self@));
                    return out;
                },
            }
        }
    }
}

/// The entries after adding each of `kvs` in turn.
pub open spec fn add_all_spec(s: Seq<Entry>, cap: usize, policy: EvictionPolicy, kvs: Seq<Entry>) -> Seq<Entry>
    decreases kvs.len(),
{
    if kvs.len() == 0 {
        s
    } else {
        let prev = add_all_spec(s, cap, policy, kvs.drop_last());
        add_spec(prev, cap, policy, kvs.last().0, kvs.last().1, kvs.last().2).0
    }
}

/// The views of a sequence of (key, value, time to live) triples.
pub open spec fn triple_views(s: Seq<(String, String, Option<usize>)>) -> Seq<Entry> {
    s.map_values(|x: (String, String, Option<usize>)| (x.0@, x.1@, x.2))
}

/// Adding grows the entries by at most one.
pub proof fn lemma_add_len(
    s: Seq<Entry>,
    cap: usize,
    policy: EvictionPolicy,
    k: Seq<char>,
    v: Seq<char>,
    ttl: Option<usize>,
)
    requires
        keys_distinct(s),
    ensures
        add_spec(s, cap, policy, k, v, ttl).0.len() <= s.len() + 1,
        keys_distinct(add_spec(s, cap, policy, k, v, ttl).0),
{
    lemma_without_key(s, k);
    let s1 = without_key(s, k);
    let (s2, e) = if s1.len() == cap { evict_entries(s1, policy) } else { (s1, None) };
    let t = s2.push((k, v, ttl));
    assert forall|a: int, b: int| 0 <= a < t.len() && 0 <= b < t.len() && a != b implies #[trigger] t[a].0
        != #[trigger] t[b].0 by {
        let front = s1.len() == cap && s1.len() > 0 && evicts_front(policy);
        if a < s2.len() {
            if front { assert(s2[a] == s1[a + 1]); } else { assert(s2[a] == s1[a]); }
        }
        if b < s2.len() {
            if front { assert(s2[b] == s1[b + 1]); } else { assert(s2[b] == s1[b]); }
        }
    }
}

/// Adding a key other than `k` without eviction keeps `k`'s entry.
proof fn lemma_add_keeps_other(
    s: Seq<Entry>,
    cap: usize,
    policy: EvictionPolicy,
    k2: Seq<char>,
    v2: Seq<char>,
    ttl2: Option<usize>,
    k: Seq<char>,
    p: int,
)
    requires
        keys_distinct(s),
        k != k2,
        without_key(s, k2).len() != cap,
        key_index(s, k) == Some(p),
    ensures
        key_index(add_spec(s, cap, policy, k2, v2, ttl2).0, k) matches Some(q) && add_spec(
            s,
            cap,
            policy,
            k2,
            v2,
            ttl2,
        ).0[q] == s[p],
{
    lemma_add_len(s, cap, policy, k2, v2, ttl2);
    let t = add_spec(s, cap, policy, k2, v2, ttl2).0;
    let s1 = without_key(s, k2);
    assert(t == s1.push((k2, v2, ttl2)));
    let p1 = match key_index(s, k2) {
        Some(j) => if p < j { p } else { p - 1 },
        None => p,
    };
    match key_index(s, k2) {
        Some(j) => {
            assert(s[j].0 == k2);
            assert(p != j);
            assert(s1[p1] == s[p]);
        },
        None => {},
    }
    assert(t[p1] == s[p]);
    let q = choose|q: int| 0 <= q < t.len() && #[trigger] t[q].0 == k;
    assert(q == p1);
}

/// Adding all of `kvs` keeps keys distinct and grows the entries by at most `kvs.len()`.
pub proof fn lemma_add_all_len(s: Seq<Entry>, cap: usize, policy: EvictionPolicy, kvs: Seq<Entry>)
    requires
        keys_distinct(s),
    ensures
        keys_distinct(add_all_spec(s, cap, policy, kvs)),
        add_all_spec(s, cap, policy, kvs).len() <= s.len() + kvs.len(),
    decreases kvs.len(),
{
    if kvs.len() > 0 {
        lemma_add_all_len(s, cap, policy, kvs.drop_last());
        let prev = add_all_spec(s, cap, policy, kvs.drop_last());
        lemma_add_len(prev, cap, policy, kvs.last().0, kvs.last().1, kvs.last().2);
    }
}

/// The last write wins: once all of `kvs` are added to a cache that they do not fill, each key
/// holds the value and time to live of its last occurrence in `kvs`.
pub proof fn law_add_all_last_write_wins(
    s: Seq<Entry>,
    cap: usize,
    policy: EvictionPolicy,
    kvs: Seq<Entry>,
    m: int,
)
    requires
        keys_distinct(s),
        s.len() + kvs.len() < cap,
        0 <= m < kvs.len(),
        forall|j: int| m < j < kvs.len() ==> #[trigger] kvs[j].0 != kvs[m].0,
    ensures
        key_index(add_all_spec(s, cap, policy, kvs), kvs[m].0) matches Some(q) && add_all_spec(
            s,
            cap,
            policy,
            kvs,
        )[q] == kvs[m],
    decreases kvs.len(),
{
    let init = kvs.drop_last();
    let prev = add_all_spec(s, cap, policy, init);
    let last = kvs.last();
    lemma_add_all_len(s, cap, policy, init);
    if m == kvs.len() - 1 {
        law_get_after_add(prev, cap, policy, last.0, last.1, last.2);
    } else {
        assert forall|j: int| m < j < init.len() implies #[trigger] init[j].0 != init[m].0 by {
            assert(init[j] == kvs[j]);
        }
        law_add_all_last_write_wins(s, cap, policy, init, m);
        assert(init[m] == kvs[m]);
        let p = key_index(prev, kvs[m].0)->0;
        lemma_without_key(prev, last.0);
        assert(kvs[kvs.len() - 1].0 != kvs[m].0);
        lemma_add_keeps_other(prev, cap, policy, last.0, last.1, last.2, kvs[m].0, p);
    }
}

impl Cache {
    /// Adds each (key, value, time to live) of `kvs` in turn, as `add` does.
    pub fn add_all(&mut self, kvs: Vec<(String, String, Option<usize>)>)
        requires
            old(self).wf(),
            old(self)@.len() + kvs@.len() < usize::MAX,
        ensures
            final(self).wf(),
            final(self)@ == add_all_spec(old(self)@, old(self).capacity(), old(self).policy(), triple_views(kvs@)),
            final(self).capacity() == old(self).capacity(),
            final(self).policy() == old(self).policy(),
    {
        let ghost all = triple_views(kvs@);
        let n = kvs.len();
        let mut i: usize = 0;
        while i < n
            invariant
                self.wf(),
                n == all.len(),
                i <= n,
                kvs@.len() == n,
                all == triple_views(kvs@),
                self@ == add_all_spec(old(self)@, old(self).capacity(), old(self).policy(), all.take(i as int)),
                self@.len() <= old(self)@.len() + i,
                old(self)@.len() + n < usize::MAX,
                self.capacity() == old(self).capacity(),
                self.policy() == old(self).policy(),
            decreases n - i,
        {
            let k = kvs[i].0.clone();
            let v = kvs[i].1.clone();
            let ttl = kvs[i].2;
            proof {
                assert((k@, v@, ttl) == all[i as int]);
                assert(all.take(i + 1).drop_last() =~= all.take(i as int));
                lemma_add_len(self@, self.capacity(), self.policy(), k@, v@, ttl);
            }
            self.add(k, v, ttl);
            i = i + 1;
        }
        assert(all.take(n as int) =~= all);
    }
}

/// A read after a write gives back what was written: once `(k, v, ttl)` is added, key `k`
/// is present with value `v` and time to live `ttl`, at the back.
pub proof fn law_get_after_add(
    s: Seq<Entry>,
    cap: usize,
    policy: EvictionPolicy,
    k: Seq<char>,
    v: Seq<char>,
    ttl: Option<usize>,
)
    requires
        keys_distinct(s),
    ensures
        ({
            let t = add_spec(s, cap, policy, k, v, ttl).0;
            &&& key_index(t, k) == Some(t.len() - 1)
            &&& t[t.len() - 1] == (k, v, ttl)
        }),
{
    lemma_add_len(s, cap, policy, k, v, ttl);
    let t = add_spec(s, cap, policy, k, v, ttl).0;
    assert(t[t.len() - 1].0 == k);
    let j = choose|i: int| 0 <= i < t.len() && #[trigger] t[i].0 == k;
    assert(j == t.len() - 1);
}

/// Adding never makes a cache hold more than its capacity, once it holds at most that many.
pub proof fn law_add_within_capacity(
    s: Seq<Entry>,
    cap: usize,
    policy: EvictionPolicy,
    k: Seq<char>,
    v: Seq<char>,
    ttl: Option<usize>,
)
    requires
        keys_distinct(s),
        0 < cap,
        s.len() <= cap,
    ensures
        add_spec(s, cap, policy, k, v, ttl).0.len() <= cap,
{
    lemma_without_key(s, k);
}

/// Adding evicts only when the key is new and the cache is full; first-in first-out and
/// least-recently-used caches then evict the oldest entry, last-in first-out ones the newest.
pub proof fn law_add_evicts(
    s: Seq<Entry>,
    cap: usize,
    policy: EvictionPolicy,
    k: Seq<char>,
    v: Seq<char>,
    ttl: Option<usize>,
)
    requires
        keys_distinct(s),
    ensures
        ({
            let (t, e) = add_spec(s, cap, policy, k, v, ttl);
            &&& key_index(s, k) is Some && s.len() <= cap ==> e is None && t.len() == s.len()
            &&& key_index(s, k) is None && s.len() == cap && 0 < cap && evicts_front(policy)
                ==> e == Some(s[0].0) && t == s.drop_first().push((k, v, ttl))
            &&& key_index(s, k) is None && s.len() == cap && 0 < cap && !evicts_front(policy)
                ==> e == Some(s.last().0) && t == s.drop_last().push((k, v, ttl))
            &&& key_index(s, k) is None && s.len() != cap ==> e is None && t == s.push((k, v, ttl))
        }),
{
    lemma_without_key(s, k);
}

/// Adding keeps a cache valid: in a cache of capacity at least one that holds at most that
/// many entries with distinct keys, an add leaves keys distinct and the count within the
/// capacity, stores `k` with value `v` and time to live `ttl` at the back, and leaves the
/// evicted key, if any, gone.
pub proof fn law_add_keeps_cache_valid(
    s: Seq<Entry>,
    cap: usize,
    policy: EvictionPolicy,
    k: Seq<char>,
    v: Seq<char>,
    ttl: Option<usize>,
)
    requires
        keys_distinct(s),
        1 <= cap,
        s.len() <= cap,
    ensures
        ({
            let (t, e) = add_spec(s, cap, policy, k, v, ttl);
            &&& keys_distinct(t)
            &&& t.len() <= cap
            &&& key_index(t, k) == Some(t.len() - 1)
            &&& t[t.len() - 1] == (k, v, ttl)
            &&& e matches Some(x) ==> x != k && key_index(t, x) is None
        }),
{
    lemma_add_len(s, cap, policy, k, v, ttl);
    law_add_within_capacity(s, cap, policy, k, v, ttl);
    law_get_after_add(s, cap, policy, k, v, ttl);
    lemma_without_key(s, k);
    let (t, e) = add_spec(s, cap, policy, k, v, ttl);
    let s1 = without_key(s, k);
    if let Some(x) = e {
        let front = evicts_front(policy);
        let gone: int = if front { 0 } else { s1.len() - 1 };
        assert(s1[gone].0 == x);
        assert(x != k);
        assert forall|j: int| 0 <= j < t.len() implies #[trigger] t[j].0 != x by {
            if j < t.len() - 1 {
                let j1 = if front { j + 1 } else { j };
                assert(t[j] == s1[j1]);
                assert(j1 != gone);
            }
        }
    }
}

/// Deleting a key removes it and no other key.
pub proof fn law_delete_removes_only_key(s: Seq<Entry>, k: Seq<char>, other: Seq<char>)
    requires
        keys_distinct(s),
        other != k,
    ensures
        key_index(without_key(s, k), k) is None,
        (key_index(without_key(s, k), other) is Some) == (key_index(s, other) is Some),
{
    lemma_without_key(s, k);
    let r = without_key(s, k);
    if key_index(s, other) is Some {
        let j = choose|i: int| 0 <= i < s.len() && #[trigger] s[i].0 == other;
        match key_index(s, k) {
            Some(p) => {
                let jj = if j < p { j } else { j - 1 };
                assert(r[jj].0 == other);
            },
            None => {
                assert(r[j].0 == other);
            },
        }
    }
    if key_index(r, other) is Some {
        let j = choose|i: int| 0 <= i < r.len() && #[trigger] r[i].0 == other;
        match key_index(s, k) {
            Some(p) => {
                let jj = if j < p { j } else { j + 1 };
                assert(s[jj].0 == other);
            },
            None => {
                assert(s[j].0 == other);
            },
        }
    }
}

impl Cache {
    /// How many entries the cache holds.
    pub fn len(&self) -> (n: usize)
        requires
            self.wf(),
        ensures
            n == self@.len(),
    {
        self.ttls.len()
    }

    /// The entries, in order, each with its key, value and time to live.
    pub fn get_entries(&self) -> (r: Vec<(String, String, Option<usize>)>)
        requires
            self.wf(),
        ensures
            triple_views(r@) == self@,
            r@.len() == self@.len(),
            forall|i: int| 0 <= i < self@.len() ==> #[trigger] r@[i].0@ == self@[i].0 && r@[i].1@ == self@[i].1 && r@[i].2 == self@[i].2,
    {
        proof {
            self.lemma_view();
            self.dll.lemma_ids_distinct();
        }
        let mut it = self.dll.iter();
        let mut out: Vec<(String, String, Option<usize>)> = Vec::new();
        loop
            invariant
                it.valid(),
                it.list() == self.dll,
                0 <= it.pos() <= self@.len(),
                self.wf(),
                self@.len() == self.dll@.len(),
                forall|i: int| 0 <= i < self@.len() ==> #[trigger] self@[i] == (self.dll@[i].0@, self.dll@[i].1@, self.ttls@[i]),
                out@.len() == it.pos(),
                forall|j: int| 0 <= j < it.pos() ==> (#[trigger] out@[j].0@, out@[j].1@, out@[j].2) == self@[j],
            decreases self@.len() - it.pos(),
        {
            let ghost p = it.pos();
            match it.next() {
                Some((k, v)) => {
                    let i = out.len();
                    let ttl = self.ttls[i];
                    out.push((k, v, ttl));
                    assert(self@[p] == (self.dll@[p].0@, self.dll@[p].1@, self.ttls@[p]));
                },
                None => {
                    assert(triple_views(out@) =~= self@);
                    return out;
                },
            }
        }
    }
}

/// An entry after one tick of its time to live.
pub open spec fn tick_entry(e: Entry) -> Entry {
    (e.0, e.1, match e.2 {
        Some(t) => Some(tick(t)),
        None => None,
    })
}

/// Whether an entry's time to live runs out at this tick.
pub open spec fn expires(e: Entry) -> bool {
    e.2 matches Some(t) && tick(t) == 0
}

/// The entries after one tick: every time to live counts down, and the entries whose time
/// to live runs out leave.
pub open spec fn expire_spec(s: Seq<Entry>) -> Seq<Entry>
    decreases s.len(),
{
    if s.len() == 0 {
        s
    } else if expires(s.last()) {
        expire_spec(s.drop_last())
    } else {
        expire_spec(s.drop_last()).push(tick_entry(s.last()))
    }
}

/// The keys whose time to live runs out at this tick, in order.
pub open spec fn expired_keys(s: Seq<Entry>) -> Seq<Seq<char>>
    decreases s.len(),
{
    if s.len() == 0 {
        Seq::empty()
    } else if expires(s.last()) {
        expired_keys(s.drop_last()).push(s.last().0)
    } else {
        expired_keys(s.drop_last())
    }
}

impl Cache {
    /// Sets the time to live of the entry at position `p`.
    fn set_ttl_at(&mut self, p: usize, ttl: Option<usize>)
        requires
            old(self).wf(),
            p < old(self)@.len(),
        ensures
            final(self).wf(),
            final(self)@ == old(self)@.update(p as int, (old(self)@[p as int].0, old(self)@[p as int].1, ttl)),
            final(self).dll == old(self).dll,
    {
        self.ttls.set(p, ttl);
        proof {
            let target = old(self)@.update(p as int, (old(self)@[p as int].0, old(self)@[p as int].1, ttl));
            assert(self@ =~= target);
            assert forall|a: int, b: int| 0 <= a < target.len() && 0 <= b < target.len() && a != b implies #[trigger] target[a].0
                != #[trigger] target[b].0 by {
                assert(target[a].0 == old(self)@[a].0);
                assert(target[b].0 == old(self)@[b].0);
            }
        }
    }

    /// One tick of every time to live: each counts down, and the keys whose time to live runs
    /// out leave the cache. Returns those keys, in order.
    pub fn expire(&mut self) -> (expired: Vec<String>)
        requires
            old(self).wf(),
        ensures
            final(self).wf(),
            final(self)@ == expire_spec(old(self)@),
            string_views(expired@) == expired_keys(old(self)@),
            final(self).capacity() == old(self).capacity(),
            final(self).policy() == old(self).policy(),
    {
        let ghost s0 = self@;
        let n0 = self.len();
        proof {
            self.dll.lemma_ids_distinct();
            assert(s0.take(0) =~= Seq::<Entry>::empty());
            assert(s0.skip(0) =~= s0);
            assert(expire_spec(s0.take(0)) + s0.skip(0) =~= s0);
        }
        let mut cur = self.dll.head();
        let mut pos: usize = 0;
        let mut i: usize = 0;
        let mut out: Vec<String> = Vec::new();
        assert(string_views(out@) =~= expired_keys(s0.take(0)));
        while i < n0
            invariant
                self.wf(),
                i <= n0,
                n0 == s0.len(),
                self@ == expire_spec(s0.take(i as int)) + s0.skip(i as int),
                pos == expire_spec(s0.take(i as int)).len(),
                self.dll.ids().len() == self@.len(),
                cur == (if pos < self.dll.ids().len() { Some(self.dll.ids()[pos as int]) } else { None::<usize> }),
                string_views(out@) == expired_keys(s0.take(i as int)),
                self.capacity() == old(self).capacity(),
                self.policy() == old(self).policy(),
            decreases n0 - i,
        {
            let ghost pre = self@;
            let ghost head = expire_spec(s0.take(i as int));
            proof {
                self.dll.lemma_ids_distinct();
                assert(s0.take(i + 1).drop_last() =~= s0.take(i as int));
                assert(s0.take(i + 1).last() == s0[i as int]);
                assert(pre[pos as int] == s0[i as int]);
                assert(s0.skip(i + 1) =~= s0.skip(i as int).drop_first());
            }
            let id = cur.unwrap();
            let nx = self.dll.next_of(id);
            match self.ttls[pos] {
                None => {
                    proof {
                        assert(self@[pos as int] == pre[pos as int]);
                        assert(!expires(s0[i as int]));
                        assert(tick_entry(s0[i as int]) == s0[i as int]);
                        assert(self@ =~= expire_spec(s0.take(i + 1)) + s0.skip(i + 1));
                    }
                    pos = pos + 1;
                    cur = nx;
                },
                Some(t) => {
                    let nt = t.saturating_sub(1);
                    if nt > 0 {
                        self.set_ttl_at(pos, Some(nt));
                        proof {
                            assert(!expires(s0[i as int]));
                            assert(self@ =~= expire_spec(s0.take(i + 1)) + s0.skip(i + 1));
                        }
                        pos = pos + 1;
                        cur = nx;
                    } else {
                        proof {
                            assert(self@[pos as int].0 == s0[i as int].0);
                        }
                        let key = self.dll.key_at(id).clone();
                        let ghost old_out = out@;
                        out.push(key);
                        self.remove_entry(pos, id);
                        proof {
                            assert(expires(s0[i as int]));
                            assert(self@ =~= expire_spec(s0.take(i + 1)) + s0.skip(i + 1));
                            assert(string_views(out@) =~= string_views(old_out).push(s0[i as int].0));
                        }
                        cur = nx;
                    }
                },
            }
            i = i + 1;
        }
        proof {
            assert(s0.take(n0 as int) =~= s0);
            assert(s0.skip(n0 as int) =~= Seq::<Entry>::empty());
            assert(self@ =~= expire_spec(s0));
        }
        out
    }
}

/// Every entry left after a tick is the ticked form of an entry before it.
proof fn lemma_expire_from(s: Seq<Entry>)
    ensures
        forall|j: int| 0 <= j < expire_spec(s).len() ==> exists|i: int|
            0 <= i < s.len() && !expires(s[i]) && #[trigger] expire_spec(s)[j] == tick_entry(s[i]),
    decreases s.len(),
{
    if s.len() > 0 {
        let init = s.drop_last();
        lemma_expire_from(init);
        let e = expire_spec(s);
        assert forall|j: int| 0 <= j < e.len() implies exists|i: int|
            0 <= i < s.len() && !expires(s[i]) && #[trigger] e[j] == tick_entry(s[i]) by {
            if j < expire_spec(init).len() {
                let i = choose|i: int| 0 <= i < init.len() && !expires(init[i]) && expire_spec(init)[j] == tick_entry(init[i]);
                assert(s[i] == init[i]);
            } else {
                assert(e[j] == tick_entry(s[s.len() - 1]));
            }
        }
    }
}

/// An entry that does not expire at a tick is still there after it, ticked.
proof fn lemma_expire_keeps(s: Seq<Entry>, i: int)
    requires
        0 <= i < s.len(),
        !expires(s[i]),
    ensures
        exists|j: int| 0 <= j < expire_spec(s).len() && #[trigger] expire_spec(s)[j] == tick_entry(s[i]),
    decreases s.len(),
{
    let init = s.drop_last();
    if i == s.len() - 1 {
        let e = expire_spec(s);
        assert(e[e.len() - 1] == tick_entry(s[i]));
    } else {
        lemma_expire_keeps(init, i);
        let j = choose|j: int| 0 <= j < expire_spec(init).len() && expire_spec(init)[j] == tick_entry(init[i]);
        assert(expire_spec(s)[j] == expire_spec(init)[j]);
    }
}

/// A tick keeps keys distinct.
proof fn lemma_expire_distinct(s: Seq<Entry>)
    requires
        keys_distinct(s),
    ensures
        keys_distinct(expire_spec(s)),
    decreases s.len(),
{
    if s.len() > 0 {
        let init = s.drop_last();
        assert(keys_distinct(init)) by {
            assert forall|a: int, b: int| 0 <= a < init.len() && 0 <= b < init.len() && a != b implies #[trigger] init[a].0
                != #[trigger] init[b].0 by {
                assert(init[a] == s[a] && init[b] == s[b]);
            }
        }
        lemma_expire_distinct(init);
        lemma_expire_from(init);
        let e = expire_spec(s);
        let ei = expire_spec(init);
        if !expires(s.last()) {
            assert forall|a: int, b: int| 0 <= a < e.len() && 0 <= b < e.len() && a != b implies #[trigger] e[a].0
                != #[trigger] e[b].0 by {
                if a < ei.len() && b < ei.len() {
                    assert(e[a] == ei[a] && e[b] == ei[b]);
                } else if a < ei.len() {
                    let i = choose|i: int| 0 <= i < init.len() && !expires(init[i]) && ei[a] == tick_entry(init[i]);
                    assert(init[i] == s[i]);
                    assert(s[i].0 != s[s.len() - 1].0);
                } else if b < ei.len() {
                    let i = choose|i: int| 0 <= i < init.len() && !expires(init[i]) && ei[b] == tick_entry(init[i]);
                    assert(init[i] == s[i]);
                    assert(s[i].0 != s[s.len() - 1].0);
                }
            }
        }
    }
}

/// One tick of a cache: keys stay distinct; a key that was absent stays absent; a key whose
/// time to live runs out leaves; any other key stays, with its value and its time to live
/// counted down.
pub proof fn law_expire_tick(s: Seq<Entry>, k: Seq<char>)
    requires
        keys_distinct(s),
    ensures
        keys_distinct(expire_spec(s)),
        match key_index(s, k) {
            None => key_index(expire_spec(s), k) is None,
            Some(i) => if expires(s[i]) {
                key_index(expire_spec(s), k) is None
            } else {
                key_index(expire_spec(s), k) matches Some(j) && expire_spec(s)[j] == tick_entry(s[i])
            },
        },
{
    lemma_expire_distinct(s);
    lemma_expire_from(s);
    let e = expire_spec(s);
    match key_index(s, k) {
        None => {
            if exists|j: int| 0 <= j < e.len() && #[trigger] e[j].0 == k {
                let j = choose|j: int| 0 <= j < e.len() && #[trigger] e[j].0 == k;
                let i = choose|i: int| 0 <= i < s.len() && !expires(s[i]) && e[j] == tick_entry(s[i]);
                assert(s[i].0 == k);
            }
        },
        Some(i) => {
            if expires(s[i]) {
                if exists|j: int| 0 <= j < e.len() && #[trigger] e[j].0 == k {
                    let j = choose|j: int| 0 <= j < e.len() && #[trigger] e[j].0 == k;
                    let i2 = choose|i2: int| 0 <= i2 < s.len() && !expires(s[i2]) && e[j] == tick_entry(s[i2]);
                    assert(s[i2].0 == k);
                    assert(i2 != i);
                }
            } else {
                lemma_expire_keeps(s, i);
                let j = choose|j: int| 0 <= j < e.len() && #[trigger] e[j] == tick_entry(s[i]);
                assert(e[j].0 == k);
                let j2 = choose|j2: int| 0 <= j2 < e.len() && #[trigger] e[j2].0 == k;
                assert(j2 == j);
            }
        },
    }
}

/// The entries after `m` ticks.
pub open spec fn after_ticks(s: Seq<Entry>, m: nat) -> Seq<Entry>
    decreases m,
{
    if m == 0 {
        s
    } else {
        expire_spec(after_ticks(s, (m - 1) as nat))
    }
}

proof fn lemma_ticks_present(s: Seq<Entry>, k: Seq<char>, t: usize, m: nat)
    requires
        keys_distinct(s),
        key_index(s, k) matches Some(i) && s[i].2 == Some(t),
        m < t,
    ensures
        keys_distinct(after_ticks(s, m)),
        key_index(after_ticks(s, m), k) matches Some(j) && after_ticks(s, m)[j].2 == Some((t - m) as usize),
    decreases m,
{
    if m > 0 {
        lemma_ticks_present(s, k, t, (m - 1) as nat);
        law_expire_tick(after_ticks(s, (m - 1) as nat), k);
    }
}

/// Time to live: a key added with time to live `t` is still there, with `t - m` left, after
/// `m < t` ticks, and gone after `t` ticks (after one tick when `t` is zero), for good.
pub proof fn law_ttl_expiry(s: Seq<Entry>, k: Seq<char>, t: usize, m: nat)
    requires
        keys_distinct(s),
        key_index(s, k) matches Some(i) && s[i].2 == Some(t),
    ensures
        m < t ==> (key_index(after_ticks(s, m), k) matches Some(j) && after_ticks(s, m)[j].2 == Some((t - m) as usize)),
        m >= t && m >= 1 ==> key_index(after_ticks(s, m), k) is None,
{
    if m < t {
        lemma_ticks_present(s, k, t, m);
    }
    if m >= t && m >= 1 {
        let gone: nat = if t == 0 { 1 } else { t as nat };
        if t == 0 {
            law_expire_tick(s, k);
            assert(after_ticks(s, 0) == s);
            assert(after_ticks(s, 1) == expire_spec(s));
        } else {
            lemma_ticks_present(s, k, t, (t - 1) as nat);
            law_expire_tick(after_ticks(s, (t - 1) as nat), k);
            assert(after_ticks(s, t as nat) == expire_spec(after_ticks(s, (t - 1) as nat)));
        }
        lemma_ticks_absent_from(s, k, gone, m);
    }
}

proof fn lemma_ticks_absent_from(s: Seq<Entry>, k: Seq<char>, a: nat, m: nat)
    requires
        a <= m,
        keys_distinct(after_ticks(s, a)),
        key_index(after_ticks(s, a), k) is None,
    ensures
        key_index(after_ticks(s, m), k) is None,
        keys_distinct(after_ticks(s, m)),
    decreases m - a,
{
    if m > a {
        lemma_ticks_absent_from(s, k, a, (m - 1) as nat);
        law_expire_tick(after_ticks(s, (m - 1) as nat), k);
    }
}

/// A read after an update gives back what the update wrote, and keys stay distinct; the
/// entry keeps its position, or under `Lru` moves to the back.
pub proof fn law_get_after_update(
    s: Seq<Entry>,
    k: Seq<char>,
    v: Seq<char>,
    ttl: Option<usize>,
    policy: EvictionPolicy,
)
    requires
        keys_distinct(s),
        key_index(s, k) is Some,
    ensures
        ({
            let i = key_index(s, k)->0;
            let u = touched(s.update(i, (s[i].0, v, ttl)), i, policy);
            &&& key_index(u, k) == Some(if policy is Lru { s.len() - 1 } else { i })
            &&& u[if policy is Lru { s.len() - 1 } else { i }] == (k, v, ttl)
            &&& keys_distinct(u)
            &&& u.len() == s.len()
        }),
{
    let i = key_index(s, k)->0;
    let t = s.update(i, (s[i].0, v, ttl));
    assert(t[i].0 == k);
    assert forall|a: int, b: int| 0 <= a < t.len() && 0 <= b < t.len() && a != b implies #[trigger] t[a].0
        != #[trigger] t[b].0 by {
        assert(t[a].0 == s[a].0 && t[b].0 == s[b].0);
    }
    let u = touched(t, i, policy);
    let at: int = if policy is Lru { s.len() - 1 } else { i };
    if policy is Lru {
        lemma_to_back(t, i);
    }
    assert(u[at] == (k, v, ttl));
    assert(u[at].0 == k);
    let j = choose|j: int| 0 <= j < u.len() && #[trigger] u[j].0 == k;
    assert(j == at);
}

/// Time to live by countdown: once `k` is added with time to live `n >= 1`, the `i`-th tick
/// off it reports the key alive for `i < n` and dead at `i == n`.
pub proof fn law_decr_ttl_countdown(
    s: Seq<Entry>,
    cap: usize,
    policy: EvictionPolicy,
    k: Seq<char>,
    v: Seq<char>,
    n: usize,
    i: nat,
)
    requires
        keys_distinct(s),
        1 <= i <= n,
    ensures
        ({
            let t = add_spec(s, cap, policy, k, v, Some(n)).0;
            decr_spec(decr_times(t, k, (i - 1) as nat), k).1 == Some(
                if i < n { s_TTL::Alive } else { s_TTL::Dead },
            )
        }),
{
    let t = add_spec(s, cap, policy, k, v, Some(n)).0;
    law_get_after_add(s, cap, policy, k, v, Some(n));
    lemma_add_len(s, cap, policy, k, v, Some(n));
    lemma_decr_times(t, k, t.len() - 1, n, (i - 1) as nat);
}

/// Least recently used: under `Lru`, once the entry at position `i` of a full cache of
/// capacity at least two has been read or updated, adding a new key evicts another key, the
/// one used longest ago.
pub proof fn law_lru_keeps_recently_used(
    s: Seq<Entry>,
    i: int,
    cap: usize,
    k: Seq<char>,
    v: Seq<char>,
    ttl: Option<usize>,
)
    requires
        keys_distinct(s),
        0 <= i < s.len(),
        s.len() == cap,
        cap >= 2,
        key_index(s, k) is None,
    ensures
        ({
            let u = touched(s, i, EvictionPolicy::Lru);
            let r = add_spec(u, cap, EvictionPolicy::Lru, k, v, ttl);
            &&& r.1 == Some(if i == 0 { s[1].0 } else { s[0].0 })
            &&& r.1 != Some(s[i].0)
            &&& key_index(r.0, s[i].0) is Some
        }),
{
    let u = touched(s, i, EvictionPolicy::Lru);
    lemma_to_back(s, i);
    assert forall|j: int| 0 <= j < u.len() implies #[trigger] u[j].0 != k by {
        let j1 = if j == s.len() - 1 { i } else if j < i { j } else { j + 1 };
        assert(u[j] == s[j1]);
        if s[j1].0 == k {
            assert(exists|x: int| 0 <= x < s.len() && #[trigger] s[x].0 == k);
        }
    }
    assert(!(exists|j: int| 0 <= j < u.len() && #[trigger] u[j].0 == k));
    assert(without_key(u, k) == u);
    if i == 0 {
        assert(u[0] == s[1]);
    } else {
        assert(u[0] == s[0]);
    }
    let r = add_spec(u, cap, EvictionPolicy::Lru, k, v, ttl);
    let w = u.drop_first();
    assert(r.0 == w.push((k, v, ttl)));
    assert(r.0[s.len() - 2] == u[s.len() - 1]);
    assert(r.0[s.len() - 2].0 == s[i].0);
}

} // verus!
