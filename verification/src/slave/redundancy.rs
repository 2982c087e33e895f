use vstd::prelude::*;
use std::cmp::Ordering;
use std::collections::BTreeSet;
use crate::slave::cache::Cache;
use crate::slave::dll::EvictionPolicy;
use crate::text::{http_url, url_spec};
use crate::slave::endpoints::Topo;
use vstd::std_specs::iter::IteratorSpec;

verus! {

/// How strongly a redundancy target is preferred.
#[derive(Clone, Copy, Debug, PartialEq, Eq, Structural, PartialOrd, Ord)]
pub enum Priority {
    Low,
    Default,
    Medium,
    High,
}

/// The rank of a priority: `Low` < `Default` < `Medium` < `High`.
pub open spec fn rank(p: Priority) -> nat {
    match p {
        Priority::Low => 0,
        Priority::Default => 1,
        Priority::Medium => 2,
        Priority::High => 3,
    }
}

impl Priority {
    pub fn rank(&self) -> (r: u8)
        ensures
            r as nat == rank(*self),
    {
        match self {
            Priority::Low => 0,
            Priority::Default => 1,
            Priority::Medium => 2,
            Priority::High => 3,
        }
    }

    /// Orders two priorities by rank.
    pub fn compare(&self, other: &Self) -> (o: Ordering)
        ensures
            (o == Ordering::Less) == (rank(*self) < rank(*other)),
            (o == Ordering::Equal) == (rank(*self) == rank(*other)),
            (o == Ordering::Greater) == (rank(*self) > rank(*other)),
    {
        let a = self.rank();
        let b = other.rank();
        if a < b {
            Ordering::Less
        } else if a == b {
            Ordering::Equal
        } else {
            Ordering::Greater
        }
    }

    /// The lower ranked of the two, `self` on a tie.
    pub fn min(self, other: Self) -> (r: Self)
        ensures
            r == (if rank(self) <= rank(other) { self } else { other }),
    {
        if self.rank() <= other.rank() {
            self
        } else {
            other
        }
    }

    /// The higher ranked of the two, `other` on a tie.
    pub fn max(self, other: Self) -> (r: Self)
        ensures
            r == (if rank(other) >= rank(self) { other } else { self }),
    {
        if other.rank() >= self.rank() {
            other
        } else {
            self
        }
    }
}

/// A node that can take over this node's data.
#[derive(Debug)]
pub struct Routes {
    pub ip: String,
    pub port: u16,
    pub prio: Priority,
}

impl Clone for Routes {
    fn clone(&self) -> (r: Self)
        ensures
            r == *self,
    {
        Routes { ip: self.ip.clone(), port: self.port, prio: self.prio }
    }
}

impl Routes {
    /// A route to `ip:port` with priority `prio` (`Default` when `None`).
    pub fn new(ip: String, port: u16, prio: Option<Priority>) -> (r: Self)
        ensures
            r.ip == ip,
            r.port == port,
            r.prio == (match prio { Some(p) => p, None => Priority::Default }),
    {
        let p = match prio {
            Some(p) => p,
            None => Priority::Default,
        };
        Routes { ip, port, prio: p }
    }

    /// The address `http://{ip}:{port}`.
    pub fn get_url(&self) -> (url: String)
        ensures
            url@ == url_spec(self.ip@, self.port as nat),
    {
        http_url(self.ip.as_str(), self.port)
    }

    /// Orders two routes by priority alone.
    pub fn compare(&self, other: &Self) -> (o: Ordering)
        ensures
            (o == Ordering::Less) == (rank(self.prio) < rank(other.prio)),
            (o == Ordering::Equal) == (rank(self.prio) == rank(other.prio)),
            (o == Ordering::Greater) == (rank(self.prio) > rank(other.prio)),
    {
        self.prio.compare(&other.prio)
    }
}

/// The 64-bit XXH3 hash of the UTF-8 encoding of `s`.
pub uninterp spec fn xxh3_of(s: Seq<char>) -> u64;

/// Whether `c` is an ASCII letter or digit.
pub open spec fn is_alphanumeric(c: char) -> bool {
    ('a' <= c && c <= 'z') || ('A' <= c && c <= 'Z') || ('0' <= c && c <= '9')
}

/// Hashes `input` for a virtual node.
///
/// Trusted: calls `xxhash_rust::xxh3::xxh3_64` on the bytes of `input`; the contract names
/// its result `xxh3_of(input@)`, cut to a `usize`.
#[verifier::external_body]
fn hash(input: &str) -> (h: usize)
    ensures
        h == xxh3_of(input@) as usize,
{
    xxhash_rust::xxh3::xxh3_64(input.as_bytes()) as usize
}

/// A random number in `low..=high`.
///
/// Trusted: calls `rand::Rng::random_range` on the thread's generator with an inclusive range;
/// rand documents a value drawn from the range, and a panic when the range is empty, which
/// `requires` rules out.
#[verifier::external_body]
fn random_in_range(low: usize, high: usize) -> (r: usize)
    requires
        low <= high,
    ensures
        low <= r <= high,
{
    rand::Rng::random_range(&mut rand::rng(), low..=high)
}

/// `len` random ASCII letters and digits.
///
/// Trusted: samples `rand::distr::Alphanumeric` `len` times; rand documents each sample as one
/// of `A-Z`, `a-z`, `0-9`.
#[verifier::external_body]
fn alphanumeric_string(len: usize) -> (s: String)
    ensures
        s@.len() == len,
        forall|i: int| 0 <= i < len ==> is_alphanumeric(#[trigger] s@[i]),
{
    rand::Rng::sample_iter(rand::rng(), rand::distr::Alphanumeric).take(len).map(char::from).collect()
}

/// The `Debug` rendering of `d`.
///
/// Trusted: calls `format!("{:?}", d)`; nothing is claimed of the text.
#[verifier::external_body]
fn debug_string<D: std::fmt::Debug>(d: &D) -> String {
    format!("{:?}", d)
}

/// A random salt of between `mn` and `mx` ASCII letters and digits.
fn random_salt(mn: usize, mx: usize) -> (s: String)
    requires
        mn <= mx,
    ensures
        mn <= s@.len() <= mx,
        forall|i: int| 0 <= i < s@.len() ==> is_alphanumeric(#[trigger] s@[i]),
{
    let len = random_in_range(mn, mx);
    alphanumeric_string(len)
}

/// The state of a cache node: its cache, its virtual nodes on the hash ring, the nodes that
/// can take over its data, whether it is down, and the orchestrator it reports to.
#[allow(non_camel_case_types)]
pub struct Cache_Net {
    pub cache: Cache,
    pub vnodes: BTreeSet<usize>,
    pub redundancies: Vec<Routes>,
    pub is_down: bool,
    pub orchestrator: Option<Routes>,
    pub name: Option<String>,
}

impl Cache_Net {
    /// A node with an empty cache of capacity `cap` and policy `evic`, no virtual nodes, no
    /// redundancy targets, up, with no orchestrator and no name.
    pub fn new(cap: Option<usize>, evic: Option<EvictionPolicy>) -> (n: Self)
        ensures
            n.cache.wf(),
            n.cache@ == Seq::<crate::slave::cache::Entry>::empty(),
            n.cache.capacity() == (match cap { Some(x) => x, None => usize::MAX }),
            n.cache.policy() == (match evic { Some(p) => p, None => EvictionPolicy::Default }),
            n.vnodes@ == Set::<usize>::empty(),
            n.redundancies@ == Seq::<Routes>::empty(),
            !n.is_down,
            n.orchestrator is None,
            n.name is None,
    {
        Cache_Net {
            cache: Cache::new(cap, evic),
            redundancies: Vec::new(),
            vnodes: BTreeSet::new(),
            is_down: false,
            orchestrator: None,
            name: None,
        }
    }

    /// Records the orchestrator at `ip:port`, with the highest priority.
    pub fn save_orchestrator(&mut self, ip: String, port: u16)
        ensures
            final(self).orchestrator == Some(Routes { ip, port, prio: Priority::High }),
            final(self).cache == old(self).cache,
            final(self).vnodes == old(self).vnodes,
            final(self).redundancies == old(self).redundancies,
            final(self).is_down == old(self).is_down,
            final(self).name == old(self).name,
    {
        self.orchestrator = Some(Routes { ip, port, prio: Priority::High });
    }

    /// Adds a redundancy target for each `(ip, port, priority)` of `routes`, in order.
    pub fn add_redundancies(&mut self, routes: Vec<(String, u16, Option<Priority>)>)
        ensures
            final(self).redundancies@.len() == old(self).redundancies@.len() + routes@.len(),
            forall|i: int| 0 <= i < old(self).redundancies@.len() ==> #[trigger] final(self).redundancies@[i]
                == old(self).redundancies@[i],
            forall|j: int|
                0 <= j < routes@.len() ==> #[trigger] final(self).redundancies@[old(self).redundancies@.len() + j]
                    == Routes::new_spec(routes@[j].0, routes@[j].1, routes@[j].2),
            final(self).cache == old(self).cache,
            final(self).vnodes == old(self).vnodes,
            final(self).is_down == old(self).is_down,
            final(self).orchestrator == old(self).orchestrator,
            final(self).name == old(self).name,
    {
        let n = routes.len();
        let mut i: usize = 0;
        while i < n
            invariant
                n == routes@.len(),
                i <= n,
                self.redundancies@.len() == old(self).redundancies@.len() + i,
                forall|k: int| 0 <= k < old(self).redundancies@.len() ==> #[trigger] self.redundancies@[k]
                    == old(self).redundancies@[k],
                forall|j: int|
                    0 <= j < i ==> #[trigger] self.redundancies@[old(self).redundancies@.len() + j]
                        == Routes::new_spec(routes@[j].0, routes@[j].1, routes@[j].2),
                self.cache == old(self).cache,
                self.vnodes == old(self).vnodes,
                self.is_down == old(self).is_down,
                self.orchestrator == old(self).orchestrator,
                self.name == old(self).name,
            decreases n - i,
        {
            let r = Routes::new(routes[i].0.clone(), routes[i].1, routes[i].2);
            self.redundancies.push(r);
            i = i + 1;
        }
    }

    /// The redundancy target of highest priority (the first of them), if any.
    pub fn get_next_highest_priority(&self) -> (r: Option<Routes>)
        ensures
            self.redundancies@.len() == 0 <==> r is None,
            r matches Some(t) ==> exists|i: int|
                0 <= i < self.redundancies@.len() && #[trigger] self.redundancies@[i] == t
                    && (forall|j: int| 0 <= j < self.redundancies@.len() ==> rank(#[trigger] self.redundancies@[j].prio) <= rank(t.prio))
                    && (forall|j: int| 0 <= j < i ==> rank(#[trigger] self.redundancies@[j].prio) < rank(t.prio)),
    {
        if self.redundancies.len() == 0 {
            return None;
        }
        let mut best: usize = 0;
        let mut i: usize = 1;
        while i < self.redundancies.len()
            invariant
                1 <= i <= self.redundancies@.len(),
                best < i,
                forall|j: int| 0 <= j < i ==> rank(#[trigger] self.redundancies@[j].prio) <= rank(self.redundancies@[best as int].prio),
                forall|j: int| 0 <= j < best ==> rank(#[trigger] self.redundancies@[j].prio) < rank(self.redundancies@[best as int].prio),
            decreases self.redundancies@.len() - i,
        {
            if self.redundancies[i].prio.rank() > self.redundancies[best].prio.rank() {
                best = i;
            }
            i = i + 1;
        }
        Some(self.redundancies[best].clone())
    }
}

impl Routes {
    pub open spec fn new_spec(ip: String, port: u16, prio: Option<Priority>) -> Routes {
        Routes { ip, port, prio: match prio { Some(p) => p, None => Priority::Default } }
    }
}

/// Whether the characters of `t` from position `k` on form a salt of between `low` and `high`
/// ASCII letters and digits.
pub open spec fn salted_at(t: Seq<char>, k: int, low: nat, high: nat) -> bool {
    &&& 0 <= k <= t.len()
    &&& low <= t.len() - k <= high
    &&& forall|i: int| k <= i < t.len() ==> is_alphanumeric(#[trigger] t[i])
}

/// Whether `t` ends in a salt of between `low` and `high` ASCII letters and digits.
pub open spec fn salted(t: Seq<char>, low: nat, high: nat) -> bool {
    exists|k: int| #[trigger] salted_at(t, k, low, high)
}

/// Whether `h` is the hash of a text that ends in a salt of between `low` and `high`
/// ASCII letters and digits.
pub open spec fn vnode_hash(h: usize, low: nat, high: nat) -> bool {
    exists|t: Seq<char>| #[trigger] salted(t, low, high) && h == xxh3_of(t) as usize
}

impl Cache_Net {
    /// Puts the hash `h` on the ring as a virtual node of this node; tells whether it was new.
    pub fn take_vnode(&mut self, h: usize) -> (added: bool)
        ensures
            added == !old(self).vnodes@.contains(h),
            final(self).vnodes@ == old(self).vnodes@.insert(h),
            final(self).cache == old(self).cache,
            final(self).redundancies == old(self).redundancies,
            final(self).is_down == old(self).is_down,
            final(self).orchestrator == old(self).orchestrator,
            final(self).name == old(self).name,
    {
        if self.vnodes.contains(&h) {
            assert(self.vnodes@.insert(h) =~= self.vnodes@);
            false
        } else {
            self.vnodes.insert(h);
            true
        }
    }

    /// Adds `n` new virtual nodes: each is the hash of a text made of a random choice of this
    /// node's state followed by a random salt of between `mn` and `mx` letters and digits
    /// (with `low <= mn < high` and `mn <= mx <= high`); a hash already on the ring is drawn
    /// again. Returns how many were added and every hash drawn, in order: all `n` are added
    /// unless the draws ran out (after `usize::MAX` of them).
    pub fn add_vnodes(&mut self, n: usize, low: usize, high: usize) -> (r: (usize, Vec<usize>))
        requires
            low < high,
            old(self).cache.wf(),
        ensures
            r.0 <= n,
            r.0 <= r.1@.len(),
            r.0 < n ==> r.1@.len() == usize::MAX,
            n == 0 ==> r.1@.len() == 0,
            forall|j: int| 0 <= j < r.1@.len() ==> vnode_hash(#[trigger] r.1@[j], low as nat, high as nat),
            final(self).vnodes@ == old(self).vnodes@.union(r.1@.to_set()),
            exists|fresh: Seq<usize>|
                #![trigger fresh.len()]
                fresh.len() == r.0 && fresh.no_duplicates()
                    && (forall|j: int| 0 <= j < fresh.len() ==> !old(self).vnodes@.contains(#[trigger] fresh[j]))
                    && final(self).vnodes@ == old(self).vnodes@.union(fresh.to_set()),
            final(self).cache == old(self).cache,
            final(self).redundancies == old(self).redundancies,
            final(self).is_down == old(self).is_down,
            final(self).orchestrator == old(self).orchestrator,
            final(self).name == old(self).name,
    {
        let mut i: usize = 0;
        let mut drawn: Vec<usize> = Vec::new();
        let ghost mut fresh: Seq<usize> = Seq::empty();
        while i < n && drawn.len() < usize::MAX
            invariant
                low < high,
                i <= n,
                i <= drawn@.len(),
                n == 0 ==> drawn@.len() == 0,
                self.cache.wf(),
                fresh.len() == i,
                fresh.no_duplicates(),
                forall|j: int| 0 <= j < fresh.len() ==> !old(self).vnodes@.contains(#[trigger] fresh[j]),
                forall|j: int| 0 <= j < drawn@.len() ==> vnode_hash(#[trigger] drawn@[j], low as nat, high as nat),
                self.vnodes@ == old(self).vnodes@.union(fresh.to_set()),
                self.vnodes@ == old(self).vnodes@.union(drawn@.to_set()),
                self.cache == old(self).cache,
                self.redundancies == old(self).redundancies,
                self.is_down == old(self).is_down,
                self.orchestrator == old(self).orchestrator,
                self.name == old(self).name,
            decreases usize::MAX - drawn@.len(),
        {
            let mn = random_in_range(low, high - 1);
            let mx = random_in_range(mn, high);
            let selector = random_in_range(1, 7);
            let mut hashable = String::new();
            if selector & 1 != 0 {
                let items = self.cache.get_items();
                hashable.append(debug_string(&items).as_str());
            }
            if selector & 2 != 0 {
                hashable.append(debug_string(&self.vnodes).as_str());
            }
            if selector & 4 != 0 {
                hashable.append(debug_string(&self.redundancies).as_str());
            }
            let ghost prefix = hashable@;
            let salt = random_salt(mn, mx);
            hashable.append(salt.as_str());
            let h = hash(hashable.as_str());
            proof {
                let t = hashable@;
                assert(t == prefix + salt@);
                assert forall|x: int| prefix.len() <= x < t.len() implies is_alphanumeric(#[trigger] t[x]) by {
                    assert(t[x] == salt@[x - prefix.len()]);
                }
                assert(salted_at(t, prefix.len() as int, low as nat, high as nat));
                assert(salted(t, low as nat, high as nat));
                assert(vnode_hash(h, low as nat, high as nat));
            }
            let ghost before = self.vnodes@;
            let ghost before_drawn = drawn@;
            drawn.push(h);
            proof {
                assert forall|x: usize| drawn@.to_set().contains(x) == before_drawn.to_set().insert(h).contains(x) by {
                    if before_drawn.to_set().contains(x) {
                        let j = choose|j: int| 0 <= j < before_drawn.len() && before_drawn[j] == x;
                        assert(drawn@[j] == x);
                    }
                    if drawn@.to_set().contains(x) {
                        let j = choose|j: int| 0 <= j < drawn@.len() && drawn@[j] == x;
                        if j < before_drawn.len() {
                            assert(before_drawn[j] == x);
                        }
                    }
                    assert(drawn@[before_drawn.len() as int] == h);
                }
                assert(drawn@.to_set() =~= before_drawn.to_set().insert(h));
                assert forall|j: int| 0 <= j < drawn@.len() implies vnode_hash(#[trigger] drawn@[j], low as nat, high as nat) by {
                    if j < before_drawn.len() {
                        assert(drawn@[j] == before_drawn[j]);
                    }
                }
                assert(old(self).vnodes@.union(drawn@.to_set()) =~= old(self).vnodes@.union(before_drawn.to_set()).insert(h));
            }
            let new = self.take_vnode(h);
            if new {
                proof {
                    assert(!fresh.contains(h)) by {
                        if fresh.contains(h) {
                            let j = fresh.index_of(h);
                            assert(fresh.to_set().contains(h));
                        }
                    }
                    assert forall|a: int, b: int| 0 <= a < fresh.push(h).len() && 0 <= b < fresh.push(h).len() && a != b
                        implies fresh.push(h)[a] != fresh.push(h)[b] by {
                        if a < fresh.len() && b < fresh.len() {
                        } else if a < fresh.len() {
                            assert(fresh.contains(fresh[a]));
                        } else if b < fresh.len() {
                            assert(fresh.contains(fresh[b]));
                        }
                    }
                    assert forall|x: usize| fresh.push(h).to_set().contains(x) == fresh.to_set().insert(h).contains(x) by {
                        if fresh.to_set().contains(x) {
                            let j = choose|j: int| 0 <= j < fresh.len() && fresh[j] == x;
                            assert(fresh.push(h)[j] == x);
                        }
                        if fresh.push(h).to_set().contains(x) {
                            let j = choose|j: int| 0 <= j < fresh.push(h).len() && fresh.push(h)[j] == x;
                            if j < fresh.len() {
                                assert(fresh[j] == x);
                            }
                        }
                        assert(fresh.push(h)[fresh.len() as int] == h);
                    }
                    assert(fresh.push(h).to_set() =~= fresh.to_set().insert(h));
                    assert forall|j: int| 0 <= j < fresh.push(h).len() implies !old(self).vnodes@.contains(#[trigger] fresh.push(h)[j]) by {
                        if j < fresh.len() {
                            assert(fresh.push(h)[j] == fresh[j]);
                        }
                    }
                    fresh = fresh.push(h);
                    assert(self.vnodes@ =~= old(self).vnodes@.union(fresh.to_set()));
                }
                i = i + 1;
            } else {
                assert(self.vnodes@ =~= before);
            }
        }
        (i, drawn)
    }

    /// This node's name (empty when it has none) and its virtual nodes in increasing order.
    pub fn get_topo(&self) -> (t: Topo)
        ensures
            t.name@ == (match self.name { Some(n) => n@, None => Seq::<char>::empty() }),
            t.vnodes@.to_set() == self.vnodes@,
            t.vnodes@.no_duplicates(),
            forall|a: int, b: int| 0 <= a < b < t.vnodes@.len() ==> #[trigger] t.vnodes@[a] < #[trigger] t.vnodes@[b],
    {
        let name = match &self.name {
            Some(n) => n.clone(),
            None => String::new(),
        };
        let mut out: Vec<usize> = Vec::new();
        let ghost total = vstd::std_specs::btree::spec_btree_keys_iter(&self.vnodes).remaining().unref();
        proof {
            vstd::std_specs::btree::axiom_spec_btree_keys_iter(&self.vnodes);
        }
        for x in it: self.vnodes.iter()
            invariant
                total == it.seq().unref(),
                out@ == total.take(it.index() as int),
            ensures
                out@ == total,
        {
            out.push(*x);
            proof {
                assert(total.take(it.index() + 1) =~= out@);
            }
        }
        proof {
            crate::ordered::lemma_btree_keys_sorted(&self.vnodes);
            assert forall|y: usize| self.vnodes@.contains(y) implies out@.to_set().contains(y) by {
                let i = choose|i: int| 0 <= i < total.len() && total[i] == y;
                assert(out@[i] == y);
            }
            assert(out@.to_set() =~= self.vnodes@);
            assert forall|a: int, b: int| 0 <= a < out@.len() && 0 <= b < out@.len() && a != b implies out@[a] != out@[b] by {
                if a < b { assert(out@[a] < out@[b]); } else { assert(out@[b] < out@[a]); }
            }
        }
        Topo { name, vnodes: out }
    }
}

} // verus!
