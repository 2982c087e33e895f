use vstd::prelude::*;
use std::collections::BTreeSet;
use std::collections::HashMap;
use crate::text::{decimal, url_spec, http_url, push_str, push_numeral, chars_to_string, trim, split, parse_bounded, str_chars, split_chars, trim_chars, parse_usize, char_vec_views};
use crate::ordered::lemma_btree_keys_sorted;
use crate::slave::endpoints::Topo;
use vstd::std_specs::iter::IteratorSpec;
use std::hash::DefaultHasher;
use vstd::std_specs::hash::DefaultHasherAdditionalSpecFns;

verus! {

/// A peer: its name, address and port.
pub type Peer = (Seq<char>, Seq<char>, u16);

/// The position of the peer named `name`, if there is one.
pub open spec fn peer_index(s: Seq<Peer>, name: Seq<char>) -> Option<int> {
    if exists|i: int| 0 <= i < s.len() && #[trigger] s[i].0 == name {
        Some(choose|i: int| 0 <= i < s.len() && #[trigger] s[i].0 == name)
    } else {
        None
    }
}

/// No two peers share a name.
pub open spec fn peer_names_distinct(s: Seq<Peer>) -> bool {
    forall|i: int, j: int| 0 <= i < s.len() && 0 <= j < s.len() && i != j ==> #[trigger] s[i].0 != #[trigger] s[j].0
}

/// The peers after recording `name` at `ip:port`: it replaces a peer of the same name, or
/// joins at the end.
pub open spec fn set_peer_spec(s: Seq<Peer>, name: Seq<char>, ip: Seq<char>, port: u16) -> Seq<Peer> {
    match peer_index(s, name) {
        Some(i) => s.update(i, (name, ip, port)),
        None => s.push((name, ip, port)),
    }
}

/// The address and port of the peer named `name`.
pub open spec fn peer_route_spec(s: Seq<Peer>, name: Seq<char>) -> Option<(Seq<char>, u16)> {
    match peer_index(s, name) {
        Some(i) => Some((s[i].1, s[i].2)),
        None => None,
    }
}

/// Looking a node up after recording its route gives that route back, and every other node's
/// route as it was; names stay distinct.
pub proof fn law_route_after_set_peer(
    s: Seq<Peer>,
    name: Seq<char>,
    ip: Seq<char>,
    port: u16,
    other: Seq<char>,
)
    requires
        peer_names_distinct(s),
        other != name,
    ensures
        peer_names_distinct(set_peer_spec(s, name, ip, port)),
        peer_route_spec(set_peer_spec(s, name, ip, port), name) == Some((ip, port)),
        peer_route_spec(set_peer_spec(s, name, ip, port), other) == peer_route_spec(s, other),
{
    let t = set_peer_spec(s, name, ip, port);
    let at: int = match peer_index(s, name) {
        Some(i) => i,
        None => s.len() as int,
    };
    assert(t[at] == (name, ip, port));
    assert forall|j: int| 0 <= j < t.len() && j != at implies #[trigger] t[j] == s[j] by {}
    assert forall|a: int, b: int| 0 <= a < t.len() && 0 <= b < t.len() && a != b implies #[trigger] t[a].0
        != #[trigger] t[b].0 by {
        if a != at && b != at {
            assert(t[a] == s[a] && t[b] == s[b]);
        } else if a == at {
            assert(t[b] == s[b]);
            if peer_index(s, name) is None {
                assert(!(exists|i: int| 0 <= i < s.len() && #[trigger] s[i].0 == name));
            }
        } else {
            assert(t[a] == s[a]);
            if peer_index(s, name) is None {
                assert(!(exists|i: int| 0 <= i < s.len() && #[trigger] s[i].0 == name));
            }
        }
    }
    assert(t[at].0 == name);
    let j = choose|j: int| 0 <= j < t.len() && #[trigger] t[j].0 == name;
    assert(t[j].0 == t[at].0);
    assert(j == at);
    match peer_index(s, other) {
        Some(m) => {
            assert(m != at);
            assert(t[m] == s[m]);
            let q = choose|q: int| 0 <= q < t.len() && #[trigger] t[q].0 == other;
            assert(q != at);
            assert(t[q] == s[q]);
        },
        None => {
            assert forall|q: int| 0 <= q < t.len() implies #[trigger] t[q].0 != other by {
                if q != at {
                    assert(t[q] == s[q]);
                }
            }
        },
    }
}

/// Whether `x` is the virtual node of `ring` that owns hash `h`: the least one at or above
/// `h`, or, when there is none, the least one of all.
pub open spec fn is_owner(ring: Set<usize>, h: usize, x: usize) -> bool {
    &&& ring.contains(x)
    &&& if exists|y: usize| #[trigger] ring.contains(y) && y >= h {
        x >= h && forall|y: usize| #[trigger] ring.contains(y) && y >= h ==> x <= y
    } else {
        forall|y: usize| #[trigger] ring.contains(y) ==> x <= y
    }
}

/// Why a key could not be routed.
#[derive(Clone, Copy, Debug, PartialEq, Eq, Structural)]
pub enum RouteError {
    /// The ring has no virtual node.
    EmptyRing,
    /// The owning virtual node belongs to no known node.
    UnknownVnode,
    /// The owning node has no recorded route.
    NoRoute,
}

/// The orchestrator: the hash ring of virtual nodes, which node owns each, and where each node
/// is reached.
pub struct Orchestrator {
    pub ring: BTreeSet<usize>,
    pub peers: Vec<(String, String, u16)>,
    pub vnode_map: HashMap<usize, String>,
    pub port: u16,
    pub numbering: usize,
}

impl Orchestrator {
    /// The peers: name, address and port.
    pub closed spec fn peers(&self) -> Seq<Peer> {
        self.peers@.map_values(|p: (String, String, u16)| (p.0@, p.1@, p.2))
    }

    /// No two peers share a name.
    pub open spec fn wf(&self) -> bool {
        peer_names_distinct(self.peers())
    }

    /// An orchestrator on `port` (8080 when `None`) that knows no node.
    pub fn new(port: Option<u16>) -> (o: Self)
        ensures
            o.wf(),
            o.ring@ == Set::<usize>::empty(),
            o.peers() == Seq::<Peer>::empty(),
            o.vnode_map@ == Map::<usize, String>::empty(),
            o.port == (match port { Some(p) => p, None => 8080 }),
            o.numbering == 0,
    {
        let o = Orchestrator {
            ring: BTreeSet::new(),
            peers: Vec::new(),
            vnode_map: HashMap::new(),
            port: match port {
                Some(p) => p,
                None => 8080,
            },
            numbering: 0,
        };
        assert(o.peers() =~= Seq::<Peer>::empty());
        o
    }

    /// A fresh node name, `Node{n}` with the next number `n`.
    pub fn get_new_name(&mut self) -> (name: String)
        requires
            old(self).numbering < usize::MAX,
        ensures
            name@ == "Node"@ + decimal(old(self).numbering as nat),
            final(self).numbering == old(self).numbering + 1,
            final(self).ring == old(self).ring,
            final(self).peers() == old(self).peers(),
            final(self).vnode_map == old(self).vnode_map,
            final(self).port == old(self).port,
            final(self).wf() == old(self).wf(),
    {
        let mut out: Vec<char> = Vec::new();
        push_str(&mut out, "Node");
        push_numeral(&mut out, self.numbering as u64, 10);
        self.numbering = self.numbering + 1;
        chars_to_string(out.as_slice())
    }

    /// The position of the peer named `name`.
    fn find_peer(&self, name: &String) -> (r: Option<usize>)
        requires
            self.wf(),
        ensures
            match r {
                Some(i) => i < self.peers().len() && peer_index(self.peers(), name@) == Some(i as int),
                None => peer_index(self.peers(), name@) is None,
            },
    {
        let mut i: usize = 0;
        while i < self.peers.len()
            invariant
                self.wf(),
                i <= self.peers@.len(),
                forall|j: int| 0 <= j < i ==> #[trigger] self.peers()[j].0 != name@,
            decreases self.peers@.len() - i,
        {
            if self.peers[i].0 == *name {
                proof {
                    assert(self.peers()[i as int].0 == name@);
                    let j = choose|j: int| 0 <= j < self.peers().len() && #[trigger] self.peers()[j].0 == name@;
                    assert(j == i);
                }
                return Some(i);
            }
            i = i + 1;
        }
        None
    }

    /// Records that the node `name` is reached at `ip:port`.
    pub fn set_peer(&mut self, name: String, ip: String, port: u16)
        requires
            old(self).wf(),
        ensures
            final(self).wf(),
            final(self).peers() == set_peer_spec(old(self).peers(), name@, ip@, port),
            final(self).ring == old(self).ring,
            final(self).vnode_map == old(self).vnode_map,
            final(self).port == old(self).port,
            final(self).numbering == old(self).numbering,
    {
        match self.find_peer(&name) {
            Some(i) => {
                self.peers.set(i, (name, ip, port));
                proof {
                    assert(self.peers() =~= set_peer_spec(old(self).peers(), name@, ip@, port));
                }
            },
            None => {
                self.peers.push((name, ip, port));
                proof {
                    assert(self.peers() =~= set_peer_spec(old(self).peers(), name@, ip@, port));
                }
            },
        }
    }

    /// The address and port of the node named `name`.
    pub fn peer_route(&self, name: &String) -> (r: Option<(String, u16)>)
        requires
            self.wf(),
        ensures
            match peer_route_spec(self.peers(), name@) {
                Some((ip, port)) => r matches Some(x) && x.0@ == ip && x.1 == port,
                None => r is None,
            },
    {
        match self.find_peer(name) {
            Some(i) => Some((self.peers[i].1.clone(), self.peers[i].2)),
            None => None,
        }
    }

    /// The address `http://{ip}:{port}`.
    pub fn build_url(ip: &str, port: u16) -> (url: String)
        ensures
            url@ == url_spec(ip@, port as nat),
    {
        http_url(ip, port)
    }
}

impl Orchestrator {
    /// The virtual node of the ring that owns hash `h`.
    pub fn ring_owner(&self, h: usize) -> (r: Option<usize>)
        ensures
            match r {
                Some(x) => is_owner(self.ring@, h, x),
                None => self.ring@ == Set::<usize>::empty(),
            },
    {
        let mut first: Option<usize> = None;
        let mut found: Option<usize> = None;
        let ghost total = vstd::std_specs::btree::spec_btree_keys_iter(&self.ring).remaining().unref();
        proof {
            vstd::std_specs::btree::axiom_spec_btree_keys_iter(&self.ring);
        }
        for x in it: self.ring.iter()
            invariant
                total == it.seq().unref(),
                first == (if it.index() > 0 { Some(total[0]) } else { None::<usize> }),
                match found {
                    Some(f) => exists|i: int| 0 <= i < it.index() && total[i] == f && f >= h
                        && forall|j: int| 0 <= j < i ==> #[trigger] total[j] < h,
                    None => forall|j: int| 0 <= j < it.index() ==> #[trigger] total[j] < h,
                },
            ensures
                first == (if total.len() > 0 { Some(total[0]) } else { None::<usize> }),
                match found {
                    Some(f) => exists|i: int| 0 <= i < total.len() && total[i] == f && f >= h
                        && forall|j: int| 0 <= j < i ==> #[trigger] total[j] < h,
                    None => forall|j: int| 0 <= j < total.len() ==> #[trigger] total[j] < h,
                },
        {
            let v = *x;
            if first.is_none() {
                first = Some(v);
            }
            if found.is_none() && v >= h {
                found = Some(v);
            }
        }
        proof {
            lemma_btree_keys_sorted(&self.ring);
        }
        match found {
            Some(f) => {
                proof {
                    let i = choose|i: int| 0 <= i < total.len() && total[i] == f && f >= h
                        && forall|j: int| 0 <= j < i ==> #[trigger] total[j] < h;
                    assert(self.ring@.contains(f));
                    assert forall|y: usize| #[trigger] self.ring@.contains(y) && y >= h implies f <= y by {
                        let k = choose|k: int| 0 <= k < total.len() && total[k] == y;
                        if k < i {
                            assert(total[k] < h);
                        } else if k > i {
                            assert(total[i] < total[k]);
                        }
                    }
                    assert(exists|y: usize| #[trigger] self.ring@.contains(y) && y >= h);
                }
                Some(f)
            },
            None => {
                assert(total.len() == 0 ==> self.ring@ =~= Set::<usize>::empty());
                first
            },
        }
    }
}

/// The writes that hashing the string `s` makes to a hasher.
pub uninterp spec fn str_hash_writes(s: Seq<char>) -> Seq<Seq<u8>>;

/// Feeds the string `k` to `hasher`.
///
/// Trusted: calls `<str as Hash>::hash`; the contract claims that this adds to the hasher's
/// record of writes a sequence of writes, named `str_hash_writes(k@)`, that depends on `k`
/// alone.
#[verifier::external_body]
fn hash_str(k: &str, hasher: &mut DefaultHasher)
    ensures
        final(hasher)@ == old(hasher)@ + str_hash_writes(k@),
{
    std::hash::Hash::hash(k, hasher)
}

/// The 64-bit hash that a fresh `DefaultHasher` gives to the string `s`.
pub open spec fn default_hash_of(s: Seq<char>) -> u64 {
    DefaultHasher::spec_finish(Seq::<Seq<u8>>::empty() + str_hash_writes(s))
}

/// Hashes `k` with a fresh default hasher; every `DefaultHasher::new()` starts alike, so the
/// result depends on `k` alone.
fn default_hash(k: &str) -> (h: u64)
    ensures
        h == default_hash_of(k@),
{
    let mut hasher = DefaultHasher::new();
    hash_str(k, &mut hasher);
    std::hash::Hasher::finish(&hasher)
}

/// The route of the node owning hash `h` on `ring`, given which node owns each virtual node
/// and the peers' routes.
pub open spec fn route_spec(
    ring: Set<usize>,
    owners: Map<usize, String>,
    peers: Seq<Peer>,
    h: usize,
) -> Result<(Seq<char>, u16), RouteError> {
    if ring.is_empty() {
        Err(RouteError::EmptyRing)
    } else {
        let x = choose|x: usize| is_owner(ring, h, x);
        if !owners.contains_key(x) {
            Err(RouteError::UnknownVnode)
        } else {
            match peer_route_spec(peers, owners[x]@) {
                Some(r) => Ok(r),
                None => Err(RouteError::NoRoute),
            }
        }
    }
}

/// Only one virtual node owns a hash.
pub proof fn lemma_owner_unique(ring: Set<usize>, h: usize, x: usize, y: usize)
    requires
        is_owner(ring, h, x),
        is_owner(ring, h, y),
    ensures
        x == y,
{
}

impl Orchestrator {
    /// The route of the node that owns hash `h`.
    pub fn route_for_hash(&self, h: usize) -> (r: Result<(String, u16), RouteError>)
        requires
            self.wf(),
        ensures
            match route_spec(self.ring@, self.vnode_map@, self.peers(), h) {
                Ok((ip, port)) => r matches Ok(x) && x.0@ == ip && x.1 == port,
                Err(e) => r == Err::<(String, u16), RouteError>(e),
            },
    {
        match self.ring_owner(h) {
            None => {
                assert(self.ring@.is_empty());
                Err(RouteError::EmptyRing)
            },
            Some(x) => {
                proof {
                    let c = choose|c: usize| is_owner(self.ring@, h, c);
                    lemma_owner_unique(self.ring@, h, x, c);
                    assert(!self.ring@.is_empty()) by {
                        assert(self.ring@.contains(x));
                    }
                }
                match self.vnode_map.get(&x) {
                    None => Err(RouteError::UnknownVnode),
                    Some(name) => match self.peer_route(name) {
                        Some(route) => Ok(route),
                        None => Err(RouteError::NoRoute),
                    },
                }
            },
        }
    }

    /// The route of the node that owns key `k`: the key's default hash is placed on the ring,
    /// which must hold a virtual node.
    pub fn get_vnode(&self, k: &str) -> (r: Result<(String, u16), RouteError>)
        requires
            self.wf(),
            !self.ring@.is_empty(),
        ensures
            match route_spec(self.ring@, self.vnode_map@, self.peers(), default_hash_of(k@) as usize) {
                Ok((ip, port)) => r matches Ok(x) && x.0@ == ip && x.1 == port,
                Err(e) => r == Err::<(String, u16), RouteError>(e),
            },
    {
        let key_hash = default_hash(k) as usize;
        self.route_for_hash(key_hash)
    }
}

/// The owners after recording `name` as the owner of each of `vnodes`.
pub open spec fn owners_after(old_owners: Map<usize, String>, vnodes: Seq<usize>, name: String) -> Map<
    usize,
    String,
> {
    Map::new(
        |x: usize| old_owners.contains_key(x) || vnodes.contains(x),
        |x: usize| if vnodes.contains(x) { name } else { old_owners[x] },
    )
}

/// The virtual nodes that `owners` gives to the node named `name`.
pub open spec fn vnodes_owned_by(owners: Map<usize, String>, name: Seq<char>) -> Set<usize> {
    Set::new(|x: usize| owners.contains_key(x) && owners[x]@ == name)
}

impl Orchestrator {
    /// Records `topo.name` as the owner of each of `topo.vnodes`, without touching the ring.
    pub fn record_vnode_owners(&mut self, topo: &Topo)
        ensures
            final(self).vnode_map@ == owners_after(old(self).vnode_map@, topo.vnodes@, topo.name),
            final(self).ring == old(self).ring,
            final(self).peers == old(self).peers,
            final(self).peers() == old(self).peers(),
            final(self).wf() == old(self).wf(),
            final(self).port == old(self).port,
            final(self).numbering == old(self).numbering,
    {
        let n = topo.vnodes.len();
        let mut i: usize = 0;
        while i < n
            invariant
                i <= n,
                n == topo.vnodes@.len(),
                self.vnode_map@ == owners_after(old(self).vnode_map@, topo.vnodes@.take(i as int), topo.name),
                self.ring == old(self).ring,
                self.peers == old(self).peers,
                self.port == old(self).port,
                self.numbering == old(self).numbering,
            decreases n - i,
        {
            let x = topo.vnodes[i];
            self.vnode_map.insert(x, topo.name.clone());
            proof {
                let prev = topo.vnodes@.take(i as int);
                let next = topo.vnodes@.take(i + 1);
                assert(next =~= prev.push(x));
                assert forall|y: usize| next.contains(y) == (prev.contains(y) || y == x) by {
                    if prev.contains(y) {
                        let j = choose|j: int| 0 <= j < prev.len() && prev[j] == y;
                        assert(next[j] == y);
                    }
                    if y == x {
                        assert(next[i as int] == y);
                    }
                }
                assert(self.vnode_map@ =~= owners_after(old(self).vnode_map@, next, topo.name));
            }
            i = i + 1;
        }
        assert(topo.vnodes@.take(n as int) =~= topo.vnodes@);
    }

    /// Takes on the node `topo.name`: each of its virtual nodes joins the ring, owned by it.
    pub fn handle_topo(&mut self, topo: Topo)
        ensures
            final(self).vnode_map@ == owners_after(old(self).vnode_map@, topo.vnodes@, topo.name),
            final(self).ring@ == old(self).ring@.union(topo.vnodes@.to_set()),
            final(self).peers == old(self).peers,
            final(self).peers() == old(self).peers(),
            final(self).wf() == old(self).wf(),
            final(self).port == old(self).port,
            final(self).numbering == old(self).numbering,
    {
        self.record_vnode_owners(&topo);
        let n = topo.vnodes.len();
        let mut i: usize = 0;
        while i < n
            invariant
                i <= n,
                n == topo.vnodes@.len(),
                self.ring@ == old(self).ring@.union(topo.vnodes@.take(i as int).to_set()),
                self.vnode_map@ == owners_after(old(self).vnode_map@, topo.vnodes@, topo.name),
                self.peers == old(self).peers,
                self.port == old(self).port,
                self.numbering == old(self).numbering,
            decreases n - i,
        {
            let x = topo.vnodes[i];
            self.ring.insert(x);
            proof {
                let prev = topo.vnodes@.take(i as int);
                let next = topo.vnodes@.take(i + 1);
                assert(next =~= prev.push(x));
                assert forall|y: usize| next.to_set().contains(y) == (prev.to_set().contains(y) || y == x) by {
                    if prev.contains(y) {
                        let j = choose|j: int| 0 <= j < prev.len() && prev[j] == y;
                        assert(next[j] == y);
                    }
                    if y == x {
                        assert(next[i as int] == y);
                    }
                    if next.contains(y) {
                        let j = choose|j: int| 0 <= j < next.len() && next[j] == y;
                        if j < i {
                            assert(prev[j] == y);
                        }
                    }
                }
                assert(self.ring@ =~= old(self).ring@.union(next.to_set()));
            }
            i = i + 1;
        }
        assert(topo.vnodes@.take(n as int) =~= topo.vnodes@);
    }
}

impl Orchestrator {
    /// The virtual nodes owned by the node named `name`, each once, in no particular order.
    pub fn vnodes_of(&self, name: &String) -> (r: Vec<usize>)
        ensures
            r@.no_duplicates(),
            r@.to_set() == vnodes_owned_by(self.vnode_map@, name@),
    {
        let ghost total = vstd::std_specs::hash::spec_hash_map_iter(&self.vnode_map).remaining();
        proof {
            vstd::std_specs::hash::axiom_spec_hash_map_iter(&self.vnode_map);
        }
        let mut out: Vec<usize> = Vec::new();
        for kv in it: self.vnode_map.iter()
            invariant
                total == it.seq(),
                total.no_duplicates(),
                forall|i: int| 0 <= i < total.len() ==> self.vnode_map@.contains_key(*total[i].0)
                    && self.vnode_map@[*total[i].0] == *total[i].1,
                out@.no_duplicates(),
                forall|i: int| it.index() <= i < total.len() ==> !out@.contains(*total[i].0),
                forall|j: int| 0 <= j < out@.len() ==> exists|i: int|
                    0 <= i < total.len() && *total[i].0 == #[trigger] out@[j] && total[i].1@ == name@,
                forall|i: int| 0 <= i < it.index() && total[i].1@ == name@ ==> out@.contains(*total[i].0),
            ensures
                forall|i: int| 0 <= i < total.len() && total[i].1@ == name@ ==> out@.contains(*total[i].0),
        {
            let ghost idx = it.index();
            assert(total[idx] == kv);
            let (k, v) = kv;
            if *v == *name {
                proof {
                    assert(total[idx] == (k, v));
                    assert(!out@.contains(*k));
                }
                let ghost old_out = out@;
                out.push(*k);
                proof {
                    assert forall|j: int| 0 <= j < out@.len() implies exists|i: int|
                        0 <= i < total.len() && *total[i].0 == #[trigger] out@[j] && total[i].1@ == name@ by {
                        if j == out@.len() - 1 {
                            assert(*total[idx].0 == out@[j]);
                        } else {
                            let i = choose|i: int| 0 <= i < total.len() && *total[i].0 == old_out[j] && total[i].1@ == name@;
                            assert(out@[j] == old_out[j]);
                        }
                    }
                    assert forall|i: int| idx + 1 <= i < total.len() implies !out@.contains(*total[i].0) by {
                        if *total[i].0 == *k {
                            assert(self.vnode_map@[*k] == *total[i].1);
                            assert(total[i] == total[idx]);
                        }
                        if out@.contains(*total[i].0) {
                            let w = choose|w: int| 0 <= w < out@.len() && out@[w] == *total[i].0;
                            if w < old_out.len() {
                                assert(old_out[w] == out@[w]);
                            }
                        }
                    }
                    assert forall|i: int| 0 <= i < idx + 1 && total[i].1@ == name@ implies out@.contains(*total[i].0) by {
                        if i == idx {
                            assert(out@[out@.len() - 1] == *k);
                        } else {
                            let w = choose|w: int| 0 <= w < old_out.len() && old_out[w] == *total[i].0;
                            assert(out@[w] == old_out[w]);
                        }
                    }
                }
            } else {
                assert(total[idx] == (k, v));
                assert(total[idx].1@ != name@);
            }
        }
        proof {
            assert forall|x: usize| out@.to_set().contains(x) == vnodes_owned_by(self.vnode_map@, name@).contains(x) by {
                if out@.contains(x) {
                    let j = choose|j: int| 0 <= j < out@.len() && out@[j] == x;
                    let i = choose|i: int| 0 <= i < total.len() && *total[i].0 == out@[j] && total[i].1@ == name@;
                }
                if vnodes_owned_by(self.vnode_map@, name@).contains(x) {
                    let v = self.vnode_map@[x];
                    assert(total.contains((&x, &v)));
                    let i = choose|i: int| 0 <= i < total.len() && total[i] == (&x, &v);
                }
            }
            assert(out@.to_set() =~= vnodes_owned_by(self.vnode_map@, name@));
        }
        out
    }
}

/// Whether some virtual node is owned by a node named `v`.
pub open spec fn owns_some(owners: Map<usize, String>, v: Seq<char>) -> bool {
    exists|x: usize| #[trigger] owners.contains_key(x) && owners[x]@ == v
}

/// Whether some string of `s` has the view `v`.
pub open spec fn has_view(s: Seq<String>, v: Seq<char>) -> bool {
    exists|i: int| 0 <= i < s.len() && s[i]@ == v
}

impl Orchestrator {
    /// Hands the node named `name` over to the route `ip:port`: its virtual nodes leave the
    /// ring and the owner map, and its route is recorded. Returns the virtual nodes removed.
    pub fn handover(&mut self, name: String, ip: String, port: u16) -> (ids: Vec<usize>)
        requires
            old(self).wf(),
        ensures
            final(self).wf(),
            ids@.no_duplicates(),
            ids@.to_set() == vnodes_owned_by(old(self).vnode_map@, name@),
            final(self).ring@ == old(self).ring@.difference(vnodes_owned_by(old(self).vnode_map@, name@)),
            final(self).vnode_map@ == old(self).vnode_map@.remove_keys(vnodes_owned_by(old(self).vnode_map@, name@)),
            final(self).peers() == set_peer_spec(old(self).peers(), name@, ip@, port),
            final(self).port == old(self).port,
            final(self).numbering == old(self).numbering,
    {
        let ids = self.vnodes_of(&name);
        let n = ids.len();
        let mut i: usize = 0;
        while i < n
            invariant
                i <= n,
                n == ids@.len(),
                self.wf(),
                self.peers == old(self).peers,
                self.port == old(self).port,
                self.numbering == old(self).numbering,
                self.ring@ == old(self).ring@.difference(ids@.take(i as int).to_set()),
                self.vnode_map@ == old(self).vnode_map@.remove_keys(ids@.take(i as int).to_set()),
            decreases n - i,
        {
            let x = ids[i];
            self.ring.remove(&x);
            self.vnode_map.remove(&x);
            proof {
                let prev = ids@.take(i as int);
                let next = ids@.take(i + 1);
                assert forall|y: usize| next.to_set().contains(y) == (prev.to_set().contains(y) || y == x) by {
                    if prev.contains(y) {
                        let j = choose|j: int| 0 <= j < prev.len() && prev[j] == y;
                        assert(next[j] == y);
                    }
                    if y == x {
                        assert(next[i as int] == y);
                    }
                    if next.contains(y) {
                        let j = choose|j: int| 0 <= j < next.len() && next[j] == y;
                        if j < i {
                            assert(prev[j] == y);
                        }
                    }
                }
                assert(self.ring@ =~= old(self).ring@.difference(next.to_set()));
                assert(self.vnode_map@ =~= old(self).vnode_map@.remove_keys(next.to_set()));
            }
            i = i + 1;
        }
        assert(ids@.take(n as int) =~= ids@);
        self.set_peer(name, ip, port);
        ids
    }

    /// The names of the nodes that own virtual nodes, each once, in no particular order.
    pub fn node_names(&self) -> (r: Vec<String>)
        ensures
            forall|i: int, j: int| 0 <= i < j < r@.len() ==> #[trigger] r@[i]@ != #[trigger] r@[j]@,
            forall|i: int| 0 <= i < r@.len() ==> owns_some(self.vnode_map@, #[trigger] r@[i]@),
            forall|x: usize| #[trigger] self.vnode_map@.contains_key(x) ==> exists|i: int|
                0 <= i < r@.len() && r@[i]@ == self.vnode_map@[x]@,
    {
        let ghost total = vstd::std_specs::hash::spec_hash_map_iter(&self.vnode_map).remaining();
        proof {
            vstd::std_specs::hash::axiom_spec_hash_map_iter(&self.vnode_map);
        }
        let mut out: Vec<String> = Vec::new();
        for kv in it: self.vnode_map.iter()
            invariant
                total == it.seq(),
                forall|i: int| 0 <= i < total.len() ==> self.vnode_map@.contains_key(*total[i].0)
                    && self.vnode_map@[*total[i].0] == *total[i].1,
                forall|x: usize| #[trigger] self.vnode_map@.contains_key(x) ==> total.contains((&x, &self.vnode_map@[x])),
                forall|i: int, j: int| 0 <= i < j < out@.len() ==> #[trigger] out@[i]@ != #[trigger] out@[j]@,
                forall|i: int| 0 <= i < out@.len() ==> owns_some(self.vnode_map@, #[trigger] out@[i]@),
                forall|k: int| 0 <= k < it.index() ==> has_view(out@, #[trigger] total[k].1@),
            ensures
                forall|k: int| 0 <= k < total.len() ==> has_view(out@, #[trigger] total[k].1@),
                forall|i: int| 0 <= i < out@.len() ==> owns_some(self.vnode_map@, #[trigger] out@[i]@),
        {
            let ghost idx = it.index();
            assert(total[idx] == kv);
            let (k, v) = kv;
            let mut seen = false;
            let mut m: usize = 0;
            while m < out.len()
                invariant
                    m <= out@.len(),
                    seen ==> exists|i: int| 0 <= i < out@.len() && out@[i]@ == v@,
                    !seen ==> forall|i: int| 0 <= i < m ==> out@[i]@ != v@,
                decreases out@.len() - m,
            {
                if out[m] == *v {
                    seen = true;
                }
                m = m + 1;
            }
            if !seen {
                let ghost old_out = out@;
                out.push(v.clone());
                proof {
                    assert(self.vnode_map@.contains_key(*k));
                    assert forall|i: int| 0 <= i < out@.len() implies owns_some(self.vnode_map@, #[trigger] out@[i]@) by {
                        if i == out@.len() - 1 {
                            assert(self.vnode_map@[*k]@ == out@[i]@);
                        } else {
                            assert(out@[i] == old_out[i]);
                        }
                    }
                    assert forall|q: int| 0 <= q < idx + 1 implies has_view(out@, #[trigger] total[q].1@) by {
                        if q == idx {
                            assert(out@[out@.len() - 1]@ == total[q].1@);
                        } else {
                            assert(has_view(old_out, total[q].1@));
                            let i = choose|i: int| 0 <= i < old_out.len() && old_out[i]@ == total[q].1@;
                            assert(out@[i] == old_out[i]);
                        }
                    }
                }
            }
        }
        proof {
            assert forall|x: usize| #[trigger] self.vnode_map@.contains_key(x) implies exists|i: int|
                0 <= i < out@.len() && out@[i]@ == self.vnode_map@[x]@ by {
                let q = choose|q: int| 0 <= q < total.len() && total[q] == (&x, &self.vnode_map@[x]);
                assert(has_view(out@, total[q].1@));
                let i = choose|i: int| 0 <= i < out@.len() && out@[i]@ == total[q].1@;
            }
        }
        out
    }
}

/// Why a peers file was not taken.
#[derive(Clone, Copy, Debug, PartialEq, Eq, Structural)]
pub enum PeerError {
    /// A port is not a 16-bit unsigned number.
    BadPort,
}

/// The name `Node{n}`.
pub open spec fn node_name(n: nat) -> Seq<char> {
    "Node"@ + decimal(n)
}

/// The peers and the next node number after one line of a peers file: `ip port` records a
/// peer under the next node name, `name ip port` records a named peer, and any other line is
/// skipped. Fields are separated by single spaces, around white space.
pub open spec fn load_line(peers: Seq<Peer>, numbering: usize, line: Seq<char>) -> Result<(Seq<Peer>, usize), PeerError> {
    let parts = split(trim(line), ' ');
    if parts.len() == 2 {
        match parse_bounded(parts[1], u16::MAX as nat) {
            Some(p) => Ok((set_peer_spec(peers, node_name(numbering as nat), parts[0], p as u16), (numbering + 1) as usize)),
            None => Err(PeerError::BadPort),
        }
    } else if parts.len() == 3 {
        match parse_bounded(parts[2], u16::MAX as nat) {
            Some(p) => Ok((set_peer_spec(peers, parts[0], parts[1], p as u16), numbering)),
            None => Err(PeerError::BadPort),
        }
    } else {
        Ok((peers, numbering))
    }
}

/// The peers and next node number after the lines of a peers file, in order.
pub open spec fn load_lines(peers: Seq<Peer>, numbering: usize, lines: Seq<Seq<char>>) -> Result<(Seq<Peer>, usize), PeerError>
    decreases lines.len(),
{
    if lines.len() == 0 {
        Ok((peers, numbering))
    } else {
        match load_lines(peers, numbering, lines.drop_last()) {
            Ok((p2, n2)) => load_line(p2, n2, lines.last()),
            Err(e) => Err(e),
        }
    }
}

proof fn lemma_load_lines_numbering(peers: Seq<Peer>, numbering: usize, lines: Seq<Seq<char>>)
    requires
        numbering + lines.len() <= usize::MAX,
    ensures
        load_lines(peers, numbering, lines) matches Ok((_, n)) ==> n <= numbering + lines.len(),
    decreases lines.len(),
{
    if lines.len() > 0 {
        lemma_load_lines_numbering(peers, numbering, lines.drop_last());
    }
}

proof fn lemma_load_lines_err(peers: Seq<Peer>, numbering: usize, lines: Seq<Seq<char>>, i: int, k: int, e: PeerError)
    requires
        0 <= i <= k <= lines.len(),
        load_lines(peers, numbering, lines.take(i)) == Err::<(Seq<Peer>, usize), PeerError>(e),
    ensures
        load_lines(peers, numbering, lines.take(k)) == Err::<(Seq<Peer>, usize), PeerError>(e),
    decreases k - i,
{
    if k > i {
        lemma_load_lines_err(peers, numbering, lines, i, k - 1, e);
        assert(lines.take(k).drop_last() =~= lines.take(k - 1));
    }
}

impl Orchestrator {
    /// Records one line of a peers file.
    fn load_line(&mut self, line: &[char]) -> (r: Result<(), PeerError>)
        requires
            old(self).wf(),
            old(self).numbering < usize::MAX,
        ensures
            final(self).wf(),
            final(self).ring == old(self).ring,
            final(self).vnode_map == old(self).vnode_map,
            final(self).port == old(self).port,
            match load_line(old(self).peers(), old(self).numbering, line@) {
                Ok((p, n)) => r is Ok && final(self).peers() == p && final(self).numbering == n,
                Err(e) => r == Err::<(), PeerError>(e),
            },
    {
        let trimmed = trim_chars(line);
        let parts = split_chars(trimmed.as_slice(), ' ');
        proof {
            assert(char_vec_views(parts@).len() == parts@.len());
        }
        if parts.len() == 2 {
            assert(char_vec_views(parts@)[1] == parts@[1]@);
            match parse_usize(parts[1].as_slice()) {
                Some(p) => {
                    if p <= 65535 {
                        let name = self.get_new_name();
                        let ip = chars_to_string(parts[0].as_slice());
                        assert(char_vec_views(parts@)[0] == parts@[0]@);
                        self.set_peer(name, ip, p as u16);
                        Ok(())
                    } else {
                        Err(PeerError::BadPort)
                    }
                },
                None => Err(PeerError::BadPort),
            }
        } else if parts.len() == 3 {
            assert(char_vec_views(parts@)[2] == parts@[2]@);
            match parse_usize(parts[2].as_slice()) {
                Some(p) => {
                    if p <= 65535 {
                        let name = chars_to_string(parts[0].as_slice());
                        let ip = chars_to_string(parts[1].as_slice());
                        assert(char_vec_views(parts@)[0] == parts@[0]@);
                        assert(char_vec_views(parts@)[1] == parts@[1]@);
                        self.set_peer(name, ip, p as u16);
                        Ok(())
                    } else {
                        Err(PeerError::BadPort)
                    }
                },
                None => Err(PeerError::BadPort),
            }
        } else {
            Ok(())
        }
    }

    /// Records the peers listed in the text of a peers file, one per line; fails on the first
    /// line whose port is not a 16-bit unsigned number.
    pub fn load_peers(&mut self, content: &str) -> (r: Result<(), PeerError>)
        requires
            old(self).wf(),
            old(self).numbering + split(content@, '\n').len() < usize::MAX,
        ensures
            final(self).wf(),
            final(self).ring == old(self).ring,
            final(self).vnode_map == old(self).vnode_map,
            final(self).port == old(self).port,
            match load_lines(old(self).peers(), old(self).numbering, split(content@, '\n')) {
                Ok((p, n)) => r is Ok && final(self).peers() == p && final(self).numbering == n,
                Err(e) => r == Err::<(), PeerError>(e),
            },
    {
        let chars = str_chars(content);
        let lines = split_chars(chars.as_slice(), '\n');
        let ghost all = split(content@, '\n');
        let n = lines.len();
        let mut i: usize = 0;
        while i < n
            invariant
                i <= n,
                n == lines@.len(),
                all == char_vec_views(lines@),
                all == split(content@, '\n'),
                self.wf(),
                self.ring == old(self).ring,
                self.vnode_map == old(self).vnode_map,
                self.port == old(self).port,
                old(self).numbering + all.len() < usize::MAX,
                load_lines(old(self).peers(), old(self).numbering, all.take(i as int)) == Ok::<(Seq<Peer>, usize), PeerError>(
                    (self.peers(), self.numbering),
                ),
            decreases n - i,
        {
            proof {
                lemma_load_lines_numbering(old(self).peers(), old(self).numbering, all.take(i as int));
                assert(all.take(i + 1).drop_last() =~= all.take(i as int));
                assert(all.take(i + 1).last() == lines@[i as int]@);
            }
            let ghost pre_peers = self.peers();
            let ghost pre_n = self.numbering;
            match self.load_line(lines[i].as_slice()) {
                Ok(()) => {},
                Err(e) => {
                    proof {
                        assert(load_line(pre_peers, pre_n, all.take(i + 1).last()) == Err::<(Seq<Peer>, usize), PeerError>(e));
                        assert(load_lines(old(self).peers(), old(self).numbering, all.take(i + 1)) == Err::<(Seq<Peer>, usize), PeerError>(e));
                        lemma_load_lines_err(old(self).peers(), old(self).numbering, all, i + 1, n as int, e);
                        assert(all.take(n as int) =~= all);
                    }
                    return Err(e);
                },
            }
            i = i + 1;
        }
        assert(all.take(n as int) =~= all);
        Ok(())
    }
}

/// Consistent hashing: when a virtual node `x` joins the ring, every hash keeps its owner
/// unless `x` becomes its owner.
pub proof fn law_join_moves_keys_only_to_new_vnode(ring: Set<usize>, x: usize, h: usize, a: usize, b: usize)
    requires
        is_owner(ring, h, a),
        is_owner(ring.insert(x), h, b),
    ensures
        b == a || b == x,
{
    let r2 = ring.insert(x);
    if b != x {
        assert(ring.contains(b));
        if exists|y: usize| #[trigger] ring.contains(y) && y >= h {
            let y = choose|y: usize| #[trigger] ring.contains(y) && y >= h;
            assert(r2.contains(y));
            assert(a >= h && a <= b);
            assert(r2.contains(a));
            assert(b <= a);
        } else {
            if exists|y: usize| #[trigger] r2.contains(y) && y >= h {
                assert(b >= h);
                assert(false);
            } else {
                assert(r2.contains(a));
                assert(b <= a);
                assert(a <= b);
            }
        }
    }
}

/// Consistent hashing: when a virtual node `x` leaves the ring, only the hashes it owned
/// change owner.
pub proof fn law_leave_moves_only_its_keys(ring: Set<usize>, x: usize, h: usize, a: usize, b: usize)
    requires
        is_owner(ring, h, a),
        a != x,
        is_owner(ring.remove(x), h, b),
    ensures
        b == a,
{
    let r2 = ring.remove(x);
    assert(r2.contains(a));
    assert(ring.contains(b));
    if exists|y: usize| #[trigger] ring.contains(y) && y >= h {
        if a >= h {
            assert(r2.contains(a) && a >= h);
            assert(b >= h);
            assert(a <= b);
            assert(b <= a);
        }
    } else {
        assert(!(exists|y: usize| #[trigger] r2.contains(y) && y >= h)) by {
            if exists|y: usize| #[trigger] r2.contains(y) && y >= h {
                let y = choose|y: usize| #[trigger] r2.contains(y) && y >= h;
                assert(ring.contains(y));
            }
        }
        assert(a <= b);
        assert(b <= a);
    }
}

} // verus!
