use vstd::prelude::*;

verus! {

/// A node of the doubly linked list. Links are slot numbers in the list's arena.
pub struct Node<T> {
    pub key: T,
    pub value: T,
    pub next: Option<usize>,
    pub prev: Option<usize>,
}

impl<T> Node<T> {
    /// A node holding `key` and `value`, linked to nothing.
    pub fn new(key: T, value: T) -> (node: Node<T>)
        ensures
            node.key == key,
            node.value == value,
            node.next is None,
            node.prev is None,
    {
        Node { key, value, next: None, prev: None }
    }
}

/// Which end of the list gives up an entry when the list is full.
#[derive(Clone, Copy, Debug, PartialEq, Eq)]
pub enum EvictionPolicy {
    /// The oldest entry (the front) leaves.
    Fifo,
    /// The newest entry (the back) leaves.
    Lifo,
    /// The least recently used entry (the front: reads and updates move an entry to the
    /// back) leaves.
    Lru,
    /// The policy of a list made without one: the front entry leaves, and only when the list
    /// is full.
    Default,
}

/// A doubly linked list whose nodes live in an arena of slots.
pub struct DLL<T> {
    slots: Vec<Option<Node<T>>>,
    free: Vec<usize>,
    head: Option<usize>,
    tail: Option<usize>,
    len: usize,
    cap: usize,
    eviction_policy: EvictionPolicy,
    order: Ghost<Seq<usize>>,
}

impl<T> DLL<T> {
    /// The node stored in slot `id`.
    pub closed spec fn node(&self, id: usize) -> Node<T> {
        self.slots@[id as int]->0
    }

    /// The slots of the list's nodes, from front to back.
    pub closed spec fn ids(&self) -> Seq<usize> {
        self.order@
    }

    pub closed spec fn capacity(&self) -> usize {
        self.cap
    }

    pub closed spec fn policy(&self) -> EvictionPolicy {
        self.eviction_policy
    }

    /// The links of the node at position `i` agree with the order.
    closed spec fn linked_at(&self, i: int) -> bool {
        let ids = self.order@;
        &&& 0 <= i < ids.len()
        &&& ids[i] < self.slots@.len()
        &&& self.slots@[ids[i] as int] is Some
        &&& self.node(ids[i]).prev == (if i == 0 { None } else { Some(ids[i - 1]) })
        &&& self.node(ids[i]).next == (if i + 1 == ids.len() { None } else { Some(ids[i + 1]) })
    }

    closed spec fn free_at(&self, k: int) -> bool {
        &&& 0 <= k < self.free@.len()
        &&& self.free@[k] < self.slots@.len()
        &&& self.slots@[self.free@[k] as int] is None
    }

    /// The list is well formed: its links, length, ends and free slots agree with the order.
    pub closed spec fn wf(&self) -> bool {
        let ids = self.order@;
        &&& self.len == ids.len()
        &&& ids.no_duplicates()
        &&& forall|i: int| 0 <= i < ids.len() ==> #[trigger] self.linked_at(i)
        &&& self.head == (if ids.len() == 0 { None } else { Some(ids[0]) })
        &&& self.tail == (if ids.len() == 0 { None } else { Some(ids[ids.len() - 1]) })
        &&& self.free@.no_duplicates()
        &&& forall|k: int| 0 <= k < self.free@.len() ==> #[trigger] self.free_at(k)
    }
}

impl<T> View for DLL<T> {
    type V = Seq<(T, T)>;

    /// The (key, value) pairs of the list, from front to back.
    closed spec fn view(&self) -> Seq<(T, T)> {
        self.order@.map_values(|id: usize| (self.node(id).key, self.node(id).value))
    }
}

impl<T> DLL<T> {
    /// An empty list with capacity `cap` (unbounded when `None`) and the given policy
    /// (`Default` when `None`).
    pub fn new(cap: Option<usize>, evic: Option<EvictionPolicy>) -> (list: Self)
        ensures
            list.wf(),
            list@ == Seq::<(T, T)>::empty(),
            list.capacity() == (match cap { Some(c) => c, None => usize::MAX }),
            list.policy() == (match evic { Some(p) => p, None => EvictionPolicy::Default }),
    {
        let c = match cap { Some(c) => c, None => usize::MAX };
        let p = match evic { Some(p) => p, None => EvictionPolicy::Default };
        let list = DLL {
            slots: Vec::new(),
            free: Vec::new(),
            head: None,
            tail: None,
            len: 0,
            cap: c,
            eviction_policy: p,
            order: Ghost(Seq::empty()),
        };
        assert(list@ =~= Seq::<(T, T)>::empty());
        list
    }
}


impl<T> DLL<T> {
    /// Rewrites the `next` link of the node in slot `id`.
    fn set_next(&mut self, id: usize, nx: Option<usize>)
        requires
            id < old(self).slots@.len(),
            old(self).slots@[id as int] is Some,
        ensures
            final(self).slots@ == old(self).slots@.update(
                id as int,
                Some(Node { next: nx, ..old(self).node(id) }),
            ),
            final(self).free == old(self).free,
            final(self).head == old(self).head,
            final(self).tail == old(self).tail,
            final(self).len == old(self).len,
            final(self).cap == old(self).cap,
            final(self).eviction_policy == old(self).eviction_policy,
            final(self).order == old(self).order,
    {
        let mut n = self.slots[id].take().unwrap();
        n.next = nx;
        self.slots.set(id, Some(n));
    }

    /// Rewrites the `prev` link of the node in slot `id`.
    fn set_prev(&mut self, id: usize, pv: Option<usize>)
        requires
            id < old(self).slots@.len(),
            old(self).slots@[id as int] is Some,
        ensures
            final(self).slots@ == old(self).slots@.update(
                id as int,
                Some(Node { prev: pv, ..old(self).node(id) }),
            ),
            final(self).free == old(self).free,
            final(self).head == old(self).head,
            final(self).tail == old(self).tail,
            final(self).len == old(self).len,
            final(self).cap == old(self).cap,
            final(self).eviction_policy == old(self).eviction_policy,
            final(self).order == old(self).order,
    {
        let mut n = self.slots[id].take().unwrap();
        n.prev = pv;
        self.slots.set(id, Some(n));
    }

    /// Takes the node in slot `id`, at position `pos`, out of the list and frees its slot.
    fn unlink(&mut self, id: usize, Ghost(pos): Ghost<int>) -> (node: Node<T>)
        requires
            old(self).wf(),
            0 <= pos < old(self).ids().len(),
            old(self).ids()[pos] == id,
        ensures
            final(self).wf(),
            final(self).ids() == old(self).ids().remove(pos),
            final(self)@ == old(self)@.remove(pos),
            node.key == old(self)@[pos].0,
            node.value == old(self)@[pos].1,
            final(self).cap == old(self).cap,
            final(self).eviction_policy == old(self).eviction_policy,
    {
        let ghost ids = self.order@;
        let ghost n: int = ids.len() as int;
        assert(self.linked_at(pos));
        let node = self.slots[id].take().unwrap();
        proof {
            assert forall|k: int| 0 <= k < self.free@.len() implies self.free@[k] != id by {
                assert(old(self).free_at(k));
            }
        }
        self.free.push(id);
        match node.prev {
            Some(p) => {
                assert(old(self).linked_at(pos - 1));
                assert(ids[pos - 1] != id);
                self.set_next(p, node.next);
            },
            None => {
                self.head = node.next;
            },
        }
        match node.next {
            Some(q) => {
                assert(old(self).linked_at(pos + 1));
                assert(ids[pos + 1] != id);
                self.set_prev(q, node.prev);
            },
            None => {
                self.tail = node.prev;
            },
        }
        self.len = self.len - 1;
        self.order = Ghost(ids.remove(pos));
        proof {
            let new_ids = self.order@;
            assert forall|i: int| 0 <= i < new_ids.len() implies #[trigger] self.linked_at(i) by {
                if i < pos {
                    assert(old(self).linked_at(i));
                    assert(ids[i] != id);
                    if pos > 0 {
                        assert(ids[i] != ids[pos - 1] || i == pos - 1);
                    }
                } else {
                    assert(old(self).linked_at(i + 1));
                    assert(ids[i + 1] != id);
                    if pos + 1 < n {
                        assert(ids[i + 1] != ids[pos + 1] || i == pos);
                    }
                    if pos > 0 {
                        assert(ids[i + 1] != ids[pos - 1]);
                    }
                }
            }
            assert forall|k: int| 0 <= k < self.free@.len() implies #[trigger] self.free_at(k) by {
                if k < old(self).free@.len() {
                    assert(old(self).free_at(k));
                    if pos > 0 {
                        assert(self.free@[k] != ids[pos - 1]);
                    }
                    if pos + 1 < n {
                        assert(self.free@[k] != ids[pos + 1]);
                    }
                }
            }
            assert forall|x: usize| x != id && #[trigger] old(self).slots@[x as int] is Some
                && x < old(self).slots@.len() implies self.node(x).key == old(self).node(x).key
                && self.node(x).value == old(self).node(x).value by {
            }
            assert(self@ =~= old(self)@.remove(pos)) by {
                assert forall|i: int| 0 <= i < new_ids.len() implies self@[i] == old(self)@.remove(pos)[i] by {
                    if i < pos {
                        assert(old(self).linked_at(i));
                        assert(ids[i] != id);
                        assert(self@[i] == (self.node(ids[i]).key, self.node(ids[i]).value));
                        assert(old(self)@[i] == (old(self).node(ids[i]).key, old(self).node(ids[i]).value));
                    } else {
                        assert(old(self).linked_at(i + 1));
                        assert(ids[i + 1] != id);
                        assert(self@[i] == (self.node(ids[i + 1]).key, self.node(ids[i + 1]).value));
                        assert(old(self)@[i + 1] == (old(self).node(ids[i + 1]).key, old(self).node(ids[i + 1]).value));
                    }
                }
            }
        }
        node
    }
}

impl<T> DLL<T> {
    /// Stores `node` in a free slot, or in a new one, and returns the slot.
    fn take_slot(&mut self, node: Node<T>) -> (id: usize)
        requires
            old(self).wf(),
        ensures
            id <= old(self).slots@.len(),
            id < old(self).slots@.len() ==> old(self).slots@[id as int] is None,
            final(self).slots@ == (if id < old(self).slots@.len() {
                old(self).slots@.update(id as int, Some(node))
            } else {
                old(self).slots@.push(Some(node))
            }),
            final(self).free@.no_duplicates(),
            forall|k: int| 0 <= k < final(self).free@.len() ==> #[trigger] final(self).free_at(k),
            final(self).head == old(self).head,
            final(self).tail == old(self).tail,
            final(self).len == old(self).len,
            final(self).cap == old(self).cap,
            final(self).eviction_policy == old(self).eviction_policy,
            final(self).order == old(self).order,
    {
        match self.free.pop() {
            Some(f) => {
                proof {
                    let k = old(self).free@.len() - 1;
                    assert(old(self).free_at(k));
                }
                self.slots.set(f, Some(node));
                proof {
                    assert forall|k: int| 0 <= k < self.free@.len() implies #[trigger] self.free_at(k) by {
                        assert(old(self).free_at(k));
                        assert(old(self).free@[k] != f);
                    }
                }
                f
            },
            None => {
                self.slots.push(Some(node));
                proof {
                    assert forall|k: int| 0 <= k < self.free@.len() implies #[trigger] self.free_at(k) by {
                        assert(old(self).free_at(k));
                    }
                }
                self.slots.len() - 1
            },
        }
    }

    /// Links a new node holding `key` and `value` at the back and returns its slot.
    fn link_back(&mut self, key: T, value: T) -> (id: usize)
        requires
            old(self).wf(),
            old(self)@.len() < usize::MAX,
        ensures
            final(self).wf(),
            final(self).ids() == old(self).ids().push(id),
            final(self)@ == old(self)@.push((key, value)),
            final(self).cap == old(self).cap,
            final(self).eviction_policy == old(self).eviction_policy,
    {
        let ghost ids = self.order@;
        let ghost n: int = ids.len() as int;
        let prev = self.tail;
        let id = self.take_slot(Node { key, value, next: None, prev });
        let ghost mid = *self;
        proof {
            assert forall|i: int| 0 <= i < n implies ids[i] != id by {
                assert(old(self).linked_at(i));
            }
        }
        match prev {
            Some(t) => {
                assert(old(self).linked_at(n - 1));
                self.set_next(t, Some(id));
            },
            None => {
                self.head = Some(id);
            },
        }
        self.tail = Some(id);
        self.len = self.len + 1;
        self.order = Ghost(ids.push(id));
        proof {
            let new_ids = self.order@;
            assert forall|i: int| 0 <= i < new_ids.len() implies #[trigger] self.linked_at(i) by {
                if i < n {
                    assert(old(self).linked_at(i));
                }
            }
            assert forall|k: int| 0 <= k < self.free@.len() implies #[trigger] self.free_at(k) by {
                assert(mid.free_at(k));
                if n > 0 {
                    assert(old(self).linked_at(n - 1));
                }
            }
            assert(self@ =~= old(self)@.push((key, value))) by {
                assert forall|i: int| 0 <= i < n implies self@[i] == old(self)@[i] by {
                    assert(old(self).linked_at(i));
                    assert(self@[i] == (self.node(ids[i]).key, self.node(ids[i]).value));
                    assert(old(self)@[i] == (old(self).node(ids[i]).key, old(self).node(ids[i]).value));
                }
                assert(self@[n] == (self.node(id).key, self.node(id).value));
            }
        }
        id
    }

    /// Links a new node holding `key` and `value` at the front and returns its slot.
    fn link_front(&mut self, key: T, value: T) -> (id: usize)
        requires
            old(self).wf(),
            old(self)@.len() < usize::MAX,
        ensures
            final(self).wf(),
            final(self).ids() == old(self).ids().insert(0, id),
            final(self)@ == old(self)@.insert(0, (key, value)),
            final(self).cap == old(self).cap,
            final(self).eviction_policy == old(self).eviction_policy,
    {
        let ghost ids = self.order@;
        let ghost n: int = ids.len() as int;
        let next = self.head;
        let id = self.take_slot(Node { key, value, next, prev: None });
        let ghost mid = *self;
        proof {
            assert forall|i: int| 0 <= i < n implies ids[i] != id by {
                assert(old(self).linked_at(i));
            }
        }
        match next {
            Some(h) => {
                assert(old(self).linked_at(0));
                self.set_prev(h, Some(id));
            },
            None => {
                self.tail = Some(id);
            },
        }
        self.head = Some(id);
        self.len = self.len + 1;
        self.order = Ghost(ids.insert(0, id));
        proof {
            let new_ids = self.order@;
            assert forall|i: int| 0 <= i < new_ids.len() implies #[trigger] self.linked_at(i) by {
                if i > 0 {
                    assert(old(self).linked_at(i - 1));
                }
            }
            assert forall|k: int| 0 <= k < self.free@.len() implies #[trigger] self.free_at(k) by {
                assert(mid.free_at(k));
                if n > 0 {
                    assert(old(self).linked_at(0));
                }
            }
            assert(self@ =~= old(self)@.insert(0, (key, value))) by {
                assert forall|i: int| 1 <= i <= n implies self@[i] == old(self)@[i - 1] by {
                    assert(old(self).linked_at(i - 1));
                    assert(self@[i] == (self.node(ids[i - 1]).key, self.node(ids[i - 1]).value));
                    assert(old(self)@[i - 1] == (old(self).node(ids[i - 1]).key, old(self).node(ids[i - 1]).value));
                }
                assert(self@[0] == (self.node(id).key, self.node(id).value));
            }
        }
        id
    }
}

/// Whether a policy gives up the front of the list (the back otherwise).
pub open spec fn evicts_front(p: EvictionPolicy) -> bool {
    p is Fifo || p is Lru || p is Default
}

impl<T> DLL<T> {
    /// The entries left, and the key given up, when the list evicts one entry.
    pub open spec fn evict_spec(&self) -> (Seq<(T, T)>, Option<T>) {
        if self@.len() == 0 {
            (self@, None)
        } else if self.policy() is Default && self@.len() != self.capacity() {
            (self@, None)
        } else if evicts_front(self.policy()) {
            (self@.drop_first(), Some(self@[0].0))
        } else {
            (self@.drop_last(), Some(self@.last().0))
        }
    }

    /// The entries before a push, and the key given up, once the list has made room.
    pub open spec fn make_room_spec(&self) -> (Seq<(T, T)>, Option<T>) {
        if self@.len() == self.capacity() {
            self.evict_spec()
        } else {
            (self@, None)
        }
    }

    /// The slot numbers of the list never repeat.
    pub proof fn lemma_ids_distinct(&self)
        requires
            self.wf(),
        ensures
            self.ids().no_duplicates(),
            self@.len() == self.ids().len(),
            self@.len() <= usize::MAX,
    {
    }

    pub fn len(&self) -> (n: usize)
        requires
            self.wf(),
        ensures
            n == self@.len(),
    {
        self.len
    }

    pub fn cap(&self) -> (c: usize)
        ensures
            c == self.capacity(),
    {
        self.cap
    }

    pub fn eviction_policy(&self) -> (p: EvictionPolicy)
        ensures
            p == self.policy(),
    {
        self.eviction_policy
    }

    /// Whether the list holds as many entries as its capacity.
    pub fn is_full(&self) -> (full: bool)
        requires
            self.wf(),
        ensures
            full == (self@.len() == self.capacity()),
    {
        self.cap == self.len
    }

    /// Removes the front entry and returns its key.
    pub fn pop_front(&mut self) -> (key: Option<T>)
        requires
            old(self).wf(),
        ensures
            final(self).wf(),
            old(self)@.len() == 0 ==> key is None && final(self)@ == old(self)@,
            old(self)@.len() > 0 ==> key == Some(old(self)@[0].0) && final(self)@ == old(self)@.drop_first(),
            final(self).capacity() == old(self).capacity(),
            final(self).policy() == old(self).policy(),
    {
        match self.head {
            Some(h) => {
                let node = self.unlink(h, Ghost(0));
                assert(old(self)@.remove(0) =~= old(self)@.drop_first());
                Some(node.key)
            },
            None => None,
        }
    }

    /// Removes the back entry and returns its key.
    pub fn pop_back(&mut self) -> (key: Option<T>)
        requires
            old(self).wf(),
        ensures
            final(self).wf(),
            old(self)@.len() == 0 ==> key is None && final(self)@ == old(self)@,
            old(self)@.len() > 0 ==> key == Some(old(self)@.last().0) && final(self)@ == old(self)@.drop_last(),
            final(self).capacity() == old(self).capacity(),
            final(self).policy() == old(self).policy(),
    {
        match self.tail {
            Some(t) => {
                let ghost last = self.order@.len() - 1;
                let node = self.unlink(t, Ghost(last));
                assert(old(self)@.remove(last) =~= old(self)@.drop_last());
                Some(node.key)
            },
            None => None,
        }
    }

    /// Gives up one entry as the list's policy says, and returns its key.
    pub fn evict(&mut self) -> (key: Option<T>)
        requires
            old(self).wf(),
        ensures
            final(self).wf(),
            (final(self)@, key) == old(self).evict_spec(),
            final(self).capacity() == old(self).capacity(),
            final(self).policy() == old(self).policy(),
    {
        match self.eviction_policy {
            EvictionPolicy::Fifo => fifo(self),
            EvictionPolicy::Lifo => lifo(self),
            EvictionPolicy::Lru => lru(self),
            EvictionPolicy::Default => {
                if self.is_full() {
                    self.pop_front()
                } else {
                    None
                }
            },
        }
    }

    /// Moves the node in slot `id` to the back of the list, with its key and value.
    pub fn move_to_back(&mut self, id: usize)
        requires
            old(self).wf(),
            old(self).ids().contains(id),
        ensures
            final(self).wf(),
            final(self)@ == old(self)@.remove(old(self).ids().index_of(id)).push(
                old(self)@[old(self).ids().index_of(id)],
            ),
            final(self).capacity() == old(self).capacity(),
            final(self).policy() == old(self).policy(),
    {
        let ghost pos = self.ids().index_of(id);
        let node = self.unlink(id, Ghost(pos));
        self.link_back(node.key, node.value);
    }

    /// Appends `key` and `value` at the back; when the list is full it first gives up one
    /// entry as its policy says, and returns that entry's key.
    pub fn push_back(&mut self, key: T, value: T) -> (evicted: Option<T>)
        requires
            old(self).wf(),
            old(self)@.len() < usize::MAX,
        ensures
            final(self).wf(),
            final(self)@ == old(self).make_room_spec().0.push((key, value)),
            evicted == old(self).make_room_spec().1,
            final(self).capacity() == old(self).capacity(),
            final(self).policy() == old(self).policy(),
    {
        let mut k = None;
        if self.is_full() {
            k = self.evict();
        }
        self.link_back(key, value);
        k
    }

    /// Inserts `key` and `value` at the front; when the list is full it first gives up one
    /// entry as its policy says, and returns that entry's key.
    pub fn push_front(&mut self, key: T, value: T) -> (evicted: Option<T>)
        requires
            old(self).wf(),
            old(self)@.len() < usize::MAX,
        ensures
            final(self).wf(),
            final(self)@ == old(self).make_room_spec().0.insert(0, (key, value)),
            evicted == old(self).make_room_spec().1,
            final(self).capacity() == old(self).capacity(),
            final(self).policy() == old(self).policy(),
    {
        let mut k = None;
        if self.is_full() {
            k = self.evict();
        }
        self.link_front(key, value);
        k
    }
}

/// The first-in first-out policy: gives up the front entry.
pub fn fifo<T>(dll: &mut DLL<T>) -> (key: Option<T>)
    requires
        old(dll).wf(),
    ensures
        final(dll).wf(),
        old(dll)@.len() == 0 ==> key is None && final(dll)@ == old(dll)@,
        old(dll)@.len() > 0 ==> key == Some(old(dll)@[0].0) && final(dll)@ == old(dll)@.drop_first(),
        final(dll).capacity() == old(dll).capacity(),
        final(dll).policy() == old(dll).policy(),
{
    dll.pop_front()
}

/// The last-in first-out policy: gives up the back entry.
pub fn lifo<T>(dll: &mut DLL<T>) -> (key: Option<T>)
    requires
        old(dll).wf(),
    ensures
        final(dll).wf(),
        old(dll)@.len() == 0 ==> key is None && final(dll)@ == old(dll)@,
        old(dll)@.len() > 0 ==> key == Some(old(dll)@.last().0) && final(dll)@ == old(dll)@.drop_last(),
        final(dll).capacity() == old(dll).capacity(),
        final(dll).policy() == old(dll).policy(),
{
    dll.pop_back()
}

/// The least-recently-used policy: gives up the front entry, the one used longest ago (a cache
/// moves an entry it reads or updates to the back).
pub fn lru<T>(dll: &mut DLL<T>) -> (key: Option<T>)
    requires
        old(dll).wf(),
    ensures
        final(dll).wf(),
        old(dll)@.len() == 0 ==> key is None && final(dll)@ == old(dll)@,
        old(dll)@.len() > 0 ==> key == Some(old(dll)@[0].0) && final(dll)@ == old(dll)@.drop_first(),
        final(dll).capacity() == old(dll).capacity(),
        final(dll).policy() == old(dll).policy(),
{
    dll.pop_front()
}

impl<T: Clone> Node<T> {
    /// A copy of the node's value.
    pub fn get_value(&self) -> (v: T)
        ensures
            cloned(self.value, v),
    {
        self.value.clone()
    }

    /// A copy of the node's key.
    pub fn get_key(&self) -> (k: T)
        ensures
            cloned(self.key, k),
    {
        self.key.clone()
    }
}

impl<T> Node<T> {
    pub fn set_value(&mut self, val: T)
        ensures
            *final(self) == (Node { value: val, ..*old(self) }),
    {
        self.value = val;
    }

    pub fn set_key(&mut self, val: T)
        ensures
            *final(self) == (Node { key: val, ..*old(self) }),
    {
        self.key = val;
    }

    /// Takes the node in slot `node` out of `list`, joining its neighbours; tells whether
    /// the node had a neighbour.
    pub fn remove_self(list: &mut DLL<T>, node: usize) -> (linked: bool)
        requires
            old(list).wf(),
            old(list).ids().contains(node),
        ensures
            final(list).wf(),
            final(list)@ == old(list)@.remove(old(list).ids().index_of(node)),
            final(list).ids() == old(list).ids().remove(old(list).ids().index_of(node)),
            linked == (old(list)@.len() > 1),
            final(list).capacity() == old(list).capacity(),
            final(list).policy() == old(list).policy(),
    {
        let ghost pos = list.ids().index_of(node);
        proof {
            assert(list.linked_at(pos));
        }
        let linked = match &list.slots[node] {
            Some(n) => n.prev.is_some() || n.next.is_some(),
            None => false,
        };
        list.unlink(node, Ghost(pos));
        linked
    }
}

impl<T> DLL<T> {
    /// The slot of the front node.
    pub fn head(&self) -> (h: Option<usize>)
        requires
            self.wf(),
        ensures
            h == (if self.ids().len() == 0 { None } else { Some(self.ids()[0]) }),
    {
        self.head
    }

    /// The slot of the back node.
    pub fn tail(&self) -> (t: Option<usize>)
        requires
            self.wf(),
        ensures
            t == (if self.ids().len() == 0 { None } else { Some(self.ids().last()) }),
    {
        self.tail
    }

    /// The slot of the node after the one at position `pos`.
    pub fn next_of(&self, id: usize) -> (nx: Option<usize>)
        requires
            self.wf(),
            self.ids().contains(id),
        ensures
            forall|p: int|
                0 <= p < self.ids().len() && #[trigger] self.ids()[p] == id ==> nx == (if p + 1 == self.ids().len() {
                    None
                } else {
                    Some(self.ids()[p + 1])
                }),
    {
        let ghost p = self.ids().index_of(id);
        assert(self.linked_at(p));
        match &self.slots[id] {
            Some(n) => n.next,
            None => None,
        }
    }

    /// The key of the node in slot `id`.
    pub fn key_at(&self, id: usize) -> (k: &T)
        requires
            self.wf(),
            self.ids().contains(id),
        ensures
            forall|p: int| 0 <= p < self.ids().len() && #[trigger] self.ids()[p] == id ==> *k == self@[p].0,
    {
        let ghost p = self.ids().index_of(id);
        assert(self.linked_at(p));
        &self.slots[id].as_ref().unwrap().key
    }
}

impl<T> DLL<T> {
    /// The value of the node in slot `id`.
    pub fn value_at(&self, id: usize) -> (v: &T)
        requires
            self.wf(),
            self.ids().contains(id),
        ensures
            forall|p: int| 0 <= p < self.ids().len() && #[trigger] self.ids()[p] == id ==> *v == self@[p].1,
    {
        let ghost p = self.ids().index_of(id);
        assert(self.linked_at(p));
        &self.slots[id].as_ref().unwrap().value
    }

    /// Replaces the value of the node in slot `id`.
    pub fn set_value_at(&mut self, id: usize, val: T)
        requires
            old(self).wf(),
            old(self).ids().contains(id),
        ensures
            final(self).wf(),
            final(self).ids() == old(self).ids(),
            forall|p: int|
                0 <= p < old(self).ids().len() && #[trigger] old(self).ids()[p] == id ==> final(self)@
                    == old(self)@.update(p, (old(self)@[p].0, val)),
            final(self).capacity() == old(self).capacity(),
            final(self).policy() == old(self).policy(),
    {
        let ghost ids = self.order@;
        let ghost p = ids.index_of(id);
        assert(self.linked_at(p));
        let mut n = self.slots[id].take().unwrap();
        n.set_value(val);
        self.slots.set(id, Some(n));
        proof {
            assert forall|i: int| 0 <= i < ids.len() implies #[trigger] self.linked_at(i) by {
                assert(old(self).linked_at(i));
            }
            assert forall|k: int| 0 <= k < self.free@.len() implies #[trigger] self.free_at(k) by {
                assert(old(self).free_at(k));
            }
            assert forall|q: int| 0 <= q < ids.len() && #[trigger] ids[q] == id implies self@
                =~= old(self)@.update(q, (old(self)@[q].0, val)) by {
                assert forall|i: int| 0 <= i < ids.len() implies self@[i] == old(self)@.update(
                    q,
                    (old(self)@[q].0, val),
                )[i] by {
                    assert(old(self).linked_at(i));
                    if i != q {
                        assert(ids[i] != ids[q]);
                    }
                    assert(self@[i] == (self.node(ids[i]).key, self.node(ids[i]).value));
                    assert(old(self)@[i] == (old(self).node(ids[i]).key, old(self).node(ids[i]).value));
                }
            }
        }
    }

    /// A cursor over the entries, from front to back.
    pub fn iter(&self) -> (it: Iter<'_, T>)
        requires
            self.wf(),
        ensures
            it.valid(),
            it.list() == *self,
            it.pos() == 0,
    {
        Iter { list: self, current: self.head, pos: Ghost(0) }
    }
}

/// A cursor over a list's entries, from front to back.
pub struct Iter<'a, T> {
    list: &'a DLL<T>,
    current: Option<usize>,
    pos: Ghost<int>,
}

impl<'a, T> Iter<'a, T> {
    pub closed spec fn list(&self) -> DLL<T> {
        *self.list
    }

    /// How many entries the cursor has passed.
    pub closed spec fn pos(&self) -> int {
        self.pos@
    }

    pub closed spec fn valid(&self) -> bool {
        let ids = self.list.ids();
        &&& self.list.wf()
        &&& 0 <= self.pos@ <= ids.len()
        &&& self.current == (if self.pos@ < ids.len() { Some(ids[self.pos@]) } else { None })
    }
}

impl<'a, T: Clone> Iter<'a, T> {
    /// Copies of the key and value of the next entry, or `None` past the back.
    pub fn next(&mut self) -> (item: Option<(T, T)>)
        requires
            old(self).valid(),
        ensures
            final(self).valid(),
            final(self).list() == old(self).list(),
            old(self).pos() < old(self).list()@.len() ==> {
                &&& final(self).pos() == old(self).pos() + 1
                &&& item matches Some(kv)
                &&& cloned(old(self).list()@[old(self).pos()].0, kv.0)
                &&& cloned(old(self).list()@[old(self).pos()].1, kv.1)
            },
            old(self).pos() >= old(self).list()@.len() ==> item is None && final(self).pos() == old(self).pos(),
    {
        match self.current {
            None => None,
            Some(id) => {
                let ghost p = self.pos@;
                proof {
                    self.list.lemma_ids_distinct();
                    assert(self.list.ids()[p] == id);
                }
                let key = self.list.key_at(id).clone();
                let value = self.list.value_at(id).clone();
                self.current = self.list.next_of(id);
                self.pos = Ghost(p + 1);
                Some((key, value))
            },
        }
    }
}

/// The position of `name` among the registered names, if it is there.
pub open spec fn name_index(s: Seq<(Seq<char>, EvictionPolicy)>, name: Seq<char>) -> Option<int> {
    if exists|i: int| 0 <= i < s.len() && #[trigger] s[i].0 == name {
        Some(choose|i: int| 0 <= i < s.len() && #[trigger] s[i].0 == name)
    } else {
        None
    }
}

/// The registrations after registering `policy` under `name`: it replaces a policy of the
/// same name, or joins at the end.
pub open spec fn register_spec(
    s: Seq<(Seq<char>, EvictionPolicy)>,
    name: Seq<char>,
    policy: EvictionPolicy,
) -> Seq<(Seq<char>, EvictionPolicy)> {
    match name_index(s, name) {
        Some(i) => s.update(i, (name, policy)),
        None => s.push((name, policy)),
    }
}

/// Looking a name up after registering it gives back the policy registered.
pub proof fn law_get_after_register(
    s: Seq<(Seq<char>, EvictionPolicy)>,
    name: Seq<char>,
    policy: EvictionPolicy,
)
    requires
        forall|i: int, j: int| 0 <= i < s.len() && 0 <= j < s.len() && i != j ==> #[trigger] s[i].0 != #[trigger] s[j].0,
    ensures
        name_index(register_spec(s, name, policy), name) matches Some(i) && register_spec(s, name, policy)[i].1
            == policy,
{
    let t = register_spec(s, name, policy);
    match name_index(s, name) {
        Some(i) => {
            assert(t[i].0 == name);
            let j = choose|j: int| 0 <= j < t.len() && #[trigger] t[j].0 == name;
            if j != i {
                assert(t[j] == s[j]);
            }
        },
        None => {
            assert(t[s.len() as int].0 == name);
            let j = choose|j: int| 0 <= j < t.len() && #[trigger] t[j].0 == name;
            if j != s.len() {
                assert(t[j] == s[j]);
            }
        },
    }
}

/// The registrations after unregistering `name`.
pub open spec fn remove_spec(s: Seq<(Seq<char>, EvictionPolicy)>, name: Seq<char>) -> Seq<(Seq<char>, EvictionPolicy)> {
    match name_index(s, name) {
        Some(i) => s.remove(i),
        None => s,
    }
}

/// Unregistering a name leaves it unregistered, and every other name with the policy it had.
pub proof fn law_remove_forgets_only_name(
    s: Seq<(Seq<char>, EvictionPolicy)>,
    name: Seq<char>,
    other: Seq<char>,
)
    requires
        forall|i: int, j: int| 0 <= i < s.len() && 0 <= j < s.len() && i != j ==> #[trigger] s[i].0 != #[trigger] s[j].0,
        other != name,
    ensures
        name_index(remove_spec(s, name), name) is None,
        match name_index(s, other) {
            Some(m) => name_index(remove_spec(s, name), other) matches Some(j) && remove_spec(s, name)[j]
                == s[m],
            None => name_index(remove_spec(s, name), other) is None,
        },
{
    let r = remove_spec(s, name);
    match name_index(s, name) {
        Some(i) => {
            assert forall|j: int| 0 <= j < r.len() implies #[trigger] r[j].0 != name by {
                let j1 = if j < i { j } else { j + 1 };
                assert(r[j] == s[j1]);
            }
            match name_index(s, other) {
                Some(m) => {
                    let m1 = if m < i { m } else { m - 1 };
                    assert(m != i);
                    assert(r[m1] == s[m]);
                    let j = choose|j: int| 0 <= j < r.len() && #[trigger] r[j].0 == other;
                    let j1 = if j < i { j } else { j + 1 };
                    assert(r[j] == s[j1]);
                },
                None => {
                    assert forall|j: int| 0 <= j < r.len() implies #[trigger] r[j].0 != other by {
                        let j1 = if j < i { j } else { j + 1 };
                        assert(r[j] == s[j1]);
                    }
                },
            }
        },
        None => {
            match name_index(s, other) {
                Some(m) => {
                    let j = choose|j: int| 0 <= j < r.len() && #[trigger] r[j].0 == other;
                    assert(r[j].0 == s[m].0);
                },
                None => {},
            }
        },
    }
}

/// Named eviction policies, each name registered at most once.
pub struct EvictionRegistry {
    policies: Vec<(String, EvictionPolicy)>,
}

impl View for EvictionRegistry {
    type V = Seq<(Seq<char>, EvictionPolicy)>;

    closed spec fn view(&self) -> Seq<(Seq<char>, EvictionPolicy)> {
        self.policies@.map_values(|e: (String, EvictionPolicy)| (e.0@, e.1))
    }
}

impl EvictionRegistry {
    /// No name is registered twice.
    pub open spec fn wf(&self) -> bool {
        forall|i: int, j: int|
            0 <= i < self@.len() && 0 <= j < self@.len() && i != j ==> #[trigger] self@[i].0 != #[trigger] self@[j].0
    }

    pub fn new() -> (r: Self)
        ensures
            r.wf(),
            r@ == Seq::<(Seq<char>, EvictionPolicy)>::empty(),
    {
        let r = EvictionRegistry { policies: Vec::new() };
        assert(r@ =~= Seq::<(Seq<char>, EvictionPolicy)>::empty());
        r
    }

    /// The position of `name`, if registered.
    fn find(&self, name: &String) -> (r: Option<usize>)
        requires
            self.wf(),
        ensures
            match r {
                Some(i) => i < self@.len() && name_index(self@, name@) == Some(i as int),
                None => name_index(self@, name@) is None,
            },
    {
        let mut i: usize = 0;
        while i < self.policies.len()
            invariant
                self.wf(),
                i <= self.policies@.len(),
                forall|j: int| 0 <= j < i ==> #[trigger] self@[j].0 != name@,
            decreases self.policies@.len() - i,
        {
            if self.policies[i].0 == *name {
                proof {
                    assert(self@[i as int].0 == name@);
                    let j = choose|j: int| 0 <= j < self@.len() && #[trigger] self@[j].0 == name@;
                    assert(j == i);
                }
                return Some(i);
            }
            i = i + 1;
        }
        None
    }

    /// Registers `policy` under `name`, replacing a policy of the same name.
    pub fn register(&mut self, name: String, policy: EvictionPolicy)
        requires
            old(self).wf(),
        ensures
            final(self).wf(),
            final(self)@ == register_spec(old(self)@, name@, policy),
    {
        match self.find(&name) {
            Some(i) => {
                self.policies.set(i, (name, policy));
                assert(self@ =~= old(self)@.update(i as int, (name@, policy)));
            },
            None => {
                self.policies.push((name, policy));
                assert(self@ =~= old(self)@.push((name@, policy)));
            },
        }
    }

    /// The policy registered under `name`.
    pub fn get(&self, name: &str) -> (r: Option<EvictionPolicy>)
        requires
            self.wf(),
        ensures
            r == (match name_index(self@, name@) {
                Some(i) => Some(self@[i].1),
                None => None,
            }),
    {
        let key = name.to_owned();
        match self.find(&key) {
            Some(i) => Some(self.policies[i].1),
            None => None,
        }
    }

    /// Unregisters `name` and returns its policy.
    pub fn remove(&mut self, name: &str) -> (r: Option<EvictionPolicy>)
        requires
            old(self).wf(),
        ensures
            final(self).wf(),
            final(self)@ == remove_spec(old(self)@, name@),
            match name_index(old(self)@, name@) {
                Some(i) => r == Some(old(self)@[i].1) && final(self)@ == old(self)@.remove(i),
                None => r is None && final(self)@ == old(self)@,
            },
    {
        let key = name.to_owned();
        match self.find(&key) {
            Some(i) => {
                let (_n, p) = self.policies.remove(i);
                proof {
                    let r = old(self)@.remove(i as int);
                    assert(self@ =~= r);
                    assert forall|a: int, b: int| 0 <= a < r.len() && 0 <= b < r.len() && a != b implies #[trigger] r[a].0
                        != #[trigger] r[b].0 by {
                        let a1 = if a < i { a } else { a + 1 };
                        let b1 = if b < i { b } else { b + 1 };
                        assert(r[a] == old(self)@[a1]);
                        assert(r[b] == old(self)@[b1]);
                    }
                }
                Some(p)
            },
            None => None,
        }
    }

    /// Whether `name` is registered.
    pub fn contains(&self, name: &str) -> (r: bool)
        requires
            self.wf(),
        ensures
            r == name_index(self@, name@) is Some,
    {
        let key = name.to_owned();
        self.find(&key).is_some()
    }

    /// How many names are registered.
    pub fn len(&self) -> (n: usize)
        ensures
            n == self@.len(),
    {
        self.policies.len()
    }
}

/// Pushing keeps a list within its capacity: a list that holds at most its capacity, of at
/// least one, still does after an entry is pushed at either end (the list makes room first),
/// and the new entry stands at that end.
pub proof fn law_push_within_capacity<T>(list: DLL<T>, key: T, value: T)
    requires
        list.wf(),
        list@.len() <= list.capacity(),
        list.capacity() >= 1,
    ensures
        list.make_room_spec().0.push((key, value)).len() <= list.capacity(),
        list.make_room_spec().0.push((key, value)).last() == (key, value),
        list.make_room_spec().0.insert(0, (key, value)).len() <= list.capacity(),
        list.make_room_spec().0.insert(0, (key, value))[0] == (key, value),
{
}

/// Popping the back of a list that was not full when an entry was pushed at its back gives
/// that entry's key back and restores the list.
pub proof fn law_pop_back_undoes_push_back<T>(before: DLL<T>, pushed: DLL<T>, key: T, value: T)
    requires
        before@.len() != before.capacity(),
        pushed@ == before.make_room_spec().0.push((key, value)),
    ensures
        pushed@.len() > 0,
        pushed@.last().0 == key,
        pushed@.drop_last() == before@,
{
    assert(pushed@.drop_last() =~= before@);
}

/// Popping the front of a list that was not full when an entry was pushed at its front gives
/// that entry's key back and restores the list.
pub proof fn law_pop_front_undoes_push_front<T>(before: DLL<T>, pushed: DLL<T>, key: T, value: T)
    requires
        before@.len() != before.capacity(),
        pushed@ == before.make_room_spec().0.insert(0, (key, value)),
    ensures
        pushed@.len() > 0,
        pushed@[0].0 == key,
        pushed@.drop_first() == before@,
{
    assert(pushed@.drop_first() =~= before@);
}

} // verus!
