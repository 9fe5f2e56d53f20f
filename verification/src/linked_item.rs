//! The ordered set index: a per-owner collection of kitty ids kept as an
//! intrusive, circular doubly-linked list whose nodes live in the sparse
//! store.  Append and remove touch at most three entries each; the abstract
//! content of one owner's collection is the sequence `self.list(owner)` of
//! ids in append order.

use vstd::prelude::*;

use crate::store::ItemStore;
use crate::store::NodeKey;
use crate::store::slot_key;

verus! {

/// One link node: the neighbouring kitty ids of a slot, `None` meaning
/// the sentinel.  The node at an owner's sentinel slot points at the most
/// recently appended id (`prev`) and the oldest id (`next`).
#[derive(Clone, Copy, Debug, PartialEq, Eq, Structural)]
pub struct LinkedItem {
    pub prev: Option<u32>,
    pub next: Option<u32>,
}

/// The link node with the given neighbours.
pub open spec fn link(prev: Option<u32>, next: Option<u32>) -> LinkedItem {
    LinkedItem { prev, next }
}

/// The link node an absent slot stands for: no neighbours.
pub open spec fn empty_item() -> LinkedItem {
    link(None, None)
}

/// The sentinel node of a collection holding `s` (in append order):
/// `prev` is the newest id, `next` the oldest.
pub open spec fn sentinel_of(s: Seq<u32>) -> LinkedItem {
    if s.len() == 0 {
        empty_item()
    } else {
        link(Some(s.last()), Some(s[0]))
    }
}

/// The link node of the element at position `i` of a collection holding
/// `s`: its neighbours in append order, `None` at either end.
pub open spec fn node_of(s: Seq<u32>, i: int) -> LinkedItem {
    link(
        if i == 0 {
            None
        } else {
            Some(s[i - 1])
        },
        if i == s.len() - 1 {
            None
        } else {
            Some(s[i + 1])
        },
    )
}

/// The content of a collection after removing the ids of `order` in turn,
/// each as `remove` does it (first occurrence, no-op when absent).
pub open spec fn remove_values(s: Seq<u32>, order: Seq<u32>) -> Seq<u32>
    decreases order.len(),
{
    if order.len() == 0 {
        s
    } else {
        remove_values(s.remove_value(order[0]), order.drop_first())
    }
}

/// What one removal leaves of a duplicate-free collection: the removed
/// id is gone, every other id stays, and a miss changes nothing.
pub proof fn lemma_remove_value_semantics(s: Seq<u32>, x: u32)
    requires
        s.no_duplicates(),
    ensures
        !s.remove_value(x).contains(x),
        forall|y: u32|
            y != x ==> ((#[trigger] s.remove_value(x).contains(y)) <==> s.contains(y)),
        s.contains(x) ==> s.remove_value(x).len() == s.len() - 1,
        !s.contains(x) ==> s.remove_value(x) == s,
{
    s.index_of_first_ensures(x);
    if s.contains(x) {
        let j: int = match s.index_of_first(x) {
            Some(j) => j,
            None => 0,
        };
        let s2 = s.remove(j);
        s.remove_ensures(j);
        assert(forall|i: int| 0 <= i < s.len() && i != j ==> s[i] != x);
        assert forall|y: u32| #[trigger] s2.contains(y) implies s.contains(y) && (y == x ==> false) by {
            let i: int = choose|i: int| 0 <= i < s2.len() && s2[i] == y;
            if i < j {
                assert(s[i] == y);
            } else {
                assert(s[i + 1] == y);
            }
        }
        assert forall|y: u32| y != x && s.contains(y) implies s2.contains(y) by {
            let i: int = choose|i: int| 0 <= i < s.len() && s[i] == y;
            if i < j {
                assert(s2[i] == y);
            } else {
                assert(s2[i - 1] == y);
            }
        }
    }
}

/// Round trip: a collection holding `s` that takes a batch of fresh,
/// distinct appends (`appended`, in append order) and then removals of
/// exactly those ids, in any order, ends holding `s` again — so the
/// sentinel and every remaining node read as they did before the batch.
pub proof fn lemma_append_remove_round_trip(s: Seq<u32>, appended: Seq<u32>, order: Seq<u32>)
    requires
        (s + appended).no_duplicates(),
        order.to_multiset() == appended.to_multiset(),
    ensures
        remove_values(s + appended, order) == s,
    decreases order.len(),
{
    let t = s + appended;
    appended.to_multiset_ensures();
    order.to_multiset_ensures();
    if order.len() == 0 {
        assert(appended.len() == 0);
        assert(t =~= s);
    } else {
        let y = order[0];
        assert(order.contains(order[0]));
        assert(order.to_multiset().count(y) > 0);
        assert(appended.contains(y));
        let ai: int = match appended.index_of_first(y) {
            Some(ai) => ai,
            None => 0,
        };
        appended.index_of_first_ensures(y);
        assert(appended[ai] == y);
        assert forall|i: int| 0 <= i < s.len() implies s[i] != y by {
            assert(t[i] == s[i]);
            assert(t[s.len() + ai] == y);
        }
        assert(!s.contains(y));
        let ti: int = match t.index_of_first(y) {
            Some(ti) => ti,
            None => 0,
        };
        t.index_of_first_ensures(y);
        assert(t.contains(y)) by {
            assert(t[s.len() + ai] == y);
        }
        assert(t[ti] == y);
        assert(ti >= s.len());
        assert(appended[ti - s.len()] == y);
        assert(ti - s.len() >= ai);
        assert(ti == s.len() + ai) by {
            assert(t[s.len() + ai] == y);
        }
        let appended2 = appended.remove(ai);
        t.remove_ensures(ti);
        appended.remove_ensures(ai);
        assert(t.remove(ti) =~= s + appended2);
        assert(t.remove_value(y) == s + appended2);

        assert((s + appended2).no_duplicates()) by {
            assert forall|x: int, z: int| 0 <= x < z < t.remove(ti).len() implies t.remove(ti)[x]
                != t.remove(ti)[z] by {
                let tx = if x < ti {
                    x
                } else {
                    x + 1
                };
                let tz = if z < ti {
                    z
                } else {
                    z + 1
                };
                assert(t.remove(ti)[x] == t[tx]);
                assert(t.remove(ti)[z] == t[tz]);
            }
        }

        let order2 = order.drop_first();
        assert(order.remove(0) =~= order2);
        order.remove_ensures(0);
        assert(order2.to_multiset() == appended2.to_multiset()) by {
            assert(order.remove(0).to_multiset() =~= order.to_multiset().remove(y));
            assert(appended.remove(ai).to_multiset() =~= appended.to_multiset().remove(y));
        }
        lemma_append_remove_round_trip(s, appended2, order2);
        assert(remove_values(t, order) == remove_values(s + appended2, order2));
    }
}

/// Per-owner collections of kitty ids, linked through the sparse store.
pub struct OwnedKitties {
    store: ItemStore,
    lists: Ghost<Map<u64, Seq<u32>>>,
}

impl OwnedKitties {
    /// The abstract content of every owner's collection at once.
    pub closed spec fn lists_map(self) -> Map<u64, Seq<u32>> {
        self.lists@
    }

    /// The collection of `owner` in append order (oldest first).
    pub open spec fn list(self, owner: u64) -> Seq<u32> {
        if self.lists_map().contains_key(owner) {
            self.lists_map()[owner]
        } else {
            Seq::empty()
        }
    }

    /// The owners whose sentinel slot has ever been written.
    pub open spec fn touched(self) -> Set<u64> {
        self.lists_map().dom()
    }

    /// The abstract content of the underlying sparse store.
    pub closed spec fn store_map(self) -> Map<NodeKey, LinkedItem> {
        self.store@
    }

    /// The store entries encode exactly the collections: every owner's
    /// elements are pairwise distinct, each element's slot holds its link
    /// node, a touched owner's sentinel slot holds the sentinel node, and
    /// no other entry exists.
    pub closed spec fn wf(self) -> bool {
        &&& self.store.inv()
        &&& forall|a: u64| (#[trigger] self.list(a)).no_duplicates()
        &&& forall|a: u64| self.list(a).len() > 0 ==> #[trigger] self.touched().contains(a)
        &&& forall|a: u64|
            #[trigger] self.touched().contains(a) ==> self.store@.contains_key(slot_key(a, None))
                && self.store@[slot_key(a, None)] == sentinel_of(self.list(a))
        &&& forall|a: u64|
            !(#[trigger] self.touched().contains(a)) ==> !self.store@.contains_key(
                slot_key(a, None),
            )
        &&& forall|a: u64, i: int|
            0 <= i < self.list(a).len() ==> self.store@.contains_key(
                slot_key(a, Some(#[trigger] self.list(a)[i])),
            ) && self.store@[slot_key(a, Some(self.list(a)[i]))] == node_of(self.list(a), i)
        &&& forall|k: NodeKey|
            #[trigger] self.store@.contains_key(k) ==> match k.slot {
                None => self.touched().contains(k.owner),
                Some(v) => self.list(k.owner).contains(v),
            }
    }

    /// A well-formed index holds each id at most once per owner.
    pub proof fn lemma_wf_no_duplicates(self, owner: u64)
        requires
            self.wf(),
        ensures
            self.list(owner).no_duplicates(),
    {
    }

    /// A fresh index with no collections.
    pub fn new() -> (s: Self)
        ensures
            s.wf(),
            s.lists_map() == Map::<u64, Seq<u32>>::empty(),
    {
        OwnedKitties { store: ItemStore::new(), lists: Ghost(Map::empty()) }
    }

    /// The link node the store holds for a slot, or the empty node when
    /// the slot is absent.
    pub closed spec fn node(self, owner: u64, key: Option<u32>) -> LinkedItem {
        if self.store@.contains_key(slot_key(owner, key)) {
            self.store@[slot_key(owner, key)]
        } else {
            empty_item()
        }
    }

    fn read(&self, owner: u64, key: Option<u32>) -> (r: LinkedItem)
        requires
            self.store.inv(),
        ensures
            r == self.node(owner, key),
    {
        match self.store.get(NodeKey { owner, slot: key }) {
            Some(item) => item,
            None => LinkedItem { prev: None, next: None },
        }
    }

    fn write(&mut self, owner: u64, key: Option<u32>, item: LinkedItem)
        requires
            old(self).store.inv(),
        ensures
            final(self).store.inv(),
            final(self).store@ == old(self).store@.insert(slot_key(owner, key), item),
            final(self).lists == old(self).lists,
    {
        self.store.insert(NodeKey { owner, slot: key }, item);
    }

    /// Appends `kitty_id` to `owner`'s collection in three node writes:
    /// the sentinel takes it as its newest element, the old newest element
    /// (or the sentinel itself, when the collection was empty) links
    /// forward to it, and its own fresh node closes the circle.
    pub fn append(&mut self, owner: u64, kitty_id: u32)
        requires
            old(self).wf(),
            !old(self).list(owner).contains(kitty_id),
        ensures
            final(self).wf(),
            final(self).lists_map() == old(self).lists_map().insert(
                owner,
                old(self).list(owner).push(kitty_id),
            ),
    {
        let ghost s = old(self).list(owner);
        let ghost s2 = s.push(kitty_id);
        let head = self.read(owner, None);
        proof {
            if old(self).touched().contains(owner) {
                assert(head == sentinel_of(s));
            } else {
                assert(s.len() == 0);
                assert(head == sentinel_of(s));
            }
        }
        self.write(owner, None, LinkedItem { prev: Some(kitty_id), next: head.next });
        let prev = self.read(owner, head.prev);
        self.write(owner, head.prev, LinkedItem { prev: prev.prev, next: Some(kitty_id) });
        self.write(owner, Some(kitty_id), LinkedItem { prev: head.prev, next: None });
        proof {
            self.lists@ = self.lists@.insert(owner, s2);
            self.lemma_append_wf(*old(self), owner, kitty_id, prev);
        }
    }

    /// The raw store entry at a slot, as an outside reader sees it:
    /// `None` when the slot holds no node.
    pub fn get(&self, owner: u64, key: Option<u32>) -> (r: Option<LinkedItem>)
        requires
            self.wf(),
        ensures
            self.store_map().contains_key(slot_key(owner, key)) ==> r == Some(
                self.store_map()[slot_key(owner, key)],
            ),
            !self.store_map().contains_key(slot_key(owner, key)) ==> r is None,
    {
        self.store.get(NodeKey { owner, slot: key })
    }

    /// Whether `kitty_id` is in `owner`'s collection; decided by the
    /// presence of its node alone.
    pub fn contains(&self, owner: u64, kitty_id: u32) -> (r: bool)
        requires
            self.wf(),
        ensures
            r == self.list(owner).contains(kitty_id),
    {
        let node = self.store.get(NodeKey { owner, slot: Some(kitty_id) });
        proof {
            if self.list(owner).contains(kitty_id) {
                let i: int = choose|i: int|
                    0 <= i < self.list(owner).len() && self.list(owner)[i] == kitty_id;
                assert(self.list(owner)[i] == kitty_id);
                assert(self.store@.contains_key(slot_key(owner, Some(kitty_id))));
            }
        }
        node.is_some()
    }

    /// The sentinel node of `owner`'s collection, read with the empty
    /// node as default: its `prev` is the newest element, its `next` the
    /// oldest, both `None` for an empty collection.
    pub fn read_head(&self, owner: u64) -> (r: LinkedItem)
        requires
            self.wf(),
        ensures
            r == sentinel_of(self.list(owner)),
    {
        let r = self.read(owner, None);
        proof {
            if self.touched().contains(owner) {
            } else {
                assert(self.list(owner).len() == 0);
            }
        }
        r
    }

    /// Walks the circular list of `owner` from the sentinel, newest
    /// element first, and collects the ids: the enumeration order every
    /// consumer of the index relies on.
    pub fn iterate(&self, owner: u64) -> (r: Vec<u32>)
        requires
            self.wf(),
        ensures
            r@ == self.list(owner).reverse(),
    {
        let ghost s = self.list(owner);
        let mut out: Vec<u32> = Vec::new();
        let head = self.read_head(owner);
        let mut cur: Option<u32> = head.prev;
        let ghost mut i: int = s.len() as int;
        while cur.is_some()
            invariant
                self.wf(),
                s == self.list(owner),
                0 <= i <= s.len(),
                cur == (if i > 0 {
                    Some(s[i - 1])
                } else {
                    None::<u32>
                }),
                out@.len() == s.len() - i,
                forall|k: int| 0 <= k < out@.len() ==> out@[k] == s[s.len() - 1 - k],
            decreases i,
        {
            let id = cur.unwrap();
            out.push(id);
            let node = self.read(owner, Some(id));
            proof {
                assert(s[i - 1] == id);
                assert(node == node_of(s, i - 1));
            }
            cur = node.prev;
            proof {
                i = i - 1;
            }
        }
        proof {
            assert(out@ =~= s.reverse());
        }
        out
    }

    fn take(&mut self, owner: u64, key: Option<u32>) -> (r: Option<LinkedItem>)
        requires
            old(self).store.inv(),
        ensures
            final(self).store.inv(),
            final(self).store@ == old(self).store@.remove(slot_key(owner, key)),
            old(self).store@.contains_key(slot_key(owner, key)) ==> r == Some(
                old(self).store@[slot_key(owner, key)],
            ),
            !old(self).store@.contains_key(slot_key(owner, key)) ==> r is None && *final(self)
                == *old(self),
            final(self).lists == old(self).lists,
    {
        self.store.remove(NodeKey { owner, slot: key })
    }

    /// Splices `kitty_id` out of `owner`'s collection: its own node is
    /// taken out of the store, its predecessor (or the sentinel) links
    /// forward past it and its successor (or the sentinel) links backward
    /// past it.  When `kitty_id` is not in the collection nothing at all
    /// changes.
    pub fn remove(&mut self, owner: u64, kitty_id: u32)
        requires
            old(self).wf(),
        ensures
            final(self).wf(),
            old(self).list(owner).contains(kitty_id) ==> final(self).lists_map() == old(
                self,
            ).lists_map().insert(owner, old(self).list(owner).remove_value(kitty_id)),
            !old(self).list(owner).contains(kitty_id) ==> *final(self) == *old(self),
    {
        let ghost s = old(self).list(owner);
        proof {
            if self.store@.contains_key(slot_key(owner, Some(kitty_id))) {
                assert(s.contains(kitty_id));
            }
            if s.contains(kitty_id) {
                let i: int = choose|i: int| 0 <= i < s.len() && s[i] == kitty_id;
                assert(s[i] == kitty_id);
                assert(self.store@.contains_key(slot_key(owner, Some(kitty_id))));
            }
        }
        let taken = self.take(owner, Some(kitty_id));
        if let Some(item) = taken {
            let prev = self.read(owner, item.prev);
            self.write(owner, item.prev, LinkedItem { prev: prev.prev, next: item.next });
            let next = self.read(owner, item.next);
            self.write(owner, item.next, LinkedItem { prev: item.prev, next: next.next });
            proof {
                s.index_of_first_ensures(kitty_id);
                let j: int = match s.index_of_first(kitty_id) {
                    Some(j) => j,
                    None => 0,
                };
                let s2 = s.remove(j);
                assert(s.remove_value(kitty_id) == s2);
                self.lists@ = self.lists@.insert(owner, s2);
                self.lemma_remove_wf(*old(self), owner, kitty_id, j, item, prev, next);
            }
        }
    }

    /// The splice of `remove` leaves the store encoding the updated
    /// collections.  `j` is the position the removed id had; `item`,
    /// `prev` and `next` are the three nodes the splice read.
    proof fn lemma_remove_wf(
        self,
        pre: Self,
        owner: u64,
        kitty_id: u32,
        j: int,
        item: LinkedItem,
        prev: LinkedItem,
        next: LinkedItem,
    )
        requires
            pre.wf(),
            0 <= j < pre.list(owner).len(),
            pre.list(owner)[j] == kitty_id,
            item == node_of(pre.list(owner), j),
            prev == ({
                let m1 = pre.store@.remove(slot_key(owner, Some(kitty_id)));
                if m1.contains_key(slot_key(owner, item.prev)) {
                    m1[slot_key(owner, item.prev)]
                } else {
                    empty_item()
                }
            }),
            next == ({
                let m2 = pre.store@.remove(slot_key(owner, Some(kitty_id))).insert(
                    slot_key(owner, item.prev),
                    link(prev.prev, item.next),
                );
                if m2.contains_key(slot_key(owner, item.next)) {
                    m2[slot_key(owner, item.next)]
                } else {
                    empty_item()
                }
            }),
            self.store@ == pre.store@.remove(slot_key(owner, Some(kitty_id))).insert(
                slot_key(owner, item.prev),
                link(prev.prev, item.next),
            ).insert(slot_key(owner, item.next), link(item.prev, next.next)),
            self.store.inv(),
            self.lists@ == pre.lists@.insert(owner, pre.list(owner).remove(j)),
        ensures
            self.wf(),
    {
        let s = pre.list(owner);
        let s2 = s.remove(j);
        let n = s.len() as int;
        assert(s.no_duplicates());
        assert(self.list(owner) == s2);
        assert(forall|a: u64| a != owner ==> self.list(a) == pre.list(a));
        assert(self.touched() == pre.touched().insert(owner));
        assert(pre.touched().contains(owner));
        s.remove_ensures(j);
        assert(forall|i: int| 0 <= i < j ==> s2[i] == s[i]);
        assert(forall|i: int| j <= i < n - 1 ==> s2[i] == s[i + 1]);
        assert(forall|i: int| 0 <= i < n && i != j ==> s[i] != kitty_id);
        assert(item.prev == if j == 0 {
            None
        } else {
            Some(s[j - 1])
        });
        assert(item.next == if j == n - 1 {
            None
        } else {
            Some(s[j + 1])
        });

        assert forall|a: u64| (#[trigger] self.list(a)).no_duplicates() by {
            if a == owner {
                assert forall|x: int, y: int| 0 <= x < y < s2.len() implies s2[x] != s2[y] by {}
            }
        }

        // The two spliced nodes, by case on the position of the removed id.
        if n == 1 {
            assert(prev == sentinel_of(s));
            assert(self.store@[slot_key(owner, None)] == empty_item());
        } else if j == 0 {
            assert(prev == sentinel_of(s));
            assert(next == node_of(s, 1));
            assert(self.store@[slot_key(owner, None)] == link(Some(s.last()), Some(s[1])));
            assert(self.store@[slot_key(owner, Some(s[1]))] == link(None, node_of(s, 1).next));
        } else if j == n - 1 {
            assert(s[j - 1] != kitty_id);
            assert(prev == node_of(s, j - 1));
            assert(next == sentinel_of(s));
            assert(self.store@[slot_key(owner, Some(s[j - 1]))] == link(
                node_of(s, j - 1).prev,
                None,
            ));
            assert(self.store@[slot_key(owner, None)] == link(Some(s[j - 1]), Some(s[0])));
        } else {
            assert(s[j - 1] != kitty_id);
            assert(s[j + 1] != kitty_id);
            assert(s[j - 1] != s[j + 1]);
            assert(prev == node_of(s, j - 1));
            assert(next == node_of(s, j + 1));
            assert(self.store@[slot_key(owner, Some(s[j - 1]))] == link(
                node_of(s, j - 1).prev,
                Some(s[j + 1]),
            ));
            assert(self.store@[slot_key(owner, Some(s[j + 1]))] == link(
                Some(s[j - 1]),
                node_of(s, j + 1).next,
            ));
        }

        assert forall|a: u64| #[trigger] self.touched().contains(a) implies self
            .store@.contains_key(slot_key(a, None)) && self.store@[slot_key(a, None)]
            == sentinel_of(self.list(a)) by {
            if a == owner {
                if n == 1 {
                    assert(s2.len() == 0);
                } else if j == 0 {
                    assert(s2.len() == n - 1);
                    assert(s2[0] == s[1]);
                    assert(s2.last() == s[n - 1]);
                    assert(s.last() == s[n - 1]);
                } else if j == n - 1 {
                    assert(s2[0] == s[0]);
                    assert(s2.last() == s[j - 1]);
                } else {
                    assert(s2[0] == s[0]);
                    assert(s2.last() == s[n - 1]);
                    assert(s.last() == s[n - 1]);
                    assert(s[n - 1] != kitty_id);
                    assert(s[n - 1] != s[j - 1] && (s[n - 1] != s[j + 1] || n - 1 == j + 1));
                    assert(self.store@[slot_key(owner, None)] == sentinel_of(s));
                }
            } else {
                assert(pre.touched().contains(a));
            }
        }

        assert forall|a: u64| !(#[trigger] self.touched().contains(a)) implies !self
            .store@.contains_key(slot_key(a, None)) by {
            assert(a != owner);
            assert(!pre.touched().contains(a));
        }

        assert forall|a: u64, i: int| 0 <= i < self.list(a).len() implies self.store@.contains_key(
            slot_key(a, Some(#[trigger] self.list(a)[i])),
        ) && self.store@[slot_key(a, Some(self.list(a)[i]))] == node_of(self.list(a), i) by {
            if a == owner {
                let oi = if i < j {
                    i
                } else {
                    i + 1
                };
                assert(s2[i] == s[oi]);
                assert(s[oi] != kitty_id);
                if oi == j - 1 {
                    assert(node_of(s2, i) == link(node_of(s, oi).prev, item.next));
                } else if oi == j + 1 {
                    assert(node_of(s2, i) == link(item.prev, node_of(s, oi).next));
                } else {
                    assert(s[oi] != s[j - 1] || j == 0);
                    assert(s[oi] != s[j + 1] || j == n - 1);
                    assert(self.store@[slot_key(a, Some(s[oi]))] == pre.store@[slot_key(
                        a,
                        Some(s[oi]),
                    )]);
                    assert(node_of(s2, i) == node_of(s, oi));
                }
            } else {
                assert(pre.list(a)[i] == self.list(a)[i]);
            }
        }

        assert forall|k: NodeKey| #[trigger] self.store@.contains_key(k) implies match k.slot {
            None => self.touched().contains(k.owner),
            Some(v) => self.list(k.owner).contains(v),
        } by {
            if k == slot_key(owner, item.prev) && item.prev is Some {
                assert(s2[j - 1] == s[j - 1]);
                assert(self.list(owner).contains(s[j - 1]));
            } else if k == slot_key(owner, item.next) && item.next is Some {
                assert(s2[j] == s[j + 1]);
                assert(self.list(owner).contains(s[j + 1]));
            } else if k.slot is None {
                if k.owner == owner {
                    assert(self.touched().contains(owner));
                } else {
                    assert(pre.store@.contains_key(k));
                    assert(pre.touched().contains(k.owner));
                    assert(self.touched().contains(k.owner));
                }
            } else {
                assert(pre.store@.contains_key(k));
                let v = k.slot->Some_0;
                assert(pre.list(k.owner).contains(v));
                if k.owner == owner {
                    assert(v != kitty_id);
                    let i: int = choose|i: int| 0 <= i < s.len() && s[i] == v;
                    if i < j {
                        assert(s2[i] == v);
                    } else {
                        assert(s2[i - 1] == v);
                    }
                    assert(self.list(owner).contains(v));
                }
            }
        }
    }

    /// The three writes of `append` leave the store encoding the updated
    /// collections.
    proof fn lemma_append_wf(self, pre: Self, owner: u64, kitty_id: u32, prev: LinkedItem)
        requires
            pre.wf(),
            !pre.list(owner).contains(kitty_id),
            prev == ({
                let m1 = pre.store@.insert(
                    slot_key(owner, None),
                    link(Some(kitty_id), sentinel_of(pre.list(owner)).next),
                );
                if m1.contains_key(slot_key(owner, sentinel_of(pre.list(owner)).prev)) {
                    m1[slot_key(owner, sentinel_of(pre.list(owner)).prev)]
                } else {
                    empty_item()
                }
            }),
            self.store@ == pre.store@.insert(
                slot_key(owner, None),
                link(Some(kitty_id), sentinel_of(pre.list(owner)).next),
            ).insert(
                slot_key(owner, sentinel_of(pre.list(owner)).prev),
                link(prev.prev, Some(kitty_id)),
            ).insert(
                slot_key(owner, Some(kitty_id)),
                link(sentinel_of(pre.list(owner)).prev, None),
            ),
            self.store.inv(),
            self.lists@ == pre.lists@.insert(owner, pre.list(owner).push(kitty_id)),
        ensures
            self.wf(),
    {
        let s = pre.list(owner);
        let s2 = s.push(kitty_id);
        assert(self.list(owner) == s2);
        assert(forall|a: u64| a != owner ==> self.list(a) == pre.list(a));
        assert(self.touched() == pre.touched().insert(owner));
        assert(s2.last() == kitty_id);
        assert(forall|i: int| 0 <= i < s.len() ==> s2[i] == s[i]);

        assert forall|a: u64| (#[trigger] self.list(a)).no_duplicates() by {
            if a == owner {
                assert forall|i: int, j: int| 0 <= i < j < s2.len() implies s2[i] != s2[j] by {
                    if j == s.len() {
                        assert(s.contains(s[i]));
                    } else {
                        assert(s.no_duplicates());
                    }
                }
            }
        }

        assert forall|a: u64| #[trigger] self.touched().contains(a) implies self
            .store@.contains_key(slot_key(a, None)) && self.store@[slot_key(a, None)]
            == sentinel_of(self.list(a)) by {
            if a == owner {
                if s.len() == 0 {
                    assert(prev == link(Some(kitty_id), None));
                    assert(self.store@[slot_key(a, None)] == link(Some(kitty_id), Some(kitty_id)));
                    assert(s2[0] == kitty_id);
                } else {
                    assert(slot_key(owner, sentinel_of(s).prev) != slot_key(owner, None));
                    assert(self.store@[slot_key(a, None)] == link(Some(kitty_id), Some(s[0])));
                    assert(s2[0] == s[0]);
                }
            } else {
                assert(pre.touched().contains(a));
            }
        }

        assert forall|a: u64| !(#[trigger] self.touched().contains(a)) implies !self
            .store@.contains_key(slot_key(a, None)) by {
            assert(a != owner);
            assert(!pre.touched().contains(a));
        }

        assert forall|a: u64, i: int| 0 <= i < self.list(a).len() implies self.store@.contains_key(
            slot_key(a, Some(#[trigger] self.list(a)[i])),
        ) && self.store@[slot_key(a, Some(self.list(a)[i]))] == node_of(self.list(a), i) by {
            if a == owner {
                if i == s.len() {
                    assert(s2[i] == kitty_id);
                    assert(self.store@[slot_key(a, Some(kitty_id))] == link(
                        sentinel_of(s).prev,
                        None,
                    ));
                } else if i == s.len() - 1 {
                    assert(s2[i] == s[i]);
                    assert(s[i] == s.last());
                    assert(sentinel_of(s).prev == Some(s[i]));
                    assert(s2[i] != kitty_id) by {
                        assert(s.contains(s[i]));
                    }
                    assert(prev == pre.store@[slot_key(owner, Some(s[i]))]);
                    assert(prev == node_of(s, i));
                    assert(self.store@[slot_key(a, Some(s[i]))] == link(
                        node_of(s, i).prev,
                        Some(kitty_id),
                    ));
                    assert(node_of(s2, i) == link(node_of(s, i).prev, Some(kitty_id)));
                } else {
                    assert(s2[i] == s[i]);
                    assert(s.contains(s[i]));
                    assert(s2[i] != kitty_id);
                    assert(s[i] != s.last()) by {
                        assert(s.no_duplicates());
                    }
                    assert(slot_key(a, Some(s[i])) != slot_key(owner, sentinel_of(s).prev));
                    assert(self.store@[slot_key(a, Some(s[i]))] == pre.store@[slot_key(
                        a,
                        Some(s[i]),
                    )]);
                    assert(node_of(s2, i) == node_of(s, i));
                }
            } else {
                assert(pre.list(a)[i] == self.list(a)[i]);
            }
        }

        assert forall|k: NodeKey| #[trigger] self.store@.contains_key(k) implies match k.slot {
            None => self.touched().contains(k.owner),
            Some(v) => self.list(k.owner).contains(v),
        } by {
            if k == slot_key(owner, Some(kitty_id)) {
                assert(s2[s.len() as int] == kitty_id);
                assert(self.list(owner).contains(kitty_id));
            } else if k == slot_key(owner, sentinel_of(s).prev) {
                if s.len() == 0 {
                    assert(self.touched().contains(owner));
                } else {
                    assert(s2[s.len() - 1] == s.last());
                    assert(self.list(owner).contains(s.last()));
                }
            } else if k == slot_key(owner, None) {
                assert(self.touched().contains(owner));
            } else {
                assert(pre.store@.contains_key(k));
                match k.slot {
                    None => {
                        assert(pre.touched().contains(k.owner));
                        assert(self.touched().contains(k.owner));
                    },
                    Some(v) => {
                        assert(pre.list(k.owner).contains(v));
                        if k.owner == owner {
                            let i: int = choose|i: int| 0 <= i < s.len() && s[i] == v;
                            assert(s2[i] == v);
                        }
                    },
                }
            }
        }
    }
}

} // verus!
