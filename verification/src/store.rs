//! The sparse key-value store that the ownership index lives in.
//!
//! Every link node of an owner's collection is kept under a composite key:
//! the owning account together with an optional kitty id (`None` marks the
//! sentinel slot of that owner's list).  The store offers get, insert and
//! remove with no iteration guarantee and no default value; its abstract
//! content is the map `self@`.

use vstd::prelude::*;

use crate::linked_item::LinkedItem;

verus! {

/// Composite key of one entry: an owner account and an optional kitty id.
/// The slot `None` is the sentinel slot of that owner's linked list.
#[derive(Clone, Copy, Debug, PartialEq, Eq, Structural)]
pub struct NodeKey {
    pub owner: u64,
    pub slot: Option<u32>,
}

/// The composite key of `owner`'s entry at `slot`.
pub open spec fn slot_key(owner: u64, slot: Option<u32>) -> NodeKey {
    NodeKey { owner, slot }
}

struct StoreEntry {
    key: NodeKey,
    item: LinkedItem,
}

/// A sparse associative store from `NodeKey` to `LinkedItem`.
///
/// The concrete representation is a vector of entries with pairwise
/// distinct keys; the abstract view `self@` is the finite map they encode.
pub struct ItemStore {
    entries: Vec<StoreEntry>,
    contents: Ghost<Map<NodeKey, LinkedItem>>,
}

impl View for ItemStore {
    type V = Map<NodeKey, LinkedItem>;

    closed spec fn view(&self) -> Map<NodeKey, LinkedItem> {
        self.contents@
    }
}

impl ItemStore {
    /// The representation encodes exactly the abstract map.
    pub closed spec fn inv(self) -> bool {
        &&& forall|i: int, j: int|
            0 <= i < j < self.entries@.len() ==> (#[trigger] self.entries@[i]).key != (
            #[trigger] self.entries@[j]).key
        &&& forall|i: int|
            0 <= i < self.entries@.len() ==> self.contents@.contains_key(
                (#[trigger] self.entries@[i]).key,
            ) && self.contents@[self.entries@[i].key] == self.entries@[i].item
        &&& forall|k: NodeKey|
            #[trigger] self.contents@.contains_key(k) ==> exists|i: int|
                0 <= i < self.entries@.len() && (#[trigger] self.entries@[i]).key == k
    }

    /// An empty store.
    pub fn new() -> (s: Self)
        ensures
            s.inv(),
            s@ == Map::<NodeKey, LinkedItem>::empty(),
    {
        ItemStore { entries: Vec::new(), contents: Ghost(Map::empty()) }
    }

    /// Looks the key up; `None` when the store holds no entry for it.
    pub fn get(&self, key: NodeKey) -> (r: Option<LinkedItem>)
        requires
            self.inv(),
        ensures
            self@.contains_key(key) ==> r == Some(self@[key]),
            !self@.contains_key(key) ==> r is None,
    {
        let n: usize = self.entries.len();
        let mut i: usize = 0;
        while i < n
            invariant
                self.inv(),
                n == self.entries@.len(),
                i <= n,
                forall|j: int| 0 <= j < i ==> (#[trigger] self.entries@[j]).key != key,
            decreases n - i,
        {
            if self.entries[i].key == key {
                return Some(self.entries[i].item);
            }
            i = i + 1;
        }
        None
    }

    /// Inserts or overwrites the entry for the key.
    pub fn insert(&mut self, key: NodeKey, item: LinkedItem)
        requires
            old(self).inv(),
        ensures
            final(self).inv(),
            final(self)@ == old(self)@.insert(key, item),
    {
        let ghost new_map = self.contents@.insert(key, item);
        let n: usize = self.entries.len();
        let mut i: usize = 0;
        while i < n
            invariant
                self.inv(),
                *self == *old(self),
                new_map == old(self).contents@.insert(key, item),
                n == self.entries@.len(),
                i <= n,
                forall|j: int| 0 <= j < i ==> (#[trigger] self.entries@[j]).key != key,
            decreases n - i,
        {
            if self.entries[i].key == key {
                self.entries.set(i, StoreEntry { key, item });
                proof {
                    self.contents@ = new_map;
                    assert forall|k: NodeKey| #[trigger]
                        self.contents@.contains_key(k) implies exists|j: int|
                        0 <= j < self.entries@.len() && (#[trigger] self.entries@[j]).key
                            == k by {
                        if k != key {
                            assert(old(self).contents@.contains_key(k));
                            let j: int = choose|j: int|
                                0 <= j < old(self).entries@.len() && (#[trigger] old(
                                    self,
                                ).entries@[j]).key == k;
                            assert(old(self).entries@[j].key == k);
                            assert(j != i);
                            assert(self.entries@[j].key == k);
                        } else {
                            assert(self.entries@[i as int].key == k);
                        }
                    }
                }
                return;
            }
            i = i + 1;
        }
        self.entries.push(StoreEntry { key, item });
        proof {
            self.contents@ = new_map;
            assert forall|k: NodeKey| #[trigger] self.contents@.contains_key(k) implies exists|
                j: int,
            | 0 <= j < self.entries@.len() && (#[trigger] self.entries@[j]).key == k by {
                if k != key {
                    assert(old(self).contents@.contains_key(k));
                    let j: int = choose|j: int|
                        0 <= j < old(self).entries@.len() && (#[trigger] old(
                            self,
                        ).entries@[j]).key == k;
                    assert(old(self).entries@[j].key == k);
                    assert(self.entries@[j].key == k);
                } else {
                    assert(self.entries@[self.entries@.len() - 1].key == k);
                }
            }
        }
    }

    /// Removes the entry for the key and hands its value back; a miss
    /// changes nothing at all.
    pub fn remove(&mut self, key: NodeKey) -> (r: Option<LinkedItem>)
        requires
            old(self).inv(),
        ensures
            final(self).inv(),
            final(self)@ == old(self)@.remove(key),
            old(self)@.contains_key(key) ==> r == Some(old(self)@[key]),
            !old(self)@.contains_key(key) ==> r is None && *final(self) == *old(self),
    {
        let ghost new_map = self.contents@.remove(key);
        let n: usize = self.entries.len();
        let mut i: usize = 0;
        while i < n
            invariant
                self.inv(),
                *self == *old(self),
                new_map == old(self).contents@.remove(key),
                n == self.entries@.len(),
                i <= n,
                forall|j: int| 0 <= j < i ==> (#[trigger] self.entries@[j]).key != key,
            decreases n - i,
        {
            if self.entries[i].key == key {
                let entry = self.entries.swap_remove(i);
                proof {
                    self.contents@ = new_map;
                    assert forall|k: NodeKey| #[trigger]
                        self.contents@.contains_key(k) implies exists|j: int|
                        0 <= j < self.entries@.len() && (#[trigger] self.entries@[j]).key
                            == k by {
                        assert(k != key);
                        assert(old(self).contents@.contains_key(k));
                        let j: int = choose|j: int|
                            0 <= j < old(self).entries@.len() && (#[trigger] old(
                                self,
                            ).entries@[j]).key == k;
                        assert(old(self).entries@[j].key == k);
                        assert(j != i);
                        if j < self.entries@.len() {
                            assert(self.entries@[j].key == k);
                        } else {
                            assert(self.entries@[i as int].key == k);
                        }
                    }
                }
                return Some(entry.item);
            }
            i = i + 1;
        }
        proof {
            assert(!self.contents@.contains_key(key));
            assert(self.contents@ =~= new_map);
        }
        None
    }
}

} // verus!
