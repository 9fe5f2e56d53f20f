//! The asset repository, genetic mixer, marketplace ledger and lifecycle
//! engine.
//!
//! A kitty is a record of a 16-byte DNA vector, a generation number and an
//! optional sale price (zero meaning not for sale).  The engine mints,
//! breeds, transfers, lists and sells kitties as atomic transitions over
//! the repository, the ownership index and the sale ledger: every
//! precondition is checked before the first write, so a rejected call
//! changes nothing at all.

use vstd::prelude::*;

use crate::linked_item::OwnedKitties;

verus! {

/// Why a lifecycle call was rejected.  Every rejection is total: the
/// state is exactly what it was before the call.
#[derive(Clone, Copy, Debug, PartialEq, Eq, Structural)]
pub enum Error {
    /// The kitty id was never minted.
    NotFound,
    /// The identifier counter is at its maximum.
    CapacityExhausted,
    /// Breeding needs two different parents.
    IdenticalParents,
    /// The caller does not hold the kitty it claims.
    NotOwned,
    /// A transfer to the sender itself.
    SelfTransfer,
    /// A sale price of zero.
    InvalidPrice,
    /// No active listing for the kitty.
    NotForSale,
    /// The buyer already owns the kitty on sale.
    BuyOwnAsset,
    /// The payment collaborator reported too small a balance.
    InsufficientFunds,
}

/// One kitty: its DNA, its generation (zero when minted, one more than
/// its older parent when bred) and its sale price (zero when not for
/// sale).
#[derive(Clone, Copy, Debug, PartialEq, Eq)]
pub struct Kitty {
    pub dna: [u8; 16],
    pub gen: u64,
    pub price: u64,
}

/// The kitty record with the given fields.
pub open spec fn kitty_record(dna: [u8; 16], gen: u64, price: u64) -> Kitty {
    Kitty { dna, gen, price }
}

impl Kitty {
    /// A kitty record with the given attributes.
    pub fn new(dna: [u8; 16], gen: u64, price: u64) -> (r: Self)
        ensures
            r == kitty_record(dna, gen, price),
    {
        Kitty { dna, gen, price }
    }
}

/// An active sale offer: the selling account and the asked price.
#[derive(Clone, Copy, Debug, PartialEq, Eq, Structural)]
pub struct KittyInSale {
    pub owned: Option<u64>,
    pub price: u64,
}

/// The sale record with the given fields.
pub open spec fn sale_record(owned: Option<u64>, price: u64) -> KittyInSale {
    KittyInSale { owned, price }
}

/// One byte of child DNA: each bit comes from the first parent where the
/// selector bit is set and from the second parent where it is clear.
pub open spec fn combine_spec(dna1: u8, dna2: u8, selector: u8) -> u8 {
    (selector & dna1) | (!selector & dna2)
}

/// Mixes one byte of two parents' DNA under a selector mask.
pub fn combine_dna(dna1: u8, dna2: u8, selector: u8) -> (r: u8)
    ensures
        r == combine_spec(dna1, dna2, selector),
{
    (selector & dna1) | (!selector & dna2)
}

/// The whole child DNA vector, mixed byte by byte.
pub open spec fn mixed_dna(a: Seq<u8>, b: Seq<u8>, sel: Seq<u8>) -> Seq<u8> {
    Seq::new(a.len(), |i: int| combine_spec(a[i], b[i], sel[i]))
}

/// Mixing identical parents reproduces their DNA whatever the selector:
/// every bit is taken from one of two equal sources.
pub proof fn lemma_mix_identical_parents(a: Seq<u8>, sel: Seq<u8>)
    ensures
        mixed_dna(a, a, sel) == a,
{
    assert forall|i: int| 0 <= i < a.len() implies mixed_dna(a, a, sel)[i] == a[i] by {
        let x = a[i];
        let s = sel[i];
        assert(((s & x) | (!s & x)) == x) by (bit_vector);
    }
    assert(mixed_dna(a, a, sel) =~= a);
}

fn mix_dna(dna1: &[u8; 16], dna2: &[u8; 16], selector: &[u8; 16]) -> (r: [u8; 16])
    ensures
        r@ == mixed_dna(dna1@, dna2@, selector@),
{
    let mut out: [u8; 16] = [0u8; 16];
    let mut i: usize = 0;
    while i < 16
        invariant
            i <= 16,
            forall|j: int| 0 <= j < i ==> out@[j] == combine_spec(dna1@[j], dna2@[j], selector@[j]),
        decreases 16 - i,
    {
        out[i] = combine_dna(dna1[i], dna2[i], selector[i]);
        i += 1;
    }
    proof {
        assert(out@ =~= mixed_dna(dna1@, dna2@, selector@));
    }
    out
}

/// The whole ledger state: the asset repository (ids are positions, the
/// counter is the length), the ownership index and the sale ledger.
pub struct Module {
    kitties: Vec<Kitty>,
    owned: OwnedKitties,
    listings: Vec<Option<KittyInSale>>,
}

impl Module {
    /// All minted kitty records, in mint order; the id of a kitty is its
    /// position.
    pub closed spec fn kitties_seq(self) -> Seq<Kitty> {
        self.kitties@
    }

    /// The collection of `owner`, in append order (oldest first).
    pub closed spec fn collection(self, owner: u64) -> Seq<u32> {
        self.owned.list(owner)
    }

    /// The sale ledger, one optional listing per minted kitty.
    pub closed spec fn listings_seq(self) -> Seq<Option<KittyInSale>> {
        self.listings@
    }

    /// The active listing of a kitty, `None` when it is not for sale.
    pub open spec fn listing(self, kitty_id: u32) -> Option<KittyInSale> {
        if 0 <= (kitty_id as int) < self.listings_seq().len() {
            self.listings_seq()[kitty_id as int]
        } else {
            None
        }
    }

    /// Whether a kitty id has been minted.
    pub open spec fn minted(self, kitty_id: u32) -> bool {
        (kitty_id as int) < self.kitties_seq().len()
    }

    /// The state invariant every operation preserves:
    /// the index is well formed; ids fit the counter type; the ledger has
    /// one slot per kitty; every collected id is minted; an id is in at
    /// most one collection; a generation never exceeds the id (a bred
    /// kitty is younger than its parents); a listing carries the selling
    /// owner and the kitty's own nonzero price, and a kitty without a
    /// listing has price zero.
    pub closed spec fn wf(self) -> bool {
        &&& self.owned.wf()
        &&& self.kitties@.len() <= u32::MAX as int
        &&& self.listings@.len() == self.kitties@.len()
        &&& forall|a: u64, i: int|
            0 <= i < self.collection(a).len() ==> (#[trigger] self.collection(a)[i])
                < self.kitties@.len()
        &&& forall|a1: u64, a2: u64, k: u32|
            #[trigger] self.collection(a1).contains(k) && #[trigger] self.collection(a2).contains(
                k,
            ) ==> a1 == a2
        &&& forall|i: int| 0 <= i < self.kitties@.len() ==> (#[trigger] self.kitties@[i]).gen <= i
        &&& forall|i: int|
            0 <= i < self.listings@.len() ==> match #[trigger] self.listings@[i] {
                Some(l) => l.price == self.kitties@[i].price && l.price > 0 && (match l.owned {
                    Some(s) => self.collection(s).contains(i as u32),
                    None => false,
                }),
                None => self.kitties@[i].price == 0,
            }
    }

    /// The account holding `kitty_id`: the witness of `complete`, and by
    /// the exclusivity clause of `wf` the only one.
    pub open spec fn owner_of(self, kitty_id: u32) -> u64 {
        choose|a: u64| self.collection(a).contains(kitty_id)
    }

    /// Every minted kitty sits in some collection: together with the
    /// exclusivity clause of `wf`, in exactly one.
    pub closed spec fn complete(self) -> bool {
        forall|k: u32|
            (k as int) < self.kitties@.len() ==> self.collection(
                #[trigger] self.owner_of(k),
            ).contains(k)
    }

    /// An empty ledger: no kitties, no collections, no listings.
    pub fn new() -> (r: Self)
        ensures
            r.wf(),
            r.complete(),
            r.kitties_seq().len() == 0,
            r.listings_seq().len() == 0,
            forall|a: u64| (#[trigger] r.collection(a)).len() == 0,
    {
        Module { kitties: Vec::new(), owned: OwnedKitties::new(), listings: Vec::new() }
    }

    /// The number of minted kitties, which is also the next id.
    pub fn kitties_count(&self) -> (r: u32)
        requires
            self.wf(),
        ensures
            r == self.kitties_seq().len(),
    {
        self.kitties.len() as u32
    }

    /// The record of a kitty, `None` when the id was never minted.
    pub fn kitty(&self, kitty_id: u32) -> (r: Option<Kitty>)
        requires
            self.wf(),
        ensures
            self.minted(kitty_id) ==> r == Some(self.kitties_seq()[kitty_id as int]),
            !self.minted(kitty_id) ==> r is None,
    {
        if (kitty_id as usize) < self.kitties.len() {
            Some(self.kitties[kitty_id as usize])
        } else {
            None
        }
    }

    /// The active listing of a kitty, `None` when it is not for sale.
    pub fn kitty_price(&self, kitty_id: u32) -> (r: Option<KittyInSale>)
        requires
            self.wf(),
        ensures
            r == self.listing(kitty_id),
    {
        if (kitty_id as usize) < self.listings.len() {
            self.listings[kitty_id as usize]
        } else {
            None
        }
    }

    /// Whether `owner` currently holds `kitty_id`.
    pub fn owns(&self, owner: u64, kitty_id: u32) -> (r: bool)
        requires
            self.wf(),
        ensures
            r == self.collection(owner).contains(kitty_id),
    {
        self.owned.contains(owner, kitty_id)
    }

    /// The ids `owner` holds, newest first: the enumeration order of the
    /// ownership index.
    pub fn owned_kitties(&self, owner: u64) -> (r: Vec<u32>)
        requires
            self.wf(),
        ensures
            r@ == self.collection(owner).reverse(),
    {
        self.owned.iterate(owner)
    }

    /// The next free id, or `CapacityExhausted` when the counter is at
    /// its maximum.
    fn next_kitty_id(&self) -> (r: Result<u32, Error>)
        requires
            self.wf(),
        ensures
            self.kitties_seq().len() < u32::MAX as int ==> r == Ok::<u32, Error>(
                self.kitties_seq().len() as u32,
            ),
            self.kitties_seq().len() == u32::MAX as int ==> r == Err::<u32, Error>(
                Error::CapacityExhausted,
            ),
    {
        let count = self.kitties.len();
        if count == u32::MAX as usize {
            Err(Error::CapacityExhausted)
        } else {
            Ok(count as u32)
        }
    }

    /// Links an already minted, still unowned kitty into `owner`'s
    /// collection.
    pub fn insert_owned_kitty(&mut self, owner: u64, kitty_id: u32)
        requires
            old(self).wf(),
            old(self).minted(kitty_id),
            forall|a: u64| !(#[trigger] old(self).collection(a)).contains(kitty_id),
        ensures
            final(self).wf(),
            final(self).kitties_seq() == old(self).kitties_seq(),
            final(self).listings_seq() == old(self).listings_seq(),
            final(self).collection(owner) == old(self).collection(owner).push(kitty_id),
            forall|a: u64|
                a != owner ==> #[trigger] final(self).collection(a) == old(self).collection(a),
    {
        proof {
            assert(!old(self).collection(owner).contains(kitty_id));
        }
        self.owned.append(owner, kitty_id);
        proof {
            let post = *self;
            let pre = *old(self);
            assert(post.collection(owner) == pre.collection(owner).push(kitty_id));
            assert forall|a: u64| a != owner implies #[trigger] post.collection(a)
                == pre.collection(a) by {}
            assert forall|a: u64, v: u32|
                #[trigger] post.collection(a).contains(v) implies (pre.collection(a).contains(v)
                || (a == owner && v == kitty_id)) by {
                if a == owner {
                    let i: int = choose|i: int|
                        0 <= i < post.collection(a).len() && post.collection(a)[i] == v;
                    if i < pre.collection(a).len() {
                        assert(pre.collection(a)[i] == v);
                    }
                }
            }
            assert forall|a: u64, v: u32|
                #[trigger] pre.collection(a).contains(v) implies post.collection(a).contains(
                v,
            ) by {
                let i: int = choose|i: int|
                    0 <= i < pre.collection(a).len() && pre.collection(a)[i] == v;
                assert(post.collection(a)[i] == v);
            }
            assert forall|a: u64, i: int| 0 <= i < post.collection(a).len() implies (
            #[trigger] post.collection(a)[i]) < post.kitties@.len() by {
                if a == owner && i == pre.collection(a).len() {
                    assert(post.collection(a)[i] == kitty_id);
                } else {
                    assert(pre.collection(a)[i] == post.collection(a)[i]);
                }
            }
            assert forall|a1: u64, a2: u64, k: u32|
                #[trigger] post.collection(a1).contains(k) && #[trigger] post.collection(
                a2,
            ).contains(k) implies a1 == a2 by {
                if k == kitty_id {
                    assert(!pre.collection(a1).contains(k));
                    assert(!pre.collection(a2).contains(k));
                } else {
                    assert(pre.collection(a1).contains(k));
                    assert(pre.collection(a2).contains(k));
                }
            }
            assert forall|i: int| 0 <= i < post.listings@.len() implies match #[trigger] post
                .listings@[i] {
                Some(l) => l.price == post.kitties@[i].price && l.price > 0 && (match l.owned {
                    Some(sl) => post.collection(sl).contains(i as u32),
                    None => false,
                }),
                None => post.kitties@[i].price == 0,
            } by {
                match post.listings@[i] {
                    Some(l) => {
                        match l.owned {
                            Some(sl) => {
                                assert(pre.collection(sl).contains(i as u32));
                            },
                            None => {},
                        }
                    },
                    None => {},
                }
            }
        }
    }

    fn insert_kitty(&mut self, owner: u64, kitty_id: u32, kitty: Kitty)
        requires
            old(self).wf(),
            old(self).complete(),
            kitty_id as int == old(self).kitties_seq().len(),
            (kitty_id as int) < u32::MAX as int,
            kitty.price == 0,
            kitty.gen <= kitty_id,
        ensures
            final(self).wf(),
            final(self).complete(),
            final(self).kitties_seq() == old(self).kitties_seq().push(kitty),
            final(self).listings_seq() == old(self).listings_seq().push(None),
            final(self).collection(owner) == old(self).collection(owner).push(kitty_id),
            forall|a: u64|
                a != owner ==> #[trigger] final(self).collection(a) == old(self).collection(a),
    {
        self.kitties.push(kitty);
        self.listings.push(None);
        proof {
            let pre = *old(self);
            let mid = *self;
            assert forall|a: u64| #[trigger] mid.collection(a) == pre.collection(a) by {}
            assert forall|a: u64, i: int| 0 <= i < mid.collection(a).len() implies (
            #[trigger] mid.collection(a)[i]) < mid.kitties@.len() by {
                assert(pre.collection(a)[i] < pre.kitties@.len());
            }
            assert forall|i: int| 0 <= i < mid.listings@.len() implies match #[trigger] mid
                .listings@[i] {
                Some(l) => l.price == mid.kitties@[i].price && l.price > 0 && (match l.owned {
                    Some(sl) => mid.collection(sl).contains(i as u32),
                    None => false,
                }),
                None => mid.kitties@[i].price == 0,
            } by {
                if i < pre.listings@.len() {
                    assert(pre.listings@[i] == mid.listings@[i]);
                    assert(pre.kitties@[i] == mid.kitties@[i]);
                }
            }
            assert(mid.wf());
            assert forall|a: u64| !(#[trigger] mid.collection(a)).contains(kitty_id) by {
                if mid.collection(a).contains(kitty_id) {
                    let i: int = choose|i: int|
                        0 <= i < mid.collection(a).len() && mid.collection(a)[i] == kitty_id;
                    assert(pre.collection(a)[i] < pre.kitties@.len());
                }
            }
        }
        self.insert_owned_kitty(owner, kitty_id);
        proof {
            let pre = *old(self);
            let post = *self;
            assert(post.complete()) by {
                assert forall|k: u32| (k as int) < post.kitties@.len() implies post.collection(
                    #[trigger] post.owner_of(k),
                ).contains(k) by {
                    if (k as int) < pre.kitties@.len() {
                        let a = pre.owner_of(k);
                        assert(pre.collection(a).contains(k));
                        let j: int = choose|j: int|
                            0 <= j < pre.collection(a).len() && pre.collection(a)[j] == k;
                        if a == owner {
                            assert(post.collection(a)[j] == k);
                        }
                        assert(post.collection(a).contains(k));
                    } else {
                        assert(k == kitty_id);
                        assert(post.collection(owner)[pre.collection(owner).len() as int]
                            == kitty_id);
                        assert(post.collection(owner).contains(k));
                    }
                }
            }
        }
    }

    /// Mints a fresh kitty for `sender`: generation zero, not for sale,
    /// with the DNA the entropy collaborator supplied for this call.
    /// Fails only with `CapacityExhausted`, when every id is taken.
    pub fn create(&mut self, sender: u64, dna: [u8; 16]) -> (r: Result<u32, Error>)
        requires
            old(self).wf(),
            old(self).complete(),
        ensures
            final(self).wf(),
            final(self).complete(),
            old(self).kitties_seq().len() == u32::MAX as int ==> r == Err::<u32, Error>(
                Error::CapacityExhausted,
            ) && *final(self) == *old(self),
            old(self).kitties_seq().len() < u32::MAX as int ==> ({
                let id = old(self).kitties_seq().len() as u32;
                &&& r == Ok::<u32, Error>(id)
                &&& final(self).kitties_seq() == old(self).kitties_seq().push(
                    kitty_record(dna, 0, 0),
                )
                &&& final(self).listings_seq() == old(self).listings_seq().push(None)
                &&& final(self).collection(sender) == old(self).collection(sender).push(id)
                &&& forall|a: u64|
                    a != sender ==> #[trigger] final(self).collection(a) == old(self).collection(a)
            }),
    {
        let kitty_id = match self.next_kitty_id() {
            Ok(id) => id,
            Err(e) => {
                return Err(e);
            },
        };
        let kitty = Kitty::new(dna, 0, 0);
        self.insert_kitty(sender, kitty_id, kitty);
        Ok(kitty_id)
    }

    /// Breeds a child of two existing, distinct parents for `sender`: its
    /// DNA mixes the parents' DNA bit by bit under the selector the
    /// entropy collaborator supplied, its generation is one more than the
    /// older parent's, and it is not for sale.  Parents need not belong
    /// to the caller.
    pub fn breed(
        &mut self,
        sender: u64,
        kitty_id_1: u32,
        kitty_id_2: u32,
        selector: [u8; 16],
    ) -> (r: Result<u32, Error>)
        requires
            old(self).wf(),
            old(self).complete(),
        ensures
            final(self).wf(),
            final(self).complete(),
            (!old(self).minted(kitty_id_1) || !old(self).minted(kitty_id_2)) ==> r == Err::<
                u32,
                Error,
            >(Error::NotFound) && *final(self) == *old(self),
            old(self).minted(kitty_id_1) && old(self).minted(kitty_id_2) && kitty_id_1
                == kitty_id_2 ==> r == Err::<u32, Error>(Error::IdenticalParents) && *final(self)
                == *old(self),
            old(self).minted(kitty_id_1) && old(self).minted(kitty_id_2) && kitty_id_1
                != kitty_id_2 && old(self).kitties_seq().len() == u32::MAX as int ==> r == Err::<
                u32,
                Error,
            >(Error::CapacityExhausted) && *final(self) == *old(self),
            old(self).minted(kitty_id_1) && old(self).minted(kitty_id_2) && kitty_id_1
                != kitty_id_2 && old(self).kitties_seq().len() < u32::MAX as int ==> ({
                let id = old(self).kitties_seq().len() as u32;
                let parent1 = old(self).kitties_seq()[kitty_id_1 as int];
                let parent2 = old(self).kitties_seq()[kitty_id_2 as int];
                let child = final(self).kitties_seq().last();
                &&& r == Ok::<u32, Error>(id)
                &&& final(self).kitties_seq() == old(self).kitties_seq().push(child)
                &&& child.dna@ == mixed_dna(parent1.dna@, parent2.dna@, selector@)
                &&& child.gen == (if parent1.gen >= parent2.gen {
                    parent1.gen
                } else {
                    parent2.gen
                }) + 1
                &&& child.price == 0
                &&& final(self).listings_seq() == old(self).listings_seq().push(None)
                &&& final(self).collection(sender) == old(self).collection(sender).push(id)
                &&& forall|a: u64|
                    a != sender ==> #[trigger] final(self).collection(a) == old(self).collection(a)
            }),
    {
        let kitty1 = match self.kitty(kitty_id_1) {
            Some(k) => k,
            None => {
                return Err(Error::NotFound);
            },
        };
        let kitty2 = match self.kitty(kitty_id_2) {
            Some(k) => k,
            None => {
                return Err(Error::NotFound);
            },
        };
        if kitty_id_1 == kitty_id_2 {
            return Err(Error::IdenticalParents);
        }
        let kitty_id = match self.next_kitty_id() {
            Ok(id) => id,
            Err(e) => {
                return Err(e);
            },
        };
        let higher_gen = if kitty1.gen >= kitty2.gen {
            kitty1.gen
        } else {
            kitty2.gen
        };
        proof {
            assert(self.kitties@[kitty_id_1 as int].gen <= kitty_id_1 as int);
            assert(self.kitties@[kitty_id_2 as int].gen <= kitty_id_2 as int);
        }
        let new_dna = mix_dna(&kitty1.dna, &kitty2.dna, &selector);
        let kitty = Kitty::new(new_dna, higher_gen + 1, 0);
        self.insert_kitty(sender, kitty_id, kitty);
        Ok(kitty_id)
    }

    /// Moves a kitty from `sender`'s collection to `to`'s and invalidates
    /// any sale listing it had: a change of ownership always takes the
    /// kitty off the market.
    pub fn transfer(&mut self, sender: u64, to: u64, kitty_id: u32) -> (r: Result<(), Error>)
        requires
            old(self).wf(),
            old(self).complete(),
        ensures
            final(self).wf(),
            final(self).complete(),
            !old(self).minted(kitty_id) ==> r == Err::<(), Error>(Error::NotFound) && *final(self)
                == *old(self),
            old(self).minted(kitty_id) && !old(self).collection(sender).contains(kitty_id) ==> r
                == Err::<(), Error>(Error::NotOwned) && *final(self) == *old(self),
            old(self).minted(kitty_id) && old(self).collection(sender).contains(kitty_id) && to
                == sender ==> r == Err::<(), Error>(Error::SelfTransfer) && *final(self) == *old(
                self,
            ),
            old(self).minted(kitty_id) && old(self).collection(sender).contains(kitty_id) && to
                != sender ==> ({
                let record = old(self).kitties_seq()[kitty_id as int];
                &&& r == Ok::<(), Error>(())
                &&& final(self).collection(to) == old(self).collection(to).push(kitty_id)
                &&& final(self).collection(sender) == old(self).collection(sender).remove_value(
                    kitty_id,
                )
                &&& forall|a: u64|
                    a != sender && a != to ==> #[trigger] final(self).collection(a) == old(
                        self,
                    ).collection(a)
                &&& final(self).kitties_seq() == old(self).kitties_seq().update(
                    kitty_id as int,
                    kitty_record(record.dna, record.gen, 0),
                )
                &&& final(self).listings_seq() == old(self).listings_seq().update(
                    kitty_id as int,
                    None,
                )
            }),
    {
        if (kitty_id as usize) >= self.kitties.len() {
            return Err(Error::NotFound);
        }
        if !self.owned.contains(sender, kitty_id) {
            return Err(Error::NotOwned);
        }
        if sender == to {
            return Err(Error::SelfTransfer);
        }
        proof {
            if old(self).collection(to).contains(kitty_id) {
                assert(old(self).collection(sender).contains(kitty_id));
                assert(to == sender);
            }
        }
        self.owned.append(to, kitty_id);
        self.owned.remove(sender, kitty_id);
        let record = self.kitties[kitty_id as usize];
        self.kitties.set(kitty_id as usize, Kitty { dna: record.dna, gen: record.gen, price: 0 });
        self.listings.set(kitty_id as usize, None);
        proof {
            self.lemma_transfer_wf(*old(self), sender, to, kitty_id);
        }
        Ok(())
    }

    /// Puts a kitty the caller owns up for sale at a nonzero price: the
    /// record's price is set and the ledger gets the listing, replacing
    /// any previous one.
    pub fn set_price(&mut self, sender: u64, kitty_id: u32, price: u64) -> (r: Result<(), Error>)
        requires
            old(self).wf(),
            old(self).complete(),
        ensures
            final(self).wf(),
            final(self).complete(),
            !old(self).minted(kitty_id) ==> r == Err::<(), Error>(Error::NotFound) && *final(self)
                == *old(self),
            old(self).minted(kitty_id) && !old(self).collection(sender).contains(kitty_id) ==> r
                == Err::<(), Error>(Error::NotOwned) && *final(self) == *old(self),
            old(self).minted(kitty_id) && old(self).collection(sender).contains(kitty_id) && price
                == 0 ==> r == Err::<(), Error>(Error::InvalidPrice) && *final(self) == *old(self),
            old(self).minted(kitty_id) && old(self).collection(sender).contains(kitty_id) && price
                > 0 ==> ({
                let record = old(self).kitties_seq()[kitty_id as int];
                &&& r == Ok::<(), Error>(())
                &&& final(self).kitties_seq() == old(self).kitties_seq().update(
                    kitty_id as int,
                    kitty_record(record.dna, record.gen, price),
                )
                &&& final(self).listings_seq() == old(self).listings_seq().update(
                    kitty_id as int,
                    Some(sale_record(Some(sender), price)),
                )
                &&& forall|a: u64| #[trigger] final(self).collection(a) == old(self).collection(a)
            }),
    {
        if (kitty_id as usize) >= self.kitties.len() {
            return Err(Error::NotFound);
        }
        if !self.owned.contains(sender, kitty_id) {
            return Err(Error::NotOwned);
        }
        if price == 0 {
            return Err(Error::InvalidPrice);
        }
        let record = self.kitties[kitty_id as usize];
        self.kitties.set(
            kitty_id as usize,
            Kitty { dna: record.dna, gen: record.gen, price },
        );
        self.listings.set(kitty_id as usize, Some(KittyInSale { owned: Some(sender), price }));
        proof {
            self.lemma_relist_wf(*old(self), sender, kitty_id, price);
        }
        Ok(())
    }

    /// Takes a kitty the caller owns off the market; doing so when it was
    /// not for sale is a harmless no-op on the ledger.
    pub fn remove_price(&mut self, sender: u64, kitty_id: u32) -> (r: Result<(), Error>)
        requires
            old(self).wf(),
            old(self).complete(),
        ensures
            final(self).wf(),
            final(self).complete(),
            !old(self).minted(kitty_id) ==> r == Err::<(), Error>(Error::NotFound) && *final(self)
                == *old(self),
            old(self).minted(kitty_id) && !old(self).collection(sender).contains(kitty_id) ==> r
                == Err::<(), Error>(Error::NotOwned) && *final(self) == *old(self),
            old(self).minted(kitty_id) && old(self).collection(sender).contains(kitty_id) ==> ({
                let record = old(self).kitties_seq()[kitty_id as int];
                &&& r == Ok::<(), Error>(())
                &&& final(self).kitties_seq() == old(self).kitties_seq().update(
                    kitty_id as int,
                    kitty_record(record.dna, record.gen, 0),
                )
                &&& final(self).listings_seq() == old(self).listings_seq().update(
                    kitty_id as int,
                    None,
                )
                &&& forall|a: u64| #[trigger] final(self).collection(a) == old(self).collection(a)
            }),
    {
        if (kitty_id as usize) >= self.kitties.len() {
            return Err(Error::NotFound);
        }
        if !self.owned.contains(sender, kitty_id) {
            return Err(Error::NotOwned);
        }
        let record = self.kitties[kitty_id as usize];
        self.kitties.set(kitty_id as usize, Kitty { dna: record.dna, gen: record.gen, price: 0 });
        self.listings.set(kitty_id as usize, None);
        proof {
            self.lemma_relist_wf(*old(self), sender, kitty_id, 0);
        }
        Ok(())
    }

    /// A listing change of `kitty_id` by its owner (price zero meaning
    /// delisting) preserves the state invariant and total ownership.
    proof fn lemma_relist_wf(self, pre: Self, sender: u64, kitty_id: u32, price: u64)
        requires
            pre.wf(),
            pre.complete(),
            pre.minted(kitty_id),
            pre.collection(sender).contains(kitty_id),
            self.owned == pre.owned,
            self.kitties@ == pre.kitties@.update(
                kitty_id as int,
                kitty_record(
                    pre.kitties@[kitty_id as int].dna,
                    pre.kitties@[kitty_id as int].gen,
                    price,
                ),
            ),
            self.listings@ == pre.listings@.update(
                kitty_id as int,
                if price == 0 {
                    None
                } else {
                    Some(sale_record(Some(sender), price))
                },
            ),
        ensures
            self.wf(),
            self.complete(),
            forall|a: u64| #[trigger] self.collection(a) == pre.collection(a),
    {
        assert forall|a: u64| #[trigger] self.collection(a) == pre.collection(a) by {}
        assert forall|a: u64, i: int| 0 <= i < self.collection(a).len() implies (
        #[trigger] self.collection(a)[i]) < self.kitties@.len() by {
            assert(pre.collection(a)[i] < pre.kitties@.len());
        }
        assert forall|a1: u64, a2: u64, k: u32|
            #[trigger] self.collection(a1).contains(k) && #[trigger] self.collection(a2).contains(
            k,
        ) implies a1 == a2 by {
            assert(pre.collection(a1).contains(k));
            assert(pre.collection(a2).contains(k));
        }
        assert forall|i: int| 0 <= i < self.listings@.len() implies match #[trigger] self
            .listings@[i] {
            Some(l) => l.price == self.kitties@[i].price && l.price > 0 && (match l.owned {
                Some(sl) => self.collection(sl).contains(i as u32),
                None => false,
            }),
            None => self.kitties@[i].price == 0,
        } by {
            if i == kitty_id as int {
                assert(self.collection(sender) == pre.collection(sender));
            } else {
                assert(self.listings@[i] == pre.listings@[i]);
                assert(self.kitties@[i] == pre.kitties@[i]);
                match pre.listings@[i] {
                    Some(l) => {
                        match l.owned {
                            Some(sl) => {
                                assert(pre.collection(sl).contains(i as u32));
                            },
                            None => {},
                        }
                    },
                    None => {},
                }
            }
        }
        assert(self.complete()) by {
            assert forall|k: u32| (k as int) < self.kitties@.len() implies self.collection(
                #[trigger] self.owner_of(k),
            ).contains(k) by {
                let a = pre.owner_of(k);
                assert(pre.collection(a).contains(k));
                assert(self.collection(a).contains(k));
            }
        }
    }

    /// What a purchase attempt is answered, before any payment: the
    /// seller and price of the active listing, or the exact rejection.
    pub open spec fn buy_check(self, sender: u64, kitty_id: u32) -> Result<(u64, u64), Error> {
        if !self.minted(kitty_id) {
            Err(Error::NotFound)
        } else {
            match self.listing(kitty_id) {
                None => Err(Error::NotForSale),
                Some(l) => match l.owned {
                    None => Err(Error::NotForSale),
                    Some(seller) => if seller == sender {
                        Err(Error::BuyOwnAsset)
                    } else {
                        Ok((seller, l.price))
                    },
                },
            }
        }
    }

    /// Checks a purchase without touching anything: on `Ok` the returned
    /// seller and price are what the payment collaborator must settle
    /// before `do_buy` completes the sale.
    pub fn check_buy(&self, sender: u64, kitty_id: u32) -> (r: Result<(u64, u64), Error>)
        requires
            self.wf(),
        ensures
            r == self.buy_check(sender, kitty_id),
    {
        if (kitty_id as usize) >= self.kitties.len() {
            return Err(Error::NotFound);
        }
        match self.kitty_price(kitty_id) {
            None => Err(Error::NotForSale),
            Some(l) => match l.owned {
                None => Err(Error::NotForSale),
                Some(seller) => {
                    if seller == sender {
                        Err(Error::BuyOwnAsset)
                    } else {
                        Ok((seller, l.price))
                    }
                },
            },
        }
    }

    /// Completes a purchase whose payment has been settled: the kitty
    /// moves from the seller's collection to the buyer's and leaves the
    /// market.  Re-checks everything `check_buy` checks and mutates
    /// nothing on rejection.
    pub fn do_buy(&mut self, sender: u64, kitty_id: u32) -> (r: Result<(u64, u64), Error>)
        requires
            old(self).wf(),
            old(self).complete(),
        ensures
            final(self).wf(),
            final(self).complete(),
            r == old(self).buy_check(sender, kitty_id),
            r is Err ==> *final(self) == *old(self),
            r is Ok ==> ({
                let seller = r->Ok_0.0;
                let record = old(self).kitties_seq()[kitty_id as int];
                &&& old(self).listing(kitty_id) == Some(sale_record(Some(seller), r->Ok_0.1))
                &&& final(self).collection(sender) == old(self).collection(sender).push(kitty_id)
                &&& final(self).collection(seller) == old(self).collection(seller).remove_value(
                    kitty_id,
                )
                &&& forall|a: u64|
                    a != seller && a != sender ==> #[trigger] final(self).collection(a) == old(
                        self,
                    ).collection(a)
                &&& final(self).kitties_seq() == old(self).kitties_seq().update(
                    kitty_id as int,
                    kitty_record(record.dna, record.gen, 0),
                )
                &&& final(self).listings_seq() == old(self).listings_seq().update(
                    kitty_id as int,
                    None,
                )
            }),
    {
        let (seller, price) = match self.check_buy(sender, kitty_id) {
            Ok(p) => p,
            Err(e) => {
                return Err(e);
            },
        };
        proof {
            assert(old(self).collection(seller).contains(kitty_id));
        }
        match self.transfer(seller, sender, kitty_id) {
            Ok(()) => Ok((seller, price)),
            Err(e) => Err(e),
        }
    }

    /// Ownership exclusivity: at any observation point an id sits in at
    /// most one account's collection.
    pub proof fn lemma_ownership_exclusive(self, a1: u64, a2: u64, kitty_id: u32)
        requires
            self.wf(),
            self.collection(a1).contains(kitty_id),
            self.collection(a2).contains(kitty_id),
        ensures
            a1 == a2,
    {
    }

    /// Listing invalidation: while a kitty has no active listing — as
    /// right after any transfer of it — every purchase attempt, by
    /// anyone, is rejected with `NotForSale`.
    pub proof fn lemma_listing_invalidation(self, buyer: u64, kitty_id: u32)
        requires
            self.minted(kitty_id),
            self.listing(kitty_id) is None,
        ensures
            self.buy_check(buyer, kitty_id) == Err::<(u64, u64), Error>(Error::NotForSale),
    {
    }

    /// The splice of `transfer` (and of `do_buy`) preserves the state
    /// invariant and total ownership.
    proof fn lemma_transfer_wf(self, pre: Self, sender: u64, to: u64, kitty_id: u32)
        requires
            pre.wf(),
            pre.complete(),
            pre.minted(kitty_id),
            pre.collection(sender).contains(kitty_id),
            to != sender,
            self.owned.wf(),
            self.owned.lists_map() == pre.owned.lists_map().insert(
                to,
                pre.collection(to).push(kitty_id),
            ).insert(sender, pre.collection(sender).remove_value(kitty_id)),
            self.kitties@ == pre.kitties@.update(
                kitty_id as int,
                kitty_record(
                    pre.kitties@[kitty_id as int].dna,
                    pre.kitties@[kitty_id as int].gen,
                    0,
                ),
            ),
            self.listings@ == pre.listings@.update(kitty_id as int, None),
        ensures
            self.wf(),
            self.complete(),
            self.collection(to) == pre.collection(to).push(kitty_id),
            self.collection(sender) == pre.collection(sender).remove_value(kitty_id),
            forall|a: u64|
                a != sender && a != to ==> #[trigger] self.collection(a) == pre.collection(a),
    {
        let s = pre.collection(sender);
        let s2 = s.remove_value(kitty_id);
        pre.owned.lemma_wf_no_duplicates(sender);
        crate::linked_item::lemma_remove_value_semantics(s, kitty_id);
        assert(self.collection(sender) == s2);
        assert(self.collection(to) == pre.collection(to).push(kitty_id));

        assert forall|a: u64, v: u32|
            #[trigger] self.collection(a).contains(v) implies (pre.collection(a).contains(v) || (a
            == to && v == kitty_id)) by {
            if a == to {
                let i: int = choose|i: int|
                    0 <= i < self.collection(a).len() && self.collection(a)[i] == v;
                if i < pre.collection(a).len() {
                    assert(pre.collection(a)[i] == v);
                }
            }
        }
        assert forall|a: u64, v: u32|
            #[trigger] pre.collection(a).contains(v) && !(a == sender && v == kitty_id) implies self
            .collection(a).contains(v) by {
            if a == to {
                let i: int = choose|i: int|
                    0 <= i < pre.collection(a).len() && pre.collection(a)[i] == v;
                assert(self.collection(a)[i] == v);
            }
        }

        assert forall|a: u64, i: int| 0 <= i < self.collection(a).len() implies (
        #[trigger] self.collection(a)[i]) < self.kitties@.len() by {
            let v = self.collection(a)[i];
            assert(self.collection(a).contains(v));
            if a == to && v == kitty_id {
                assert(v < self.kitties@.len());
            } else {
                assert(pre.collection(a).contains(v));
                let jv: int = choose|jv: int|
                    0 <= jv < pre.collection(a).len() && pre.collection(a)[jv] == v;
                assert(pre.collection(a)[jv] < pre.kitties@.len());
            }
        }

        assert forall|a1: u64, a2: u64, k: u32|
            #[trigger] self.collection(a1).contains(k) && #[trigger] self.collection(a2).contains(
            k,
        ) implies a1 == a2 by {
            if k == kitty_id {
                assert(!self.collection(sender).contains(k));
                if a1 != to {
                    assert(pre.collection(a1).contains(k));
                    assert(a1 == sender);
                }
                if a2 != to {
                    assert(pre.collection(a2).contains(k));
                    assert(a2 == sender);
                }
            } else {
                assert(pre.collection(a1).contains(k));
                assert(pre.collection(a2).contains(k));
            }
        }

        assert forall|i: int| 0 <= i < self.listings@.len() implies match #[trigger] self
            .listings@[i] {
            Some(l) => l.price == self.kitties@[i].price && l.price > 0 && (match l.owned {
                Some(sl) => self.collection(sl).contains(i as u32),
                None => false,
            }),
            None => self.kitties@[i].price == 0,
        } by {
            if i != kitty_id as int {
                assert(self.listings@[i] == pre.listings@[i]);
                assert(self.kitties@[i] == pre.kitties@[i]);
                match pre.listings@[i] {
                    Some(l) => {
                        match l.owned {
                            Some(sl) => {
                                assert(pre.collection(sl).contains(i as u32));
                                assert(!(sl == sender && i as u32 == kitty_id));
                            },
                            None => {},
                        }
                    },
                    None => {},
                }
            }
        }

        assert(self.complete()) by {
            assert forall|k: u32| (k as int) < self.kitties@.len() implies self.collection(
                #[trigger] self.owner_of(k),
            ).contains(k) by {
                if k == kitty_id {
                    assert(self.collection(to).contains(k)) by {
                        assert(self.collection(to)[pre.collection(to).len() as int] == k);
                    }
                } else {
                    let a = pre.owner_of(k);
                    assert(pre.collection(a).contains(k));
                    assert(self.collection(a).contains(k));
                }
            }
        }
    }
}

} // verus!
