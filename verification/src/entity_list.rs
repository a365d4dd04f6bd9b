//! The entity store: a slot-recycling pool with generation-tagged
//! identifiers, plus one optional bitset index per component kind.
//!
//! The pool is a growable array of [`Slot`]s. A slot either holds one entity
//! or is empty; its generation counter increases on every removal, so an
//! identifier issued before a removal can never address the reused slot
//! again. The index table caches, for each indexed component kind, the set
//! of slot positions whose entity currently has that component; the
//! well-formedness predicate [`EntityList::wf`] ties that cache to the live
//! contents after every sanctioned mutation.

use vstd::prelude::*;
use vstd::pervasive::unreached;
use hibitset::BitSet;

use crate::bits::{bitset_add, bitset_bits, bitset_elements, bitset_new, bitset_remove};
use crate::entity::{Component, EntityBase};
use crate::iter::{intersect_ascending, strictly_ascending};

verus! {

broadcast use vstd::seq_lib::lemma_seq_contains_after_push;

/// The largest number of slots the store supports: the bitset indices hold
/// one bit per slot and cap the usable positions.
pub const MAX_SLOTS: usize = 0x0100_0000;

/// A stable identifier for one entity: its slot position and the slot's
/// generation at the time of insertion.
#[derive(Debug, PartialEq, Eq, Structural, Clone, Copy)]
pub struct EntityId {
    /// The slot position in the pool.
    pub slot: usize,
    /// The generation the slot had when the entity was inserted.
    pub generation: u64,
}

/// One storage position of the pool: a generation counter and the entity
/// held there, if any.
#[derive(Debug, PartialEq, Eq, Clone)]
pub struct Slot<E> {
    /// Increases on every removal at this position.
    pub generation: u64,
    /// The entity currently stored here, if the slot is occupied.
    pub value: Option<E>,
}

/// The store holding a list of entities, addressed by [`EntityId`]s and
/// indexed per component kind.
#[derive(Clone)]
pub struct EntityList<E: EntityBase> {
    slots: Vec<Slot<E>>,
    free: Vec<usize>,
    live: usize,
    bitsets: Vec<Option<BitSet>>,
    kinds: u32,
}

/// The number of occupied slots in a pool.
pub open spec fn occupied_count<E>(s: Seq<Slot<E>>) -> nat
    decreases s.len(),
{
    if s.len() == 0 {
        0
    } else {
        occupied_count(s.drop_last()) + if s.last().value is Some {
            1nat
        } else {
            0nat
        }
    }
}

proof fn lemma_count_push<E>(s: Seq<Slot<E>>, v: Slot<E>)
    ensures
        occupied_count(s.push(v)) == occupied_count(s) + if v.value is Some {
            1nat
        } else {
            0nat
        },
{
    assert(s.push(v).drop_last() =~= s);
}

proof fn lemma_count_update<E>(s: Seq<Slot<E>>, i: int, v: Slot<E>)
    requires
        0 <= i < s.len(),
    ensures
        occupied_count(s.update(i, v)) + (if s[i].value is Some {
            1nat
        } else {
            0nat
        }) == occupied_count(s) + if v.value is Some {
            1nat
        } else {
            0nat
        },
    decreases s.len(),
{
    let t = s.update(i, v);
    if i == s.len() - 1 {
        assert(t.drop_last() =~= s.drop_last());
        assert(t.last() == v);
    } else {
        assert(t.drop_last() =~= s.drop_last().update(i, v));
        lemma_count_update(s.drop_last(), i, v);
        assert(t.last() == s.last());
    }
}

proof fn lemma_count_le_len<E>(s: Seq<Slot<E>>)
    ensures
        occupied_count(s) <= s.len(),
    decreases s.len(),
{
    if s.len() > 0 {
        lemma_count_le_len(s.drop_last());
    }
}

impl<E: EntityBase> EntityList<E> {
    /// The pool contents: one [`Slot`] per position.
    pub closed spec fn slots_seq(self) -> Seq<Slot<E>> {
        self.slots@
    }

    /// The number of slots the pool has grown to.
    pub open spec fn num_slots(self) -> int {
        self.slots_seq().len() as int
    }

    /// The generation of slot `s`.
    pub open spec fn gen_of(self, s: int) -> u64 {
        self.slots_seq()[s].generation
    }

    /// The entity stored at slot `s`, if any.
    pub open spec fn val_at(self, s: int) -> Option<E> {
        self.slots_seq()[s].value
    }

    /// Whether slot `s` currently holds an entity.
    pub open spec fn occupied(self, s: int) -> bool {
        0 <= s < self.num_slots() && self.val_at(s) is Some
    }

    /// The entity stored at slot `s`; meaningful only when `occupied(s)`.
    pub open spec fn entity_at(self, s: int) -> E {
        self.val_at(s)->0
    }

    /// Whether `id` currently refers to a live entity.
    pub open spec fn spec_contains(self, id: EntityId) -> bool {
        self.occupied(id.slot as int) && self.gen_of(id.slot as int) == id.generation
    }

    /// Whether slot `s` holds an entity that has component kind `k`.
    pub open spec fn has_at(self, s: int, k: int) -> bool {
        self.occupied(s) && self.entity_at(s).spec_has(k)
    }

    /// The number of live entities.
    pub open spec fn spec_len(self) -> nat {
        occupied_count(self.slots_seq())
    }

    /// Whether `id` is permanently dead: its slot's generation has moved
    /// past it, so no later insertion can make it live again.
    pub open spec fn retired(self, id: EntityId) -> bool {
        0 <= id.slot < self.num_slots() && self.gen_of(id.slot as int) > id.generation
    }

    /// The pool of `post` is a possible future of the pool of `pre`: slots
    /// are never discarded and generations never decrease. Every mutating
    /// operation ensures this relation between its pre- and post-state.
    pub open spec fn progressed_from(self, pre: Self) -> bool {
        &&& pre.num_slots() <= self.num_slots()
        &&& forall|s: int|
            0 <= s < pre.num_slots() ==> self.gen_of(s) >= pre.gen_of(s)
    }

    /// The number of declared component kinds, as stored at construction.
    pub closed spec fn spec_kinds(self) -> int {
        self.kinds as int
    }

    /// Whether component kind `k` currently has a bitset index.
    pub closed spec fn spec_indexed(self, k: int) -> bool {
        0 <= k < self.bitsets@.len() && self.bitsets@[k] is Some
    }

    /// The contents of kind `k`'s bitset index; meaningful only when
    /// `spec_indexed(k)`.
    pub closed spec fn index_bits(self, k: int) -> Set<u32> {
        bitset_bits(self.bitsets@[k]->0)
    }

    /// One position of one index is correct: the bit for slot `s` is set
    /// exactly when the entity at `s` has component kind `k`.
    pub open spec fn index_ok_at(self, k: int, s: u32) -> bool {
        self.index_bits(k).contains(s) == self.has_at(s as int, k)
    }

    /// Kind `k`'s index is correct at every position.
    pub open spec fn index_ok_for(self, k: int) -> bool {
        forall|s: u32| self.index_ok_at(k, s)
    }

    /// Everything except index correctness: the free list addresses only
    /// empty, reusable slots, occupied slots can still bump their
    /// generation, the live count matches the pool, and the index table has
    /// one entry per declared kind.
    pub closed spec fn wf_basic(self) -> bool {
        &&& self.slots@.len() <= MAX_SLOTS
        &&& self.kinds == E::comp_kinds()
        &&& self.bitsets@.len() == self.kinds
        &&& self.live == occupied_count(self.slots@)
        &&& forall|i: int|
            0 <= i < self.free@.len() ==> {
                &&& #[trigger] self.free@[i] < self.slots@.len()
                &&& self.slots@[self.free@[i] as int].value is None
                &&& self.slots@[self.free@[i] as int].generation < u64::MAX
            }
        &&& forall|i: int, j: int|
            0 <= i < j < self.free@.len() ==> self.free@[i] != self.free@[j]
        &&& forall|s: int|
            0 <= s < self.slots@.len() && self.slots@[s].value is Some
                ==> #[trigger] self.slots@[s].generation < u64::MAX
    }

    /// Every existing index is correct at every position other than slot
    /// `s0`: the shape an index table is left in after one record was
    /// mutated behind the store's back, and the precondition under which
    /// [`Self::refresh`] restores full well-formedness.
    pub open spec fn index_ok_except(self, s0: int) -> bool {
        forall|k: int|
            #[trigger] self.spec_indexed(k) ==> forall|t: u32|
                t as int != s0 ==> #[trigger] self.index_ok_at(k, t)
    }

    /// The store's full invariant: [`Self::wf_basic`], and every existing
    /// index reflects live component presence. This holds after every
    /// operation of the sanctioned mutation surface.
    pub open spec fn wf(self) -> bool {
        &&& self.wf_basic()
        &&& forall|k: int| self.spec_indexed(k) ==> #[trigger] self.index_ok_for(k)
    }

    /// Creates an empty store with an (empty) index for every declared
    /// component kind.
    pub fn new() -> (l: EntityList<E>)
        ensures
            l.wf(),
            l.num_slots() == 0,
            l.spec_len() == 0,
            forall|k: int| l.spec_indexed(k) <==> 0 <= k < E::comp_kinds(),
    {
        let kinds = E::num_kinds();
        let mut bitsets: Vec<Option<BitSet>> = Vec::new();
        let mut k: u32 = 0;
        while k < kinds
            invariant
                k <= kinds,
                bitsets@.len() == k,
                forall|i: int|
                    0 <= i < k ==> {
                        &&& #[trigger] bitsets@[i] is Some
                        &&& bitset_bits(bitsets@[i]->0) == Set::<u32>::empty()
                    },
            decreases kinds - k,
        {
            bitsets.push(Some(bitset_new()));
            k += 1;
        }
        EntityList { slots: Vec::new(), free: Vec::new(), live: 0, bitsets, kinds }
    }

    /// Returns true if `id` refers to a live entity.
    pub fn contains(&self, id: EntityId) -> (r: bool)
        ensures
            r == self.spec_contains(id),
    {
        id.slot < self.slots.len() && self.slots[id.slot].generation == id.generation
            && self.slots[id.slot].value.is_some()
    }

    /// Retrieves an entity immutably; `None` if `id` is stale or unknown.
    pub fn get(&self, id: EntityId) -> (r: Option<&E>)
        ensures
            r is Some <==> self.spec_contains(id),
            r matches Some(e) ==> *e == self.entity_at(id.slot as int),
    {
        if id.slot < self.slots.len() && self.slots[id.slot].generation == id.generation {
            self.slots[id.slot].value.as_ref()
        } else {
            None
        }
    }

    /// Retrieves the entity stored at a raw slot position together with its
    /// current identifier, or `None` if the slot is empty or out of range.
    /// This is the engine-facing accessor for resolving an index bit, which
    /// knows a position but not the generation.
    pub fn get_at(&self, slot: usize) -> (r: Option<(&E, EntityId)>)
        ensures
            r is Some <==> self.occupied(slot as int),
            r matches Some(p) ==> *p.0 == self.entity_at(slot as int) && p.1 == (EntityId {
                slot,
                generation: self.gen_of(slot as int),
            }),
    {
        if slot < self.slots.len() {
            match &self.slots[slot].value {
                Some(e) => Some((e, EntityId { slot, generation: self.slots[slot].generation })),
                None => None,
            }
        } else {
            None
        }
    }

    /// Inserts an entity, indexing its components, and returns the
    /// identifier of the new record. A free slot is reused when one exists;
    /// the pool grows otherwise. The pool must not yet have grown to
    /// [`MAX_SLOTS`] positions, the bitset indices' capacity.
    pub fn insert(&mut self, entity: E) -> (id: EntityId)
        requires
            old(self).wf(),
            old(self).num_slots() < MAX_SLOTS,
        ensures
            final(self).wf(),
            final(self).spec_contains(id),
            !old(self).spec_contains(id),
            final(self).entity_at(id.slot as int) == entity,
            final(self).spec_len() == old(self).spec_len() + 1,
            final(self).progressed_from(*old(self)),
            old(self).num_slots() <= final(self).num_slots() <= old(self).num_slots() + 1,
            id.slot < old(self).num_slots() ==> final(self).num_slots() == old(self).num_slots(),
            id.slot < final(self).num_slots(),
            forall|s: int|
                0 <= s < old(self).num_slots() && s != id.slot
                    ==> final(self).slots_seq()[s] == old(self).slots_seq()[s],
            forall|k: int| final(self).spec_indexed(k) == old(self).spec_indexed(k),
    {
        proof {
            lemma_count_le_len(self.slots@);
        }
        let s: usize;
        match self.free.pop() {
            Some(s0) => {
                proof {
                    assert(old(self).free@[old(self).free@.len() - 1] == s0);
                    lemma_count_update(
                        old(self).slots@,
                        s0 as int,
                        Slot { generation: old(self).slots@[s0 as int].generation, value: Some(entity) },
                    );
                }
                s = s0;
                let slot_ref = &mut self.slots[s];
                slot_ref.value = Some(entity);
            }
            None => {
                s = self.slots.len();
                proof {
                    lemma_count_push(old(self).slots@, Slot { generation: 0u64, value: Some(entity) });
                }
                self.slots.push(Slot { generation: 0, value: Some(entity) });
            }
        }
        let g = self.slots[s].generation;
        self.live = self.live + 1;
        let ghost mid = *self;
        proof {
            assert(!old(self).occupied(s as int));
            assert(mid.slots@[s as int] == Slot { generation: g, value: Some(entity) });
        }
        let kinds = self.kinds;
        let mut k: u32 = 0;
        while k < kinds
            invariant
                k <= kinds,
                s < mid.slots@.len() <= MAX_SLOTS,
                mid.wf_basic(),
                !old(self).occupied(s as int),
                mid.slots@[s as int] == (Slot { generation: g, value: Some(entity) }),
                old(self).slots@.len() <= mid.slots@.len() <= old(self).slots@.len() + 1,
                s < old(self).slots@.len() ==> mid.slots@.len() == old(self).slots@.len(),
                s < old(self).slots@.len() ==> old(self).slots@[s as int].generation == g,
                forall|t: int|
                    0 <= t < old(self).slots@.len() && t != s ==> mid.slots@[t] == old(
                        self,
                    ).slots@[t],
                occupied_count(mid.slots@) == occupied_count(old(self).slots@) + 1,
                self.slots@ == mid.slots@,
                self.free@ == mid.free@,
                self.live == mid.live,
                self.kinds == mid.kinds,
                kinds == mid.kinds,
                self.bitsets@.len() == kinds,
                mid.bitsets@ == old(self).bitsets@,
                old(self).bitsets@.len() == kinds,
                forall|k2: int| k <= k2 < kinds ==> self.bitsets@[k2] == old(self).bitsets@[k2],
                forall|k2: int|
                    0 <= k2 < k ==> (#[trigger] self.bitsets@[k2] is Some) == old(
                        self,
                    ).bitsets@[k2] is Some,
                forall|k2: int|
                    0 <= k2 < k && self.bitsets@[k2] is Some ==> bitset_bits(
                        #[trigger] self.bitsets@[k2]->0,
                    ) == if entity.spec_has(k2) {
                        bitset_bits(old(self).bitsets@[k2]->0).insert(s as u32)
                    } else {
                        bitset_bits(old(self).bitsets@[k2]->0)
                    },
            decreases kinds - k,
        {
            let h = match &self.slots[s].value {
                Some(ent) => ent.has_kind(k),
                None => false,
            };
            if h {
                match &mut self.bitsets[k as usize] {
                    Some(bs) => {
                        let _ = bitset_add(bs, s as u32);
                    }
                    None => {}
                }
            }
            k += 1;
        }
        proof {
            assert forall|k2: int| self.spec_indexed(k2) implies #[trigger] self.index_ok_for(
                k2,
            ) by {
                assert(old(self).spec_indexed(k2));
                assert(old(self).index_ok_for(k2));
                assert(0 <= k2 < kinds);
                assert(self.bitsets@[k2] is Some);
                assert(self.index_bits(k2) == bitset_bits(self.bitsets@[k2]->0));
                assert(bitset_bits(self.bitsets@[k2]->0) == if entity.spec_has(k2) {
                    bitset_bits(old(self).bitsets@[k2]->0).insert(s as u32)
                } else {
                    bitset_bits(old(self).bitsets@[k2]->0)
                });
                assert forall|t: u32| self.index_ok_at(k2, t) by {
                    assert(old(self).index_ok_at(k2, t));
                    if t == s as u32 {
                        assert(t as int == s as int);
                        assert(self.has_at(t as int, k2) == entity.spec_has(k2));
                        assert(!old(self).has_at(t as int, k2));
                    } else {
                        assert(t as int != s as int);
                        assert(self.has_at(t as int, k2) == old(self).has_at(t as int, k2));
                    }
                }
            }
        }
        EntityId { slot: s, generation: g }
    }

    /// Removes an entity, clearing its bits from every index. Returns the
    /// removed entity, or `None` if `id` is stale or unknown — a miss leaves
    /// the store untouched.
    pub fn remove(&mut self, id: EntityId) -> (r: Option<E>)
        requires
            old(self).wf(),
        ensures
            final(self).wf(),
            final(self).progressed_from(*old(self)),
            final(self).num_slots() == old(self).num_slots(),
            forall|k: int| final(self).spec_indexed(k) == old(self).spec_indexed(k),
            r is Some <==> old(self).spec_contains(id),
            !old(self).spec_contains(id) ==> *final(self) == *old(self),
            old(self).spec_contains(id) ==> {
                &&& r == Some(old(self).entity_at(id.slot as int))
                &&& !final(self).occupied(id.slot as int)
                &&& final(self).retired(id)
                &&& !final(self).spec_contains(id)
                &&& final(self).spec_len() + 1 == old(self).spec_len()
                &&& forall|s: int|
                    0 <= s < final(self).num_slots() && s != id.slot
                        ==> final(self).slots_seq()[s] == old(self).slots_seq()[s]
            },
    {
        if !(id.slot < self.slots.len() && self.slots[id.slot].generation == id.generation
            && self.slots[id.slot].value.is_some()) {
            return None;
        }
        let s = id.slot;
        let g = self.slots[s].generation;
        proof {
            assert(old(self).occupied(s as int));
            assert(g < u64::MAX);
            lemma_count_update(
                old(self).slots@,
                s as int,
                Slot { generation: (g + 1) as u64, value: None },
            );
        }
        let e = match self.slots[s].value.take() {
            Some(e) => e,
            None => unreached(),
        };
        let slot_ref = &mut self.slots[s];
        slot_ref.generation = g + 1;
        proof {
            assert(self.slots@ =~= old(self).slots@.update(
                s as int,
                Slot { generation: (g + 1) as u64, value: None::<E> },
            ));
        }
        self.live = self.live - 1;
        if g + 1 < u64::MAX {
            proof {
                assert forall|i: int| 0 <= i < self.free@.len() implies self.free@[i] != s by {
                    assert(old(self).slots@[old(self).free@[i] as int].value is None);
                }
            }
            self.free.push(s);
        }
        let ghost mid = *self;
        let ghost removed = e;
        let kinds = self.kinds;
        let mut k: u32 = 0;
        while k < kinds
            invariant
                k <= kinds,
                s < mid.slots@.len() <= MAX_SLOTS,
                mid.wf_basic(),
                id.slot == s,
                old(self).spec_contains(id),
                old(self).slots@[s as int].generation == g,
                g < u64::MAX,
                removed == old(self).slots@[s as int].value->0,
                mid.slots@.len() == old(self).slots@.len(),
                mid.slots@[s as int] == (Slot { generation: (g + 1) as u64, value: None::<E> }),
                forall|t: int|
                    0 <= t < old(self).slots@.len() && t != s ==> mid.slots@[t] == old(
                        self,
                    ).slots@[t],
                occupied_count(mid.slots@) + 1 == occupied_count(old(self).slots@),
                self.slots@ == mid.slots@,
                self.free@ == mid.free@,
                self.live == mid.live,
                self.kinds == mid.kinds,
                kinds == mid.kinds,
                self.bitsets@.len() == kinds,
                mid.bitsets@ == old(self).bitsets@,
                old(self).bitsets@.len() == kinds,
                forall|k2: int| k <= k2 < kinds ==> self.bitsets@[k2] == old(self).bitsets@[k2],
                forall|k2: int|
                    0 <= k2 < k ==> (#[trigger] self.bitsets@[k2] is Some) == old(
                        self,
                    ).bitsets@[k2] is Some,
                forall|k2: int|
                    0 <= k2 < k && self.bitsets@[k2] is Some ==> bitset_bits(
                        #[trigger] self.bitsets@[k2]->0,
                    ) == bitset_bits(old(self).bitsets@[k2]->0).remove(s as u32),
            decreases kinds - k,
        {
            match &mut self.bitsets[k as usize] {
                Some(bs) => {
                    let _ = bitset_remove(bs, s as u32);
                }
                None => {}
            }
            k += 1;
        }
        proof {
            assert forall|k2: int| self.spec_indexed(k2) implies #[trigger] self.index_ok_for(
                k2,
            ) by {
                assert(old(self).spec_indexed(k2));
                assert(old(self).index_ok_for(k2));
                assert forall|t: u32| self.index_ok_at(k2, t) by {
                    assert(old(self).index_ok_at(k2, t));
                    if t == s as u32 {
                        assert(t as int == s as int);
                        assert(!self.has_at(t as int, k2));
                    } else {
                        assert(t as int != s as int);
                        assert(self.has_at(t as int, k2) == old(self).has_at(t as int, k2));
                    }
                }
            }
        }
        Some(e)
    }

    /// The number of live entities in the store.
    pub fn len(&self) -> (n: usize)
        requires
            self.wf(),
        ensures
            n == self.spec_len(),
    {
        self.live
    }

    /// Retrieves an entity mutably. The identifier must be live.
    ///
    /// This hands out direct access to the record and is the one unchecked
    /// back door: mutating which components are present through the returned
    /// reference leaves the indices stale. A mutation that keeps every
    /// component's presence as it was keeps the store well formed; after any
    /// other mutation, call [`Self::refresh`] on the same identifier to
    /// re-derive the record's bits.
    pub fn get_mut(&mut self, id: EntityId) -> (r: &mut E)
        requires
            old(self).wf(),
            old(self).spec_contains(id),
        ensures
            *r == old(self).entity_at(id.slot as int),
            final(self).slots_seq() == old(self).slots_seq().update(
                id.slot as int,
                Slot { generation: id.generation, value: Some(*final(r)) },
            ),
            final(self).wf_basic(),
            final(self).spec_contains(id),
            final(self).spec_len() == old(self).spec_len(),
            final(self).progressed_from(*old(self)),
            forall|k: int| final(self).spec_indexed(k) == old(self).spec_indexed(k),
            forall|k: int|
                final(self).spec_indexed(k) ==> final(self).index_bits(k) == old(self).index_bits(
                    k,
                ),
    {
        let s = id.slot;
        let ent = match &mut self.slots[s].value {
            Some(ent) => ent,
            None => unreached(),
        };
        proof {
            lemma_count_update(
                old(self).slots@,
                s as int,
                Slot { generation: id.generation, value: Some(*final(ent)) },
            );
        }
        ent
    }

    /// Re-derives one record's index bits from its live component presence:
    /// the recovery path after a record was mutated through
    /// [`Self::get_mut`] in a way that changed which components it has. A
    /// stale identifier leaves the store untouched.
    pub fn refresh(&mut self, id: EntityId)
        requires
            old(self).wf_basic(),
            old(self).index_ok_except(id.slot as int),
        ensures
            final(self).slots_seq() == old(self).slots_seq(),
            final(self).spec_len() == old(self).spec_len(),
            final(self).progressed_from(*old(self)),
            forall|k: int| final(self).spec_indexed(k) == old(self).spec_indexed(k),
            old(self).spec_contains(id) ==> final(self).wf(),
            !old(self).spec_contains(id) ==> *final(self) == *old(self),
    {
        if !(id.slot < self.slots.len() && self.slots[id.slot].generation == id.generation
            && self.slots[id.slot].value.is_some()) {
            return;
        }
        let s = id.slot;
        let kinds = self.kinds;
        let mut k: u32 = 0;
        while k < kinds
            invariant
                k <= kinds,
                old(self).wf_basic(),
                old(self).index_ok_except(s as int),
                old(self).occupied(s as int),
                s < old(self).slots@.len() <= MAX_SLOTS,
                self.slots@ == old(self).slots@,
                self.free@ == old(self).free@,
                self.live == old(self).live,
                self.kinds == old(self).kinds,
                kinds == self.kinds,
                self.bitsets@.len() == kinds,
                old(self).bitsets@.len() == kinds,
                forall|k2: int| k <= k2 < kinds ==> self.bitsets@[k2] == old(self).bitsets@[k2],
                forall|k2: int|
                    0 <= k2 < k ==> (#[trigger] self.bitsets@[k2] is Some) == old(
                        self,
                    ).bitsets@[k2] is Some,
                forall|k2: int|
                    0 <= k2 < k && self.bitsets@[k2] is Some ==> bitset_bits(
                        #[trigger] self.bitsets@[k2]->0,
                    ) == if old(self).entity_at(s as int).spec_has(k2) {
                        bitset_bits(old(self).bitsets@[k2]->0).insert(s as u32)
                    } else {
                        bitset_bits(old(self).bitsets@[k2]->0).remove(s as u32)
                    },
            decreases kinds - k,
        {
            let h = match &self.slots[s].value {
                Some(ent) => ent.has_kind(k),
                None => false,
            };
            match &mut self.bitsets[k as usize] {
                Some(bs) => {
                    if h {
                        let _ = bitset_add(bs, s as u32);
                    } else {
                        let _ = bitset_remove(bs, s as u32);
                    }
                }
                None => {}
            }
            k += 1;
        }
        proof {
            assert forall|k2: int| self.spec_indexed(k2) implies #[trigger] self.index_ok_for(
                k2,
            ) by {
                assert(old(self).spec_indexed(k2));
                assert forall|t: u32| self.index_ok_at(k2, t) by {
                    if t == s as u32 {
                        assert(t as int == s as int);
                    } else {
                        assert(t as int != s as int);
                        assert(old(self).index_ok_at(k2, t));
                    }
                }
            }
        }
    }

    /// Adds a component to the entity with the given identifier, updating
    /// the component's index if one exists. If the identifier is stale or
    /// unknown, the component is handed back and nothing changes.
    pub fn add_component_for_entity<C: Component<E>>(
        &mut self,
        entity_id: EntityId,
        component: C,
    ) -> (r: Option<C>)
        requires
            old(self).wf(),
        ensures
            final(self).wf(),
            final(self).progressed_from(*old(self)),
            final(self).num_slots() == old(self).num_slots(),
            final(self).spec_len() == old(self).spec_len(),
            forall|k: int| final(self).spec_indexed(k) == old(self).spec_indexed(k),
            r is Some <==> !old(self).spec_contains(entity_id),
            !old(self).spec_contains(entity_id) ==> r == Some(component) && *final(self) == *old(
                self,
            ),
            old(self).spec_contains(entity_id) ==> final(self).slots_seq() == old(
                self,
            ).slots_seq().update(
                entity_id.slot as int,
                Slot {
                    generation: entity_id.generation,
                    value: Some(
                        C::spec_set(old(self).entity_at(entity_id.slot as int), component),
                    ),
                },
            ),
    {
        if !(entity_id.slot < self.slots.len()
            && self.slots[entity_id.slot].generation == entity_id.generation
            && self.slots[entity_id.slot].value.is_some()) {
            return Some(component);
        }
        let s = entity_id.slot;
        proof {
            C::kind_in_range();
            C::lemma_set(old(self).entity_at(s as int), component);
            lemma_count_update(
                old(self).slots@,
                s as int,
                Slot {
                    generation: entity_id.generation,
                    value: Some(C::spec_set(old(self).entity_at(s as int), component)),
                },
            );
        }
        let ent = match &mut self.slots[s].value {
            Some(ent) => ent,
            None => unreached(),
        };
        component.set(ent);
        let kid = C::kind_id();
        match &mut self.bitsets[kid as usize] {
            Some(bs) => {
                let _ = bitset_add(bs, s as u32);
            }
            None => {}
        }
        proof {
            assert forall|k2: int| self.spec_indexed(k2) implies #[trigger] self.index_ok_for(
                k2,
            ) by {
                assert(old(self).spec_indexed(k2));
                assert(old(self).index_ok_for(k2));
                assert forall|t: u32| self.index_ok_at(k2, t) by {
                    assert(old(self).index_ok_at(k2, t));
                    if t == s as u32 {
                        assert(t as int == s as int);
                    } else {
                        assert(t as int != s as int);
                        assert(self.has_at(t as int, k2) == old(self).has_at(t as int, k2));
                    }
                }
            }
        }
        None
    }

    /// Removes a component from the entity with the given identifier,
    /// clearing the component's index bit if an index exists. Returns the
    /// previous value when the entity was live and had the component.
    pub fn remove_component_for_entity<C: Component<E>>(&mut self, entity_id: EntityId) -> (r:
        Option<C>)
        requires
            old(self).wf(),
        ensures
            final(self).wf(),
            final(self).progressed_from(*old(self)),
            final(self).num_slots() == old(self).num_slots(),
            final(self).spec_len() == old(self).spec_len(),
            forall|k: int| final(self).spec_indexed(k) == old(self).spec_indexed(k),
            r is Some <==> old(self).spec_contains(entity_id) && old(self).entity_at(
                entity_id.slot as int,
            ).spec_has(C::kind()),
            r matches Some(v) ==> v == C::spec_value(old(self).entity_at(entity_id.slot as int)),
            !old(self).spec_contains(entity_id) ==> *final(self) == *old(self),
            old(self).spec_contains(entity_id) ==> final(self).slots_seq() == old(
                self,
            ).slots_seq().update(
                entity_id.slot as int,
                Slot {
                    generation: entity_id.generation,
                    value: Some(C::spec_clear(old(self).entity_at(entity_id.slot as int))),
                },
            ),
    {
        if !(entity_id.slot < self.slots.len()
            && self.slots[entity_id.slot].generation == entity_id.generation
            && self.slots[entity_id.slot].value.is_some()) {
            return None;
        }
        let s = entity_id.slot;
        proof {
            C::kind_in_range();
            C::lemma_clear(old(self).entity_at(s as int));
            lemma_count_update(
                old(self).slots@,
                s as int,
                Slot {
                    generation: entity_id.generation,
                    value: Some(C::spec_clear(old(self).entity_at(s as int))),
                },
            );
        }
        let ent = match &mut self.slots[s].value {
            Some(ent) => ent,
            None => unreached(),
        };
        let r = C::remove(ent);
        let kid = C::kind_id();
        match &mut self.bitsets[kid as usize] {
            Some(bs) => {
                let _ = bitset_remove(bs, s as u32);
            }
            None => {}
        }
        proof {
            assert forall|k2: int| self.spec_indexed(k2) implies #[trigger] self.index_ok_for(
                k2,
            ) by {
                assert(old(self).spec_indexed(k2));
                assert(old(self).index_ok_for(k2));
                assert forall|t: u32| self.index_ok_at(k2, t) by {
                    assert(old(self).index_ok_at(k2, t));
                    if t == s as u32 {
                        assert(t as int == s as int);
                    } else {
                        assert(t as int != s as int);
                        assert(self.has_at(t as int, k2) == old(self).has_at(t as int, k2));
                    }
                }
            }
        }
        r
    }

    /// Builds the index for one component kind by scanning every occupied
    /// slot, replacing whatever index entry the kind had.
    fn build_index_for_kind(&mut self, kind: u32)
        requires
            old(self).wf_basic(),
            (kind as int) < old(self).spec_kinds(),
        ensures
            final(self).wf_basic(),
            final(self).slots_seq() == old(self).slots_seq(),
            final(self).spec_len() == old(self).spec_len(),
            final(self).progressed_from(*old(self)),
            final(self).spec_indexed(kind as int),
            final(self).index_ok_for(kind as int),
            forall|k2: int|
                k2 != kind ==> final(self).spec_indexed(k2) == old(self).spec_indexed(k2),
            forall|k2: int|
                k2 != kind && old(self).spec_indexed(k2) ==> final(self).index_bits(k2) == old(
                    self,
                ).index_bits(k2),
    {
        let mut bs = bitset_new();
        let n = self.slots.len();
        let mut s: usize = 0;
        while s < n
            invariant
                s <= n,
                old(self).wf_basic(),
                (kind as int) < old(self).spec_kinds(),
                *self == *old(self),
                n == self.slots@.len(),
                n <= MAX_SLOTS,
                forall|t: u32|
                    bitset_bits(bs).contains(t) <==> ((t as int) < s && self.has_at(
                        t as int,
                        kind as int,
                    )),
            decreases n - s,
        {
            let h = match &self.slots[s].value {
                Some(ent) => ent.has_kind(kind),
                None => false,
            };
            if h {
                let _ = bitset_add(&mut bs, s as u32);
            }
            s += 1;
        }
        let entry = &mut self.bitsets[kind as usize];
        *entry = Some(bs);
    }

    /// Creates (or rebuilds) the bitset index for component type `C` by
    /// scanning the current records, so a kind can be indexed after records
    /// already exist.
    pub fn add_bitset_for_component<C: Component<E>>(&mut self)
        requires
            old(self).wf(),
        ensures
            final(self).wf(),
            final(self).slots_seq() == old(self).slots_seq(),
            final(self).spec_len() == old(self).spec_len(),
            final(self).progressed_from(*old(self)),
            final(self).spec_indexed(C::kind()),
            forall|k2: int|
                k2 != C::kind() ==> final(self).spec_indexed(k2) == old(self).spec_indexed(k2),
    {
        proof {
            C::kind_in_range();
        }
        let kid = C::kind_id();
        self.build_index_for_kind(kid);
        proof {
            assert forall|k2: int| self.spec_indexed(k2) implies #[trigger] self.index_ok_for(
                k2,
            ) by {
                if k2 != C::kind() {
                    assert(old(self).spec_indexed(k2));
                    assert(old(self).index_ok_for(k2));
                    assert forall|t: u32| self.index_ok_at(k2, t) by {
                        assert(old(self).index_ok_at(k2, t));
                    }
                }
            }
        }
    }

    /// Drops the bitset index for component type `C`, if one exists;
    /// queries then treat that kind as unindexed. Returns whether an index
    /// was there.
    pub fn remove_bitset_for_component<C: Component<E>>(&mut self) -> (r: bool)
        requires
            old(self).wf(),
        ensures
            final(self).wf(),
            final(self).slots_seq() == old(self).slots_seq(),
            final(self).spec_len() == old(self).spec_len(),
            final(self).progressed_from(*old(self)),
            !final(self).spec_indexed(C::kind()),
            r == old(self).spec_indexed(C::kind()),
            forall|k2: int|
                k2 != C::kind() ==> final(self).spec_indexed(k2) == old(self).spec_indexed(k2),
    {
        proof {
            C::kind_in_range();
        }
        let kid = C::kind_id();
        let entry = &mut self.bitsets[kid as usize];
        let was = entry.is_some();
        *entry = None;
        proof {
            assert forall|k2: int| self.spec_indexed(k2) implies #[trigger] self.index_ok_for(
                k2,
            ) by {
                assert(old(self).spec_indexed(k2));
                assert(old(self).index_ok_for(k2));
                assert forall|t: u32| self.index_ok_at(k2, t) by {
                    assert(old(self).index_ok_at(k2, t));
                }
            }
        }
        was
    }

    /// Whether slot `s` holds an entity that has every one of the requested
    /// component kinds — the membership predicate of a conjunctive query.
    pub open spec fn matches_all(self, s: int, kinds: Seq<u32>) -> bool {
        &&& self.occupied(s)
        &&& forall|q: int|
            0 <= q < kinds.len() ==> self.entity_at(s).spec_has(#[trigger] kinds[q] as int)
    }

    /// Re-validates one slot against every requested kind: the defensive
    /// check applied to each candidate a query resolves.
    fn entity_matches(&self, s: usize, kinds: &Vec<u32>) -> (b: bool)
        ensures
            b == self.matches_all(s as int, kinds@),
    {
        if !(s < self.slots.len()) {
            return false;
        }
        match &self.slots[s].value {
            Some(ent) => {
                let mut q: usize = 0;
                while q < kinds.len()
                    invariant
                        q <= kinds@.len(),
                        s < self.slots@.len(),
                        self.slots@[s as int].value == Some(*ent),
                        forall|p: int| 0 <= p < q ==> ent.spec_has(#[trigger] kinds@[p] as int),
                    decreases kinds@.len() - q,
                {
                    if !ent.has_kind(kinds[q]) {
                        return false;
                    }
                    q += 1;
                }
                true
            }
            None => false,
        }
    }

    /// Every live identifier, in ascending slot order: the unfiltered
    /// traversal.
    pub fn iter_all(&self) -> (r: Vec<EntityId>)
        ensures
            forall|i: int| 0 <= i < r@.len() ==> self.spec_contains(#[trigger] r@[i]),
            forall|i: int, j: int| 0 <= i < j < r@.len() ==> r@[i].slot < r@[j].slot,
            forall|s: int|
                self.occupied(s) ==> r@.contains(
                    EntityId { slot: s as usize, generation: self.gen_of(s) },
                ),
    {
        let n = self.slots.len();
        let mut r: Vec<EntityId> = Vec::new();
        let mut s: usize = 0;
        while s < n
            invariant
                n == self.slots@.len(),
                s <= n,
                forall|i: int|
                    0 <= i < r@.len() ==> self.spec_contains(#[trigger] r@[i]) && r@[i].slot < s,
                forall|i: int, j: int| 0 <= i < j < r@.len() ==> r@[i].slot < r@[j].slot,
                forall|t: int|
                    0 <= t < s && self.occupied(t) ==> r@.contains(
                        EntityId { slot: t as usize, generation: self.gen_of(t) },
                    ),
            decreases n - s,
        {
            if self.slots[s].value.is_some() {
                r.push(EntityId { slot: s, generation: self.slots[s].generation });
            }
            s += 1;
        }
        r
    }

    /// The conjunctive query: every live identifier whose entity has all of
    /// the requested component kinds, in ascending slot order.
    ///
    /// The existing indices for the requested kinds are combined with a
    /// logical AND (a kind with no index acts as a wildcard), and each
    /// candidate is then re-validated against the record's live presence
    /// before it is yielded — the defensive policy: a record whose
    /// components were mutated behind the store's back is silently skipped
    /// rather than reported stale.
    pub fn iter(&self, kinds: &Vec<u32>) -> (r: Vec<EntityId>)
        requires
            self.wf(),
        ensures
            forall|i: int|
                0 <= i < r@.len() ==> self.spec_contains(#[trigger] r@[i]) && self.matches_all(
                    r@[i].slot as int,
                    kinds@,
                ),
            forall|i: int, j: int| 0 <= i < j < r@.len() ==> r@[i].slot < r@[j].slot,
            forall|s: int|
                self.matches_all(s, kinds@) ==> r@.contains(
                    EntityId { slot: s as usize, generation: self.gen_of(s) },
                ),
    {
        let mut cand: Option<Vec<u32>> = None;
        let mut q: usize = 0;
        while q < kinds.len()
            invariant
                self.wf(),
                q <= kinds@.len(),
                match cand {
                    None => forall|p: int|
                        0 <= p < q ==> !self.spec_indexed(#[trigger] kinds@[p] as int),
                    Some(v) => {
                        &&& strictly_ascending(v@)
                        &&& forall|x: u32|
                            #[trigger] v@.contains(x) <==> (self.occupied(x as int) && forall|
                                p: int,
                            |
                                0 <= p < q && self.spec_indexed(#[trigger] kinds@[p] as int)
                                    ==> self.entity_at(x as int).spec_has(kinds@[p] as int))
                    },
                },
            decreases kinds@.len() - q,
        {
            let k = kinds[q];
            if (k as usize) < self.bitsets.len() {
                match &self.bitsets[k as usize] {
                    Some(bs) => {
                        proof {
                            assert(self.spec_indexed(k as int));
                            assert(self.index_ok_for(k as int));
                        }
                        let elems = bitset_elements(bs);
                        proof {
                            assert forall|x: u32| #[trigger] elems@.contains(x) == self.has_at(
                                x as int,
                                k as int,
                            ) by {
                                assert(self.index_ok_at(k as int, x));
                                if self.index_bits(k as int).contains(x) {
                                    assert(elems@.contains(x));
                                } else {
                                    if elems@.contains(x) {
                                        let m = choose|m: int|
                                            0 <= m < elems@.len() && elems@[m] == x;
                                        assert(self.index_bits(k as int).contains(elems@[m]));
                                    }
                                }
                            }
                        }
                        let next = match cand {
                            None => elems,
                            Some(prev) => intersect_ascending(&prev, &elems),
                        };
                        cand = Some(next);
                    }
                    None => {
                        proof {
                            assert(!self.spec_indexed(k as int));
                        }
                    }
                }
            } else {
                proof {
                    assert(!self.spec_indexed(k as int));
                }
            }
            q += 1;
        }
        let mut r: Vec<EntityId> = Vec::new();
        match cand {
            Some(v) => {
                let mut i: usize = 0;
                while i < v.len()
                    invariant
                        self.wf(),
                        i <= v@.len(),
                        strictly_ascending(v@),
                        forall|x: u32|
                            #[trigger] v@.contains(x) <==> (self.occupied(x as int) && forall|
                                p: int,
                            |
                                0 <= p < kinds@.len() && self.spec_indexed(
                                    #[trigger] kinds@[p] as int,
                                ) ==> self.entity_at(x as int).spec_has(kinds@[p] as int)),
                        forall|m: int|
                            0 <= m < r@.len() ==> self.spec_contains(#[trigger] r@[m])
                                && self.matches_all(r@[m].slot as int, kinds@),
                        forall|m: int, j: int| 0 <= m < j < r@.len() ==> r@[m].slot < r@[j].slot,
                        forall|m: int|
                            0 <= m < r@.len() ==> v@.take(i as int).contains(
                                #[trigger] r@[m].slot as u32,
                            ),
                        forall|s: int|
                            self.matches_all(s, kinds@) && v@.take(i as int).contains(s as u32)
                                ==> r@.contains(
                                EntityId { slot: s as usize, generation: self.gen_of(s) },
                            ),
                    decreases v@.len() - i,
                {
                    let p32 = v[i];
                    proof {
                        assert(v@.contains(p32));
                        assert(self.occupied(p32 as int));
                    }
                    let p = p32 as usize;
                    if self.entity_matches(p, kinds) {
                        proof {
                            assert forall|m: int| 0 <= m < r@.len() implies r@[m].slot < p by {
                                let pr = v@.take(i as int);
                                assert(pr.contains(r@[m].slot as u32));
                                let n = choose|n: int|
                                    0 <= n < pr.len() && pr[n] == r@[m].slot as u32;
                                assert(v@[n] < v@[i as int]);
                            }
                        }
                        r.push(EntityId { slot: p, generation: self.slots[p].generation });
                    }
                    proof {
                        assert(v@.take(i + 1) =~= v@.take(i as int).push(v@[i as int]));
                    }
                    i += 1;
                }
                proof {
                    assert(v@.take(v@.len() as int) =~= v@);
                    assert forall|s: int| self.matches_all(s, kinds@) implies r@.contains(
                        EntityId { slot: s as usize, generation: self.gen_of(s) },
                    ) by {
                        assert(self.occupied(s));
                        assert(s < MAX_SLOTS);
                        assert(v@.contains(s as u32));
                    }
                }
                r
            }
            None => {
                let n = self.slots.len();
                let mut s: usize = 0;
                while s < n
                    invariant
                        self.wf(),
                        n == self.slots@.len(),
                        s <= n,
                        forall|p: int|
                            0 <= p < kinds@.len() ==> !self.spec_indexed(
                                #[trigger] kinds@[p] as int,
                            ),
                        forall|m: int|
                            0 <= m < r@.len() ==> self.spec_contains(#[trigger] r@[m])
                                && self.matches_all(r@[m].slot as int, kinds@) && r@[m].slot < s,
                        forall|m: int, j: int| 0 <= m < j < r@.len() ==> r@[m].slot < r@[j].slot,
                        forall|t: int|
                            0 <= t < s && self.matches_all(t, kinds@) ==> r@.contains(
                                EntityId { slot: t as usize, generation: self.gen_of(t) },
                            ),
                    decreases n - s,
                {
                    if self.entity_matches(s, kinds) {
                        r.push(EntityId { slot: s, generation: self.slots[s].generation });
                    }
                    s += 1;
                }
                r
            }
        }
    }

    /// Bulk conditional removal: keeps exactly the entities for which the
    /// predicate returns true, removing the others with full index
    /// bookkeeping, as one by one removal would.
    pub fn retain<F: Fn(EntityId, &E) -> bool>(&mut self, keep: F)
        requires
            old(self).wf(),
            forall|id: EntityId, e: &E| #[trigger] keep.requires((id, e)),
        ensures
            final(self).wf(),
            final(self).progressed_from(*old(self)),
            final(self).num_slots() == old(self).num_slots(),
            forall|k: int| final(self).spec_indexed(k) == old(self).spec_indexed(k),
            forall|s: int|
                0 <= s < old(self).num_slots() && !old(self).occupied(s) ==> final(self).slots_seq()[s] == old(self).slots_seq()[s],
            forall|s: int|
                #[trigger] final(self).occupied(s) ==> old(self).occupied(s) && final(self).slots_seq()[s] == old(self).slots_seq()[s],
            forall|s: int|
                old(self).occupied(s) && #[trigger] final(self).occupied(s) ==> keep.ensures(
                    (
                        EntityId { slot: s as usize, generation: old(self).gen_of(s) },
                        &old(self).entity_at(s),
                    ),
                    true,
                ),
            forall|s: int|
                old(self).occupied(s) && !(#[trigger] final(self).occupied(s)) ==> keep.ensures(
                    (
                        EntityId { slot: s as usize, generation: old(self).gen_of(s) },
                        &old(self).entity_at(s),
                    ),
                    false,
                ) && final(self).gen_of(s) > old(self).gen_of(s),
    {
        let n = self.slots.len();
        let mut s: usize = 0;
        while s < n
            invariant
                self.wf(),
                forall|id: EntityId, e: &E| #[trigger] keep.requires((id, e)),
                s <= n,
                n == old(self).num_slots(),
                n == self.num_slots(),
                self.progressed_from(*old(self)),
                forall|k: int| self.spec_indexed(k) == old(self).spec_indexed(k),
                forall|t: int| s <= t < n ==> self.slots_seq()[t] == old(self).slots_seq()[t],
                forall|t: int|
                    0 <= t < n && !old(self).occupied(t) ==> self.slots_seq()[t] == old(
                        self,
                    ).slots_seq()[t],
                forall|t: int|
                    #[trigger] self.occupied(t) ==> old(self).occupied(t) && self.slots_seq()[t]
                        == old(self).slots_seq()[t],
                forall|t: int|
                    0 <= t < s && old(self).occupied(t) && #[trigger] self.occupied(t)
                        ==> keep.ensures(
                        (
                            EntityId { slot: t as usize, generation: old(self).gen_of(t) },
                            &old(self).entity_at(t),
                        ),
                        true,
                    ),
                forall|t: int|
                    0 <= t < s && old(self).occupied(t) && !(#[trigger] self.occupied(t))
                        ==> keep.ensures(
                        (
                            EntityId { slot: t as usize, generation: old(self).gen_of(t) },
                            &old(self).entity_at(t),
                        ),
                        false,
                    ) && self.gen_of(t) > old(self).gen_of(t),
            decreases n - s,
        {
            let ghost top = *self;
            if self.slots[s].value.is_some() {
                let g = self.slots[s].generation;
                let id = EntityId { slot: s, generation: g };
                proof {
                    assert(self.slots_seq()[s as int] == old(self).slots_seq()[s as int]);
                    assert(old(self).occupied(s as int));
                    assert(g == old(self).gen_of(s as int));
                }
                let dec;
                match &self.slots[s].value {
                    Some(ent) => {
                        dec = keep(id, ent);
                        proof {
                            assert(*ent == old(self).entity_at(s as int));
                            assert(keep.ensures((id, &old(self).entity_at(s as int)), dec));
                        }
                    }
                    None => {
                        dec = true;
                    }
                }
                if !dec {
                    let _ = self.remove(id);
                    proof {
                        assert forall|t: int| #[trigger] self.occupied(t) implies top.occupied(t)
                            && self.slots_seq()[t] == top.slots_seq()[t] by {
                            assert(t != s);
                        }
                        assert(self.retired(id));
                        assert(self.gen_of(s as int) > old(self).gen_of(s as int));
                        assert(!self.occupied(s as int));
                        assert forall|t: int|
                            0 <= t < s + 1 && old(self).occupied(t) && !(#[trigger] self.occupied(
                                t,
                            )) implies keep.ensures(
                            (
                                EntityId { slot: t as usize, generation: old(self).gen_of(t) },
                                &old(self).entity_at(t),
                            ),
                            false,
                        ) && self.gen_of(t) > old(self).gen_of(t) by {
                            if t != s {
                                assert(!top.occupied(t));
                                assert(self.gen_of(t) == top.gen_of(t));
                            }
                        }
                    }
                }
            }
            s += 1;
        }
    }

    /// A snapshot is well formed when it fits the store's slot limit and no
    /// occupied slot has exhausted its generation counter.
    pub open spec fn valid_snapshot(v: Seq<Slot<E>>) -> bool {
        &&& v.len() <= MAX_SLOTS
        &&& forall|s: int|
            0 <= s < v.len() && (#[trigger] v[s].value) is Some ==> v[s].generation < u64::MAX
    }

    /// Surrenders the pool as an ordered sequence of slots: the persisted
    /// form of the store. Indices are derived state and are not part of a
    /// snapshot.
    pub fn into_slots(self) -> (v: Vec<Slot<E>>)
        ensures
            v@ == self.slots_seq(),
    {
        let EntityList { slots, free: _, live: _, bitsets: _, kinds: _ } = self;
        slots
    }

    /// Rebuilds a store from the ordered slot contents of a snapshot: the
    /// free list is re-derived and every declared component kind gets a
    /// freshly built index. Returns `None` exactly when the snapshot is not
    /// well formed.
    pub fn from_slots(slots: Vec<Slot<E>>) -> (r: Option<EntityList<E>>)
        ensures
            r is Some <==> Self::valid_snapshot(slots@),
            r matches Some(l) ==> {
                &&& l.wf()
                &&& l.slots_seq() == slots@
                &&& forall|k: int| l.spec_indexed(k) <==> 0 <= k < E::comp_kinds()
            },
    {
        if slots.len() > MAX_SLOTS {
            return None;
        }
        let ghost gslots = slots@;
        let n = slots.len();
        let mut free: Vec<usize> = Vec::new();
        let mut live: usize = 0;
        let mut s: usize = 0;
        while s < n
            invariant
                s <= n,
                n == gslots.len() <= MAX_SLOTS,
                slots@ == gslots,
                forall|t: int|
                    0 <= t < s && (#[trigger] gslots[t].value) is Some ==> gslots[t].generation
                        < u64::MAX,
                forall|i: int|
                    0 <= i < free@.len() ==> {
                        &&& #[trigger] free@[i] < s
                        &&& gslots[free@[i] as int].value is None
                        &&& gslots[free@[i] as int].generation < u64::MAX
                    },
                forall|i: int, j: int| 0 <= i < j < free@.len() ==> free@[i] < free@[j],
                live == occupied_count(gslots.take(s as int)),
                live <= s,
            decreases n - s,
        {
            proof {
                assert(gslots.take(s + 1).drop_last() =~= gslots.take(s as int));
                assert(gslots.take(s + 1).last() == gslots[s as int]);
            }
            if slots[s].value.is_some() {
                if slots[s].generation == u64::MAX {
                    return None;
                }
                live += 1;
            } else {
                if slots[s].generation < u64::MAX {
                    free.push(s);
                }
            }
            s += 1;
        }
        proof {
            assert(gslots.take(n as int) =~= gslots);
        }
        let kinds = E::num_kinds();
        let mut bitsets: Vec<Option<BitSet>> = Vec::new();
        let mut k: u32 = 0;
        while k < kinds
            invariant
                k <= kinds,
                bitsets@.len() == k,
                forall|i: int| 0 <= i < k ==> (#[trigger] bitsets@[i]) is None,
            decreases kinds - k,
        {
            bitsets.push(None);
            k += 1;
        }
        let mut l = EntityList { slots, free, live, bitsets, kinds };
        proof {
            assert(l.wf_basic());
        }
        let mut k: u32 = 0;
        while k < kinds
            invariant
                k <= kinds,
                l.wf_basic(),
                kinds == E::comp_kinds(),
                l.spec_kinds() == kinds,
                l.slots_seq() == gslots,
                forall|k2: int| 0 <= k2 < k ==> #[trigger] l.spec_indexed(k2),
                forall|k2: int| 0 <= k2 < k ==> #[trigger] l.index_ok_for(k2),
                forall|k2: int| k <= k2 < kinds ==> !(#[trigger] l.spec_indexed(k2)),
            decreases kinds - k,
        {
            let ghost lpre = l;
            l.build_index_for_kind(k);
            proof {
                assert forall|k2: int| 0 <= k2 < k + 1 implies #[trigger] l.spec_indexed(k2) by {
                    if k2 < k {
                        assert(lpre.spec_indexed(k2));
                    }
                }
                assert forall|k2: int| 0 <= k2 < k + 1 implies #[trigger] l.index_ok_for(k2) by {
                    if k2 < k {
                        assert(lpre.spec_indexed(k2));
                        assert(lpre.index_ok_for(k2));
                        assert(l.index_bits(k2) == lpre.index_bits(k2));
                        assert forall|t: u32| l.index_ok_at(k2, t) by {
                            assert(lpre.index_ok_at(k2, t));
                        }
                    }
                }
            }
            k += 1;
        }
        proof {
            assert forall|k2: int| l.spec_indexed(k2) implies #[trigger] l.index_ok_for(k2) by {
                assert(0 <= k2 < kinds);
            }
        }
        Some(l)
    }

    /// `progressed_from` composes: a future of a future is a future.
    ///
    /// Law: chains of store operations can be collapsed into one
    /// pre/post pair when reasoning about identifier lifetimes.
    pub proof fn lemma_progressed_trans(a: Self, b: Self, c: Self)
        requires
            b.progressed_from(a),
            c.progressed_from(b),
        ensures
            c.progressed_from(a),
    {
    }

    /// Identifier integrity, second half: once an identifier is retired,
    /// every future of the store keeps it retired and never reports it as
    /// contained again — even after its slot is reused, the reused slot
    /// carries a higher generation.
    pub proof fn lemma_retired_stays(pre: Self, post: Self, id: EntityId)
        requires
            pre.retired(id),
            post.progressed_from(pre),
        ensures
            post.retired(id),
            !post.spec_contains(id),
    {
    }

    /// Identifier integrity, first half: a live identifier is not retired,
    /// so containment and retirement never overlap.
    pub proof fn lemma_contains_not_retired(l: Self, id: EntityId)
        requires
            l.spec_contains(id),
        ensures
            !l.retired(id),
    {
    }

    /// Index correctness: in a well-formed store, the bit for slot `s` in
    /// kind `k`'s index is set exactly when the record in slot `s` is live
    /// and has component kind `k` populated.
    pub proof fn lemma_index_reflects_presence(l: Self, k: int, s: u32)
        requires
            l.wf(),
            l.spec_indexed(k),
        ensures
            l.index_bits(k).contains(s) == l.has_at(s as int, k),
    {
        assert(l.index_ok_for(k));
        assert(l.index_ok_at(k, s));
    }

    /// Rebuild idempotence: an index is a function of the record contents
    /// alone. Two well-formed stores with the same pool — in particular, one
    /// that dropped and rebuilt kind `k`'s index and one that never did —
    /// hold the same bit vector for `k`.
    pub proof fn lemma_index_determined(l1: Self, l2: Self, k: int)
        requires
            l1.wf(),
            l2.wf(),
            l1.spec_indexed(k),
            l2.spec_indexed(k),
            l1.slots_seq() == l2.slots_seq(),
        ensures
            l1.index_bits(k) == l2.index_bits(k),
    {
        assert(l1.index_ok_for(k));
        assert(l2.index_ok_for(k));
        assert forall|t: u32| l1.index_bits(k).contains(t) == l2.index_bits(k).contains(t) by {
            assert(l1.index_ok_at(k, t));
            assert(l2.index_ok_at(k, t));
        }
        assert(l1.index_bits(k) =~= l2.index_bits(k));
    }

    /// Snapshot round trip: a well-formed store always yields a valid
    /// snapshot, so rebuilding from [`Self::into_slots`] through
    /// [`Self::from_slots`] succeeds and reproduces the same pool, with
    /// every declared kind's index rebuilt from the records alone.
    pub proof fn lemma_wf_snapshot_valid(l: Self)
        requires
            l.wf(),
        ensures
            Self::valid_snapshot(l.slots_seq()),
    {
    }

    /// What a mutation through [`Self::get_mut`] leaves behind: every index
    /// stays correct away from the touched slot, and if the new record value
    /// `v` kept every component's presence, the store is still well formed
    /// with no refresh needed.
    pub proof fn lemma_back_door_mutation(pre: Self, post: Self, id: EntityId, v: E)
        requires
            pre.wf(),
            pre.spec_contains(id),
            post.wf_basic(),
            post.slots_seq() == pre.slots_seq().update(
                id.slot as int,
                Slot { generation: id.generation, value: Some(v) },
            ),
            forall|k: int| post.spec_indexed(k) == pre.spec_indexed(k),
            forall|k: int| post.spec_indexed(k) ==> post.index_bits(k) == pre.index_bits(k),
        ensures
            post.index_ok_except(id.slot as int),
            (forall|k: int| v.spec_has(k) == pre.entity_at(id.slot as int).spec_has(k))
                ==> post.wf(),
    {
        let s = id.slot as int;
        assert forall|k: int| #[trigger] post.spec_indexed(k) implies forall|t: u32|
            t as int != s ==> #[trigger] post.index_ok_at(k, t) by {
            assert(pre.spec_indexed(k));
            assert(pre.index_ok_for(k));
            assert forall|t: u32| t as int != s implies post.index_ok_at(k, t) by {
                assert(pre.index_ok_at(k, t));
                assert(post.has_at(t as int, k) == pre.has_at(t as int, k));
            }
        }
        if forall|k: int| v.spec_has(k) == pre.entity_at(s).spec_has(k) {
            assert forall|k: int| post.spec_indexed(k) implies #[trigger] post.index_ok_for(
                k,
            ) by {
                assert(pre.spec_indexed(k));
                assert(pre.index_ok_for(k));
                assert forall|t: u32| post.index_ok_at(k, t) by {
                    assert(pre.index_ok_at(k, t));
                    if t as int == s {
                        assert(v.spec_has(k) == pre.entity_at(s).spec_has(k));
                        assert(post.has_at(t as int, k) == pre.has_at(t as int, k));
                    } else {
                        assert(post.has_at(t as int, k) == pre.has_at(t as int, k));
                    }
                }
            }
        }
    }
}

} // verus!
