use vstd::prelude::*;
use vstd::pervasive::unreached;
use vstd::std_specs::iter::IteratorSpec;
use vstd::seq_lib::to_multiset_insert;

use crate::key::{SlotIndex, SlotKey};
use crate::slot_collection::{ascending, next_generation, SlotCollection};

verus! {

/// std's mutable slice iterator, carried through opaquely.
#[verifier::external_type_specification]
#[verifier::external_body]
#[verifier::reject_recursive_types(T)]
pub struct ExIterMut<'a, T: 'a>(std::slice::IterMut<'a, T>);

/// Relies on `<[T]>::iter_mut`: the iterator yields a mutable reference to
/// each element of the slice, in order, and then ends; what is written through
/// those references is what the slice holds afterwards, and its length stays.
pub assume_specification<'a, U>[ <[U]>::iter_mut ](s: &'a mut [U]) -> (r: std::slice::IterMut<'a, U>)
    ensures
        final(s)@.len() == old(s)@.len(),
        r.obeys_prophetic_iter_laws(),
        r.remaining().len() == old(s)@.len(),
        forall|i: int| 0 <= i < old(s)@.len() ==> *r.remaining()[i] == old(s)@[i],
        forall|i: int| 0 <= i < old(s)@.len() ==> final(s)@[i] == *final(r.remaining()[i]),
;

/// A fixed-capacity map from `SlotKey` handles to values.
///
/// Values are stored densely, in insertion order until a removal moves the
/// last value into the hole it leaves. Each value remembers the slot that owns
/// it, so that the owning slot can be retargeted when its value moves.
pub struct Slotmap<V> {
    pub(crate) values: Vec<V>,
    /// Slot owning each value, in the same order as `values`.
    pub(crate) values_slot: Vec<SlotIndex>,
    pub(crate) slot_collection: SlotCollection,
}

impl<V> Slotmap<V> {
    /// The number of slots, fixed at construction.
    pub open(crate) spec fn spec_capacity(&self) -> nat {
        self.slot_collection.slot_count()
    }

    /// The stored values in dense (iteration) order.
    pub open(crate) spec fn dense(&self) -> Seq<V> {
        self.values@
    }

    /// Whether slot `s` currently holds a value.
    pub open(crate) spec fn occupied(&self, s: nat) -> bool {
        s < self.spec_capacity() && self.slot_collection.occupancy()[s as int] is Some
    }

    /// The current generation of each slot.
    pub open(crate) spec fn generations(&self) -> Seq<u64> {
        self.slot_collection.generations()
    }

    /// The free slots in the order the free list links them.
    pub open(crate) spec fn free_slots(&self) -> Seq<usize> {
        self.slot_collection.free_list()
    }

    /// Whether `k` names an occupied slot that is still on the key's generation.
    pub open(crate) spec fn key_valid(&self, k: SlotKey) -> bool {
        self.slot_collection.key_valid(k)
    }

    /// A key whose slot has moved past the key's generation: the key was
    /// removed and stays dead while that slot is reused.
    pub open(crate) spec fn retired(&self, k: SlotKey) -> bool {
        &&& k.slot() < self.spec_capacity()
        &&& k.generation() < self.generations()[k.slot() as int]
    }

    /// Dense position of the value of a valid key.
    pub open(crate) spec fn position(&self, k: SlotKey) -> int {
        self.slot_collection.occupancy()[k.slot() as int].unwrap() as int
    }

    /// The valid keys, each with the value it resolves to.
    pub open(crate) spec fn contents(&self) -> Map<SlotKey, V> {
        Map::new(|k: SlotKey| self.key_valid(k), |k: SlotKey| self.values@[self.position(k)])
    }

    /// The dense arrays and the slot table agree: each value's owning slot
    /// points back at the value's position, every occupied slot is owned by
    /// the value it points at, and values and free slots fill the capacity.
    pub open(crate) spec fn wf(&self) -> bool {
        let occupancy = self.slot_collection.occupancy();
        let n = self.slot_collection.slot_count();
        &&& self.slot_collection.wf()
        &&& self.values@.len() == self.values_slot@.len()
        &&& self.values@.len() + self.slot_collection.free_list().len() == n
        &&& forall|i: int|
            0 <= i < self.values_slot@.len() ==> (#[trigger] self.values_slot@[i]).row() < n
                && occupancy[self.values_slot@[i].row() as int] == Some(i as nat)
        &&& forall|s: int|
            0 <= s < n && (#[trigger] occupancy[s]) is Some ==> occupancy[s].unwrap()
                < self.values_slot@.len() && self.values_slot@[occupancy[s].unwrap() as int].row()
                == s
    }

    /// What `push(value)` does: on a full map it returns `None` and changes
    /// nothing; otherwise it takes the first free slot, returns a fresh key
    /// for it on the slot's current generation, and appends `value` to the
    /// dense values under that key.
    pub open(crate) spec fn push_post(before: Self, value: V, after: Self, r: Option<SlotKey>) -> bool {
        &&& after.spec_capacity() == before.spec_capacity()
        &&& before.dense().len() == before.spec_capacity() ==> r is None && after == before
        &&& before.dense().len() < before.spec_capacity() ==> {
            let k = r.unwrap();
            &&& r is Some
            &&& !before.contents().contains_key(k)
            &&& after.contents() == before.contents().insert(k, value)
            &&& after.dense() == before.dense().push(value)
            &&& after.generations() == before.generations()
            &&& k.slot() == before.free_slots()[0]
            &&& k.generation() == before.generations()[k.slot() as int]
            &&& after.free_slots() == before.free_slots().drop_first()
            &&& forall|s: nat| #[trigger] after.occupied(s) == (before.occupied(s) || s == k.slot())
        }
    }

    /// What `remove(key)` does: for a key that is not valid it returns `None`
    /// and changes nothing; otherwise it returns the key's value, drops the
    /// key, moves the last dense value into the vacated position, and frees
    /// the key's slot on its next generation.
    pub open(crate) spec fn remove_post(before: Self, key: SlotKey, after: Self, r: Option<V>) -> bool {
        &&& after.spec_capacity() == before.spec_capacity()
        &&& !before.key_valid(key) ==> r is None && after == before
        &&& before.key_valid(key) ==> {
            &&& r == Some(before.contents()[key])
            &&& after.contents() == before.contents().remove(key)
            &&& after.dense() == before.dense().update(
                before.position(key),
                before.dense().last(),
            ).drop_last()
            &&& after.generations() == before.generations().update(
                key.slot() as int,
                next_generation(before.generations()[key.slot() as int]),
            )
            &&& forall|s: nat| #[trigger] after.occupied(s) == (before.occupied(s) && s != key.slot())
            &&& exists|p: int|
                0 <= p <= before.free_slots().len() && after.free_slots()
                    == #[trigger] before.free_slots().insert(p, key.slot() as usize)
        }
    }

    /// An empty map with room for `capacity` values. A map of capacity 0
    /// accepts no value: each push returns `None`.
    pub fn with_capacity(capacity: usize) -> (r: Self)
        ensures
            r.wf(),
            r.spec_capacity() == capacity,
            r.dense() == Seq::<V>::empty(),
            r.contents() == Map::<SlotKey, V>::empty(),
            r.free_slots() == Seq::new(capacity as nat, |s: int| s as usize),
            r.generations() == Seq::new(capacity as nat, |s: int| 0u64),
    {
        let values = Vec::<V>::with_capacity(capacity);
        let values_slot = Vec::<SlotIndex>::with_capacity(capacity);
        let slot_collection = SlotCollection::new(capacity);
        let r = Self { values, values_slot, slot_collection };
        proof {
            assert(r.contents() =~= Map::<SlotKey, V>::empty());
        }
        r
    }

    /// Removes the value that `key` names and returns it; `None` when the key
    /// is not valid. The last value moves into the freed dense position, and
    /// the key, with every other key issued for its slot, stops resolving.
    pub fn remove(&mut self, key: SlotKey) -> (r: Option<V>)
        requires
            old(self).wf(),
        ensures
            final(self).wf(),
            Self::remove_post(*old(self), key, *final(self), r),
    {
        let value_index = match self.slot_collection.get_value_index(&key) {
            Some(index) => index,
            None => {
                return None;
            },
        };
        let ghost old_map = *self;
        proof {
            assert(self.slot_collection.occupancy()[key.slot() as int] is Some);
        }
        let value;
        let ghost change: Option<(SlotIndex, usize)>;
        if value_index == self.values.len() - 1 {
            value = self.values.pop().unwrap();
            self.values_slot.pop();
            self.slot_collection.return_slot(key, None);
            proof {
                change = None;
                assert(self.values@ =~= old_map.values@.update(
                    value_index as int,
                    old_map.values@.last(),
                ).drop_last());
                assert(self.values_slot@ =~= old_map.values_slot@.update(
                    value_index as int,
                    old_map.values_slot@.last(),
                ).drop_last());
            }
        } else {
            value = self.values.swap_remove(value_index);
            self.values_slot.swap_remove(value_index);
            let slot_index = self.values_slot[value_index];
            proof {
                assert(slot_index == old_map.values_slot@.last());
                assert(slot_index.row() != key.slot());
            }
            self.slot_collection.return_slot(key, Some((slot_index, value_index)));
            proof {
                change = Some((slot_index, value_index));
            }
        }
        proof {
            Self::lemma_remove_model(old_map, *self, key, value_index as int, change);
            let p = choose|p: int|
                0 <= p <= old_map.slot_collection.free_list().len()
                    && self.slot_collection.free_list()
                    == #[trigger] old_map.slot_collection.free_list().insert(p, key.slot() as usize);
            assert(self.free_slots() == old_map.free_slots().insert(p, key.slot() as usize));
        }
        Some(value)
    }

    /// The model of a map after its value at dense position `d`, named by
    /// `key`, was swap-removed and the key's slot returned.
    proof fn lemma_remove_model(
        before: Self,
        after: Self,
        key: SlotKey,
        d: int,
        change: Option<(SlotIndex, usize)>,
    )
        requires
            before.wf(),
            before.key_valid(key),
            d == before.position(key),
            change == if d + 1 < before.values@.len() {
                Some((before.values_slot@.last(), d as usize))
            } else {
                None::<(SlotIndex, usize)>
            },
            after.values@ == before.values@.update(d, before.values@.last()).drop_last(),
            after.values_slot@ == before.values_slot@.update(
                d,
                before.values_slot@.last(),
            ).drop_last(),
            after.slot_collection.wf(),
            after.slot_collection.slot_count() == before.slot_collection.slot_count(),
            after.slot_collection.occupancy() == SlotCollection::retargeted(
                before.slot_collection.occupancy(),
                change,
            ).update(key.slot() as int, None),
            after.slot_collection.generations() == before.slot_collection.generations().update(
                key.slot() as int,
                next_generation(before.slot_collection.generations()[key.slot() as int]),
            ),
            after.slot_collection.free_list().len() == before.slot_collection.free_list().len()
                + 1,
        ensures
            after.wf(),
            after.contents() == before.contents().remove(key),
            forall|s: nat| #[trigger] after.occupied(s) == (before.occupied(s) && s != key.slot()),
    {
        let n = before.slot_collection.slot_count();
        let bo = before.slot_collection.occupancy();
        let ao = after.slot_collection.occupancy();
        let len = before.values@.len();
        let last_slot = before.values_slot@[len - 1].row();
        assert(bo[key.slot() as int] == Some(d as nat));
        assert(before.values_slot@[d].row() == key.slot());
        assert(bo[last_slot as int] == Some((len - 1) as nat));
        assert forall|i: int| 0 <= i < after.values_slot@.len() implies (#[trigger] after.values_slot@[i]).row() < n
            && ao[after.values_slot@[i].row() as int] == Some(i as nat) by {
            if i == d {
                assert(after.values_slot@[i] == before.values_slot@[len - 1]);
            } else {
                assert(after.values_slot@[i] == before.values_slot@[i]);
                assert(bo[before.values_slot@[i].row() as int] == Some(i as nat));
            }
        }
        assert forall|s: int| 0 <= s < n && (#[trigger] ao[s]) is Some implies ao[s].unwrap()
            < after.values_slot@.len() && after.values_slot@[ao[s].unwrap() as int].row() == s by {
            assert(bo[s] is Some);
            if s != last_slot {
                assert(ao[s] == bo[s]);
                let p = bo[s].unwrap() as int;
                assert(before.values_slot@[p].row() == s);
                assert(p != d);
                assert(p != len - 1);
            }
        }
        assert forall|s: nat| #[trigger] after.occupied(s) == (before.occupied(s) && s != key.slot()) by {
            if s < n && s != key.slot() && s != last_slot {
                assert(ao[s as int] == bo[s as int]);
            }
        }
        assert forall|k: SlotKey| #[trigger] after.key_valid(k) == (before.key_valid(k) && k != key) by {
            if k.slot() < n && k.slot() != key.slot() && k.slot() != last_slot {
                assert(ao[k.slot() as int] == bo[k.slot() as int]);
            }
        }
        assert forall|k: SlotKey| after.key_valid(k) implies after.values@[after.position(k)]
            == before.values@[before.position(k)] by {
            if k.slot() == last_slot {
                assert(before.position(k) == len - 1);
            } else {
                let p = before.position(k);
                assert(ao[k.slot() as int] == bo[k.slot() as int]);
                assert(before.values_slot@[p].row() == k.slot());
                assert(p != d);
                assert(p != len - 1);
            }
        }
        assert(after.contents() =~= before.contents().remove(key));
    }

    /// Stores `value` in the first free slot and returns its key; `None`,
    /// changing nothing, when the map holds `capacity()` values.
    pub fn push(&mut self, value: V) -> (r: Option<SlotKey>)
        requires
            old(self).wf(),
        ensures
            final(self).wf(),
            Self::push_post(*old(self), value, *final(self), r),
    {
        if self.values.len() == self.slot_collection.slots.len() {
            return None;
        }
        let ghost before = *self;
        match self.slot_collection.take_slot(self.values.len()) {
            Some(slot) => {
                self.values.push(value);
                self.values_slot.push(slot.index);
                proof {
                    Self::lemma_push_model(before, *self, slot);
                }
                Some(slot)
            },
            None => unreached(),
        }
    }

    /// The model of a map after `value` was appended under the key `k` of
    /// the slot just taken from the head of the free list.
    proof fn lemma_push_model(before: Self, after: Self, k: SlotKey)
        requires
            before.wf(),
            before.slot_collection.free_list().len() > 0,
            k.slot() == before.slot_collection.free_list()[0],
            k.generation() == before.slot_collection.generations()[k.slot() as int],
            after.values@ == before.values@.push(after.values@.last()),
            after.values_slot@ == before.values_slot@.push(k.index),
            after.slot_collection.wf(),
            after.slot_collection.slot_count() == before.slot_collection.slot_count(),
            after.slot_collection.occupancy() == before.slot_collection.occupancy().update(
                k.slot() as int,
                Some(before.values@.len()),
            ),
            after.slot_collection.generations() == before.slot_collection.generations(),
            after.slot_collection.free_list() == before.slot_collection.free_list().drop_first(),
        ensures
            after.wf(),
            !before.contents().contains_key(k),
            after.contents() == before.contents().insert(k, after.values@.last()),
            forall|s: nat| #[trigger] after.occupied(s) == (before.occupied(s) || s == k.slot()),
    {
        let n = before.slot_collection.slot_count();
        let bo = before.slot_collection.occupancy();
        let ao = after.slot_collection.occupancy();
        let len = before.values@.len();
        let fl = before.slot_collection.free_list();
        assert(fl.contains(fl[0]));
        assert(!(before.slot_collection.slots@[k.slot() as int].index is Value));
        assert(bo[k.slot() as int] is None);
        assert forall|i: int| 0 <= i < after.values_slot@.len() implies (#[trigger] after.values_slot@[i]).row() < n
            && ao[after.values_slot@[i].row() as int] == Some(i as nat) by {
            if i < len {
                assert(after.values_slot@[i] == before.values_slot@[i]);
                assert(bo[before.values_slot@[i].row() as int] == Some(i as nat));
            }
        }
        assert forall|s: int| 0 <= s < n && (#[trigger] ao[s]) is Some implies ao[s].unwrap()
            < after.values_slot@.len() && after.values_slot@[ao[s].unwrap() as int].row() == s by {
            if s != k.slot() {
                assert(ao[s] == bo[s]);
            }
        }
        assert forall|s: nat| #[trigger] after.occupied(s) == (before.occupied(s) || s == k.slot()) by {
            if s < n && s != k.slot() {
                assert(ao[s as int] == bo[s as int]);
            }
        }
        assert forall|j: SlotKey| #[trigger] after.key_valid(j) == (before.key_valid(j) || j == k) by {
            if j.slot() < n && j.slot() != k.slot() {
                assert(ao[j.slot() as int] == bo[j.slot() as int]);
            }
        }
        assert forall|j: SlotKey| before.key_valid(j) implies after.values@[after.position(j)]
            == before.values@[before.position(j)] by {
            assert(j.slot() != k.slot());
            assert(ao[j.slot() as int] == bo[j.slot() as int]);
        }
        assert(after.contents() =~= before.contents().insert(k, after.values@.last()));
    }

    /// The number of values the map can hold.
    pub fn capacity(&self) -> (r: usize)
        ensures
            r == self.spec_capacity(),
    {
        self.slot_collection.slots.len()
    }

    /// The number of values stored.
    pub fn len(&self) -> (r: usize)
        ensures
            r == self.dense().len(),
    {
        self.values.len()
    }

    /// Whether no value is stored.
    pub fn is_empty(&self) -> (r: bool)
        ensures
            r == (self.dense().len() == 0),
    {
        self.values.is_empty()
    }

    /// Whether `key` resolves to a value of this map.
    #[inline]
    pub fn is_valid(&self, key: &SlotKey) -> (r: bool)
        ensures
            r == self.contents().contains_key(*key),
    {
        self.slot_collection.is_valid(key)
    }

    /// The value that `key` names, if the key is valid.
    pub fn get_value(&self, key: &SlotKey) -> (r: Option<&V>)
        requires
            self.wf(),
        ensures
            r is Some <==> self.contents().contains_key(*key),
            r is Some ==> *r.unwrap() == self.contents()[*key],
    {
        match self.slot_collection.get_value_index(key) {
            Some(index) => Some(&self.values[index]),
            None => None,
        }
    }

    /// The number of free slots, counted along the free list.
    pub fn free_list_len(&self) -> (r: usize)
        requires
            self.wf(),
        ensures
            r == self.free_slots().len(),
    {
        self.slot_collection.free_len()
    }

    /// The free slots in free-list order, which is ascending.
    pub fn free_list_slice(&self) -> (r: Vec<usize>)
        requires
            self.wf(),
        ensures
            r@ == self.free_slots(),
    {
        self.slot_collection.free_slice()
    }

    /// Mutable access to the value that `key` names, if the key is valid.
    /// Only that value can change through the returned reference.
    pub fn get_value_mut(&mut self, key: &SlotKey) -> (r: Option<&mut V>)
        requires
            old(self).wf(),
        ensures
            r is Some <==> old(self).contents().contains_key(*key),
            r is None ==> *final(self) == *old(self),
            r is Some ==> {
                &&& *r.unwrap() == old(self).contents()[*key]
                &&& final(self).wf()
                &&& final(self).contents() == old(self).contents().insert(*key, *final(r.unwrap()))
                &&& final(self).dense() == old(self).dense().update(
                    old(self).position(*key),
                    *final(r.unwrap()),
                )
                &&& final(self).generations() == old(self).generations()
                &&& final(self).free_slots() == old(self).free_slots()
                &&& final(self).spec_capacity() == old(self).spec_capacity()
            },
    {
        match self.slot_collection.get_value_index(key) {
            Some(index) => Some(&mut self.values[index]),
            None => None,
        }
    }

    /// Iterates over the stored values in dense order.
    pub fn get_iter(&self) -> (r: std::slice::Iter<'_, V>)
        ensures
            r.remaining() == self.dense().as_ref(),
    {
        self.values.iter()
    }

    /// Iterates mutably over the stored values in dense order. The values
    /// may change; which key names which dense position does not.
    pub fn get_iter_mut(&mut self) -> (r: std::slice::IterMut<'_, V>)
        requires
            old(self).wf(),
        ensures
            r.obeys_prophetic_iter_laws(),
            r.remaining().len() == old(self).dense().len(),
            forall|i: int| 0 <= i < old(self).dense().len() ==> *r.remaining()[i] == old(self).dense()[i],
            forall|i: int|
                0 <= i < old(self).dense().len() ==> final(self).dense()[i] == *final(r.remaining()[i]),
            final(self).wf(),
            final(self).dense().len() == old(self).dense().len(),
            final(self).contents().dom() == old(self).contents().dom(),
            forall|k: SlotKey|
                #[trigger] old(self).contents().contains_key(k) ==> {
                    &&& final(self).position(k) == old(self).position(k)
                    &&& final(self).contents()[k] == final(self).dense()[old(self).position(k)]
                },
            final(self).generations() == old(self).generations(),
            final(self).free_slots() == old(self).free_slots(),
            final(self).spec_capacity() == old(self).spec_capacity(),
    {
        self.values.as_mut_slice().iter_mut()
    }

    /// A value pushed into a map is found under the key that `push` returned,
    /// so that key is valid right away.
    pub proof fn lemma_push_get_round_trip(before: Self, value: V, after: Self, r: Option<SlotKey>)
        requires
            before.wf(),
            Self::push_post(before, value, after, r),
            r is Some,
        ensures
            after.contents().contains_key(r.unwrap()),
            after.contents()[r.unwrap()] == value,
    {
    }

    /// Removing a valid key retires it: its slot moves to a later generation,
    /// so the key no longer resolves. This holds unless the slot's 64-bit
    /// generation counter was at its maximum and wraps.
    pub proof fn lemma_removed_key_retired(before: Self, key: SlotKey, after: Self, r: Option<V>)
        requires
            before.wf(),
            before.contents().contains_key(key),
            Self::remove_post(before, key, after, r),
            before.generations()[key.slot() as int] < u64::MAX,
        ensures
            after.retired(key),
            !after.contents().contains_key(key),
    {
    }

    /// A retired key stays retired, and so never resolves again, through any
    /// later push or removal, even when its slot is reused, as long as the
    /// slot's generation counter does not wrap.
    pub proof fn lemma_retired_key_stays_invalid(before: Self, after: Self, key: SlotKey)
        requires
            before.wf(),
            before.retired(key),
            before.generations()[key.slot() as int] < u64::MAX,
            (exists|v: V, r: Option<SlotKey>| Self::push_post(before, v, after, r)) || (exists|
                j: SlotKey,
                r: Option<V>,
            | Self::remove_post(before, j, after, r)),
        ensures
            after.retired(key),
            !after.contents().contains_key(key),
    {
        if exists|j: SlotKey, r: Option<V>| Self::remove_post(before, j, after, r) {
            let (j, r) = choose|j: SlotKey, r: Option<V>| Self::remove_post(before, j, after, r);
            if before.key_valid(j) {
                assert(after.generations()[key.slot() as int] >= before.generations()[key.slot() as int]);
            }
        } else {
            let (v, r) = choose|v: V, r: Option<SlotKey>| Self::push_post(before, v, after, r);
            assert(after.generations() == before.generations());
        }
    }

    /// Removing a key leaves every other key resolving to the value it had,
    /// though that value may have moved in the dense order, and shrinks the
    /// map by one.
    pub proof fn lemma_remove_keeps_other_keys(before: Self, key: SlotKey, after: Self, r: Option<V>)
        requires
            before.wf(),
            before.contents().contains_key(key),
            Self::remove_post(before, key, after, r),
        ensures
            after.dense().len() == before.dense().len() - 1,
            forall|j: SlotKey|
                #[trigger] before.contents().contains_key(j) && j != key ==> after.contents().contains_key(j)
                    && after.contents()[j] == before.contents()[j],
    {
    }

    /// Removing a key splices its slot into the free list: the list stays
    /// ascending and holds the old free slots plus the freed one.
    pub proof fn lemma_remove_splices_free_slot(before: Self, key: SlotKey, after: Self, r: Option<V>)
        requires
            before.wf(),
            after.wf(),
            before.contents().contains_key(key),
            Self::remove_post(before, key, after, r),
        ensures
            ascending(after.free_slots()),
            after.free_slots().to_multiset() == before.free_slots().to_multiset().insert(
                key.slot() as usize,
            ),
    {
        let p = choose|p: int|
            0 <= p <= before.free_slots().len() && after.free_slots()
                == #[trigger] before.free_slots().insert(p, key.slot() as usize);
        to_multiset_insert(before.free_slots(), p, key.slot() as usize);
    }

    /// Pushing into a full map returns no key and leaves its length and
    /// capacity as they were.
    pub proof fn lemma_push_into_full_map(before: Self, value: V, after: Self, r: Option<SlotKey>)
        requires
            before.wf(),
            before.dense().len() == before.spec_capacity(),
            Self::push_post(before, value, after, r),
        ensures
            r is None,
            after.dense().len() == before.dense().len(),
            after.spec_capacity() == before.spec_capacity(),
    {
    }

    /// Every slot is either free or holds a value: the free list and the
    /// values together account for the whole capacity.
    pub proof fn lemma_free_list_conservation(m: Self)
        requires
            m.wf(),
        ensures
            m.free_slots().len() + m.dense().len() == m.spec_capacity(),
    {
    }

    /// The free list lists exactly the slots without a value, in ascending
    /// order.
    pub proof fn lemma_free_list_ascending(m: Self)
        requires
            m.wf(),
        ensures
            ascending(m.free_slots()),
            forall|s: nat|
                #![trigger m.occupied(s)]
                s < m.spec_capacity() ==> (!m.occupied(s) <==> m.free_slots().contains(s as usize)),
    {
        assert forall|s: nat| s < m.spec_capacity() implies (!m.occupied(s)
            <==> m.free_slots().contains(s as usize)) by {
            assert(m.slot_collection.slots@[s as int].index is Value <==> m.occupied(s));
        }
    }
}

} // verus!
