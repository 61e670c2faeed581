use vstd::prelude::*;
use vstd::pervasive::unreached;

use crate::key::{Generation, SlotIndex, SlotKey};

verus! {

/// What a row of the slot table holds.
#[derive(Debug, Clone, Copy)]
pub(crate) enum ValueOrFreeIndex {
    /// Occupied: the position of the slot's value in the dense array.
    Value(usize),
    /// Free, and followed in the free list by the given slot.
    Free(usize),
    /// Free, and the last entry of the free list.
    End,
}

/// One row of the slot table.
pub struct Slot {
    pub(crate) index: ValueOrFreeIndex,
    pub(crate) generation: Generation,
}

/// The generation a slot moves to when it is freed: one more, wrapping.
pub open spec fn next_generation(g: u64) -> u64 {
    if g == u64::MAX {
        0
    } else {
        (g + 1) as u64
    }
}

/// Strictly ascending sequence of slot indices.
pub open spec fn ascending(s: Seq<usize>) -> bool {
    forall|a: int, b: int| 0 <= a < b < s.len() ==> s[a] < s[b]
}

/// An ascending sequence of indices below `n` has at most `n` entries.
proof fn lemma_ascending_len(fl: Seq<usize>, n: nat)
    requires
        ascending(fl),
        forall|j: int| 0 <= j < fl.len() ==> fl[j] < n,
    ensures
        fl.len() <= n,
    decreases fl.len(),
{
    if fl.len() > 0 {
        let init = fl.drop_last();
        assert forall|j: int| 0 <= j < init.len() implies init[j] < fl.last() by {
            assert(fl[j] < fl[fl.len() - 1]);
        }
        lemma_ascending_len(init, fl.last() as nat);
    }
}

/// The fixed-size slot table and its free list.
///
/// The free slots are threaded through the table itself in ascending index
/// order, starting at `free_head`.
pub struct SlotCollection {
    pub(crate) slots: Vec<Slot>,
    pub(crate) free_head: Option<usize>,
    /// The free slots in list order.
    pub(crate) free_order: Ghost<Seq<usize>>,
}

impl SlotCollection {
    /// Number of slots in the table.
    pub open(crate) spec fn slot_count(&self) -> nat {
        self.slots@.len()
    }

    /// For each slot, the dense position of its value, or `None` when free.
    pub open(crate) spec fn occupancy(&self) -> Seq<Option<nat>> {
        Seq::new(
            self.slots@.len(),
            |s: int|
                match self.slots@[s].index {
                    ValueOrFreeIndex::Value(d) => Some(d as nat),
                    _ => None,
                },
        )
    }

    /// The current generation of each slot.
    pub open(crate) spec fn generations(&self) -> Seq<u64> {
        Seq::new(self.slots@.len(), |s: int| self.slots@[s].generation.0)
    }

    /// The free slots, in the order the free list links them.
    pub open(crate) spec fn free_list(&self) -> Seq<usize> {
        self.free_order@
    }

    /// A key is valid when its slot is occupied and still on the key's generation.
    pub open(crate) spec fn key_valid(&self, k: SlotKey) -> bool {
        &&& k.slot() < self.slot_count()
        &&& self.occupancy()[k.slot() as int] is Some
        &&& self.generations()[k.slot() as int] == k.generation()
    }

    /// The link a free-list entry at position `j` must carry.
    pub(crate) open spec fn link_at(fl: Seq<usize>, j: int) -> ValueOrFreeIndex {
        if j + 1 < fl.len() {
            ValueOrFreeIndex::Free(fl[j + 1])
        } else {
            ValueOrFreeIndex::End
        }
    }

    /// Well-formedness of a slot table with the given free-list head and
    /// free-list order: the list is ascending, holds exactly the free slots,
    /// and each free slot links to its successor in the list.
    pub(crate) open spec fn table_wf(slots: Seq<Slot>, head: Option<usize>, fl: Seq<usize>) -> bool {
        &&& ascending(fl)
        &&& forall|j: int| 0 <= j < fl.len() ==> fl[j] < slots.len()
        &&& forall|s: int|
            0 <= s < slots.len() ==> (!(#[trigger] slots[s].index is Value) <==> fl.contains(
                s as usize,
            ))
        &&& head == if fl.len() == 0 {
            None
        } else {
            Some(fl[0])
        }
        &&& forall|j: int|
            0 <= j < fl.len() ==> #[trigger] slots[fl[j] as int].index == Self::link_at(fl, j)
    }

    /// The free list threaded through the table is well formed.
    pub open(crate) spec fn wf(&self) -> bool {
        Self::table_wf(self.slots@, self.free_head, self.free_order@)
    }

    /// The slot table after the occupied slot `k` was linked into the free
    /// list at position `pos`, with the new generation `generation`.
    pub(crate) open spec fn spliced(
        slots: Seq<Slot>,
        fl: Seq<usize>,
        pos: int,
        k: usize,
        generation: Generation,
    ) -> Seq<Slot> {
        let linked = if pos > 0 {
            slots.update(
                fl[pos - 1] as int,
                Slot { index: ValueOrFreeIndex::Free(k), generation: slots[fl[pos - 1] as int].generation },
            )
        } else {
            slots
        };
        linked.update(k as int, Slot { index: Self::link_at(fl.insert(pos, k), pos), generation })
    }

    /// Linking a freed slot into the free list between its neighbours in
    /// ascending order keeps the table well formed.
    proof fn lemma_splice(slots: Seq<Slot>, fl: Seq<usize>, pos: int, k: usize, generation: Generation)
        requires
            Self::table_wf(slots, if fl.len() == 0 { None } else { Some(fl[0]) }, fl),
            slots.len() <= usize::MAX,
            k < slots.len(),
            slots[k as int].index is Value,
            0 <= pos <= fl.len(),
            pos > 0 ==> fl[pos - 1] < k,
            pos < fl.len() ==> k < fl[pos],
        ensures
            Self::table_wf(
                Self::spliced(slots, fl, pos, k, generation),
                Some(fl.insert(pos, k)[0]),
                fl.insert(pos, k),
            ),
    {
        let nfl = fl.insert(pos, k);
        let nslots = Self::spliced(slots, fl, pos, k, generation);
        assert forall|w: int| 0 <= w < nfl.len() implies #[trigger] nfl[w] == if w < pos {
            fl[w]
        } else if w == pos {
            k
        } else {
            fl[w - 1]
        } by {}
        assert(!fl.contains(k));
        assert forall|a: int, b: int| 0 <= a < b < nfl.len() implies nfl[a] < nfl[b] by {
            assert(nfl[a] == if a < pos { fl[a] } else if a == pos { k } else { fl[a - 1] });
            assert(nfl[b] == if b < pos { fl[b] } else if b == pos { k } else { fl[b - 1] });
            if a < pos && pos < b {
                assert(fl[a] <= fl[pos - 1]);
            }
            if a < pos && b == pos {
                assert(fl[a] <= fl[pos - 1]);
            }
            if a == pos && b > pos {
                assert(fl[pos] <= fl[b - 1]);
            }
        }
        assert forall|s: int| 0 <= s < nslots.len() implies (!(
        #[trigger] nslots[s].index is Value) <==> nfl.contains(s as usize)) by {
            if s == k {
                assert(nfl[pos] == k);
                assert(nfl.contains(s as usize));
                assert(!(nslots[s].index is Value));
            } else if pos > 0 && s == fl[pos - 1] {
                assert(nfl[pos - 1] == s as usize);
                assert(nfl.contains(s as usize));
                assert(!(nslots[s].index is Value));
            } else {
                assert(nslots[s] == slots[s]);
                if fl.contains(s as usize) {
                    let w = choose|w: int| 0 <= w < fl.len() && fl[w] == s as usize;
                    if w < pos {
                        assert(nfl[w] == s as usize);
                    } else {
                        assert(nfl[w + 1] == s as usize);
                    }
                    assert(nfl.contains(s as usize));
                }
                if nfl.contains(s as usize) {
                    let w = choose|w: int| 0 <= w < nfl.len() && nfl[w] == s as usize;
                    if w < pos {
                        assert(fl[w] == s as usize);
                    } else if w == pos {
                        assert(nfl[pos] == k);
                    } else {
                        assert(fl[w - 1] == s as usize);
                    }
                    assert(fl.contains(s as usize));
                }
            }
        }
        assert forall|j: int| 0 <= j < nfl.len() implies #[trigger] nslots[nfl[j] as int].index
            == Self::link_at(nfl, j) by {
            if j < pos - 1 {
                assert(nfl[j] == fl[j]);
                assert(fl[j] < fl[pos - 1]);
                assert(nslots[fl[j] as int] == slots[fl[j] as int]);
                assert(slots[fl[j] as int].index == Self::link_at(fl, j));
                assert(nfl[j + 1] == fl[j + 1]);
            } else if j == pos - 1 {
                assert(nfl[j] == fl[pos - 1]);
                assert(nfl[j + 1] == k);
            } else if j == pos {
            } else {
                assert(nfl[j] == fl[j - 1]);
                assert(fl[j - 1] > k);
                if pos > 0 {
                    assert(fl[j - 1] > fl[pos - 1]);
                }
                assert(nslots[fl[j - 1] as int] == slots[fl[j - 1] as int]);
                assert(slots[fl[j - 1] as int].index == Self::link_at(fl, j - 1));
                if j + 1 < nfl.len() {
                    assert(nfl[j + 1] == fl[j]);
                }
            }
        }
    }

    /// A table of `capacity` free slots on generation 0, linked in index
    /// order.
    pub fn new(capacity: usize) -> (r: Self)
        ensures
            r.wf(),
            r.slot_count() == capacity,
            r.occupancy() == Seq::new(capacity as nat, |s: int| None::<nat>),
            r.generations() == Seq::new(capacity as nat, |s: int| 0u64),
            r.free_list() == Seq::new(capacity as nat, |s: int| s as usize),
    {
        let mut slots: Vec<Slot> = Vec::with_capacity(capacity);
        let mut index: usize = 0;
        while index < capacity
            invariant
                index <= capacity,
                slots@.len() == index,
                forall|s: int|
                    0 <= s < index ==> (#[trigger] slots@[s]).generation.0 == 0 && slots@[s].index
                        == if s + 1 < capacity {
                        ValueOrFreeIndex::Free((s + 1) as usize)
                    } else {
                        ValueOrFreeIndex::End
                    },
            decreases capacity - index,
        {
            if index + 1 < capacity {
                slots.push(
                    Slot { index: ValueOrFreeIndex::Free(index + 1), generation: Generation(0) },
                );
            } else {
                slots.push(Slot { index: ValueOrFreeIndex::End, generation: Generation(0) });
            }
            index += 1;
        }
        let free_head = if capacity == 0 {
            None
        } else {
            Some(0)
        };
        let ghost fl = Seq::new(capacity as nat, |s: int| s as usize);
        let r = SlotCollection { slots, free_head, free_order: Ghost(fl) };
        proof {
            assert forall|s: int| 0 <= s < capacity implies #[trigger] fl.contains(s as usize) by {
                assert(fl[s] == s as usize);
            }
            assert(r.occupancy() =~= Seq::new(capacity as nat, |s: int| None::<nat>));
            assert(r.generations() =~= Seq::new(capacity as nat, |s: int| 0u64));
        }
        r
    }

    /// Whether `slot_key` names an occupied slot that is still on the key's
    /// generation. A key from a larger table is not valid here.
    #[inline]
    pub fn is_valid(&self, slot_key: &SlotKey) -> (r: bool)
        ensures
            r == self.key_valid(*slot_key),
    {
        if slot_key.index.0 >= self.slots.len() {
            return false;
        }
        let slot = &self.slots[slot_key.index.0];
        match slot.index {
            ValueOrFreeIndex::Value(_) => slot.generation == slot_key.generation,
            _ => false,
        }
    }

    /// The dense position of the value that `slot_key` names, if the key is
    /// valid.
    pub fn get_value_index(&self, slot_key: &SlotKey) -> (r: Option<usize>)
        ensures
            r is Some <==> self.key_valid(*slot_key),
            r is Some ==> self.occupancy()[slot_key.slot() as int] == Some(r.unwrap() as nat),
    {
        if !self.is_valid(slot_key) {
            return None;
        }
        match self.slots[slot_key.index.0].index {
            ValueOrFreeIndex::Value(index) => Some(index),
            _ => None,
        }
    }

    /// Takes the first slot of the free list, points it at the dense position
    /// `value_index`, and returns its key. Returns `None`, changing nothing,
    /// when no slot is free.
    pub fn take_slot(&mut self, value_index: usize) -> (r: Option<SlotKey>)
        requires
            old(self).wf(),
        ensures
            final(self).wf(),
            old(self).free_list().len() == 0 ==> r is None && *final(self) == *old(self),
            old(self).free_list().len() > 0 ==> {
                let s = old(self).free_list()[0];
                &&& r is Some
                &&& r.unwrap().slot() == s
                &&& r.unwrap().generation() == old(self).generations()[s as int]
                &&& final(self).occupancy() == old(self).occupancy().update(
                    s as int,
                    Some(value_index as nat),
                )
                &&& final(self).free_list() == old(self).free_list().drop_first()
            },
            final(self).slot_count() == old(self).slot_count(),
            final(self).generations() == old(self).generations(),
    {
        let free_head_index = match self.free_head {
            Some(index) => index,
            None => {
                return None;
            },
        };
        let ghost fl = self.free_order@;
        proof {
            assert(self.slots@[fl[0] as int].index == Self::link_at(fl, 0));
        }
        let next = match self.slots[free_head_index].index {
            ValueOrFreeIndex::Free(next_free) => Some(next_free),
            ValueOrFreeIndex::End => None,
            ValueOrFreeIndex::Value(_) => unreached(),
        };
        let generation = self.slots[free_head_index].generation;
        self.free_head = next;
        self.slots[free_head_index] = Slot { index: ValueOrFreeIndex::Value(value_index), generation };
        self.free_order = Ghost(fl.drop_first());
        proof {
            let nfl = fl.drop_first();
            assert(self.slots@.len() == self.slots.len());
            assert forall|s: int| 0 <= s < self.slots@.len() implies (!(
            #[trigger] self.slots@[s].index is Value) <==> nfl.contains(s as usize)) by {
                if s != free_head_index {
                    if fl.contains(s as usize) {
                        let w = choose|w: int| 0 <= w < fl.len() && fl[w] == s as usize;
                        assert(w != 0);
                        assert(nfl[w - 1] == s as usize);
                    }
                    if nfl.contains(s as usize) {
                        let w = choose|w: int| 0 <= w < nfl.len() && nfl[w] == s as usize;
                        assert(fl[w + 1] == s as usize);
                    }
                } else if nfl.contains(s as usize) {
                    let w = choose|w: int| 0 <= w < nfl.len() && nfl[w] == s as usize;
                    assert(fl[0] < fl[w + 1]);
                }
            }
            assert forall|j: int| 0 <= j < nfl.len() implies #[trigger] self.slots@[nfl[j] as int].index
                == Self::link_at(nfl, j) by {
                assert(fl[0] < fl[j + 1]);
                assert(old(self).slots@[fl[j + 1] as int].index == Self::link_at(fl, j + 1));
            }
            assert(self.occupancy() =~= old(self).occupancy().update(
                free_head_index as int,
                Some(value_index as nat),
            ));
            assert(self.generations() =~= old(self).generations());
        }
        Some(SlotKey { index: SlotIndex(free_head_index), generation })
    }

    /// Number of free slots, counted by walking the free list.
    pub fn free_len(&self) -> (r: usize)
        requires
            self.wf(),
        ensures
            r == self.free_list().len(),
    {
        let ghost fl = self.free_order@;
        proof {
            lemma_ascending_len(fl, self.slots@.len());
            assert(self.slots@.len() == self.slots.len());
        }
        match self.free_head {
            Some(free_head_index) => {
                let mut length: usize = 0;
                let mut current_index = free_head_index;
                loop
                    invariant
                        self.wf(),
                        fl == self.free_order@,
                        fl.len() <= usize::MAX,
                        0 <= length < fl.len(),
                        fl[length as int] == current_index,
                    decreases fl.len() - length,
                {
                    proof {
                        assert(self.slots@[fl[length as int] as int].index == Self::link_at(
                            fl,
                            length as int,
                        ));
                    }
                    length += 1;
                    match self.slots[current_index].index {
                        ValueOrFreeIndex::Free(next_index) => {
                            current_index = next_index;
                        },
                        ValueOrFreeIndex::End => {
                            return length;
                        },
                        ValueOrFreeIndex::Value(_) => {
                            return unreached();
                        },
                    }
                }
            },
            None => 0,
        }
    }

    /// The free slots in free-list order, which is ascending.
    pub fn free_slice(&self) -> (r: Vec<usize>)
        requires
            self.wf(),
        ensures
            r@ == self.free_list(),
    {
        let ghost fl = self.free_order@;
        let mut free_slice: Vec<usize> = Vec::new();
        match self.free_head {
            Some(free_head_index) => {
                let mut current_index = free_head_index;
                loop
                    invariant
                        self.wf(),
                        fl == self.free_order@,
                        0 <= free_slice@.len() < fl.len(),
                        free_slice@ == fl.subrange(0, free_slice@.len() as int),
                        fl[free_slice@.len() as int] == current_index,
                    decreases fl.len() - free_slice@.len(),
                {
                    proof {
                        assert(self.slots@[fl[free_slice@.len() as int] as int].index
                            == Self::link_at(fl, free_slice@.len() as int));
                    }
                    free_slice.push(current_index);
                    match self.slots[current_index].index {
                        ValueOrFreeIndex::Free(next_index) => {
                            current_index = next_index;
                        },
                        ValueOrFreeIndex::End => {
                            proof {
                                assert(free_slice@ =~= fl);
                            }
                            return free_slice;
                        },
                        ValueOrFreeIndex::Value(_) => {
                            return unreached();
                        },
                    }
                }
            },
            None => {},
        }
        proof {
            assert(free_slice@ =~= fl);
        }
        free_slice
    }

    /// The slot occupancy after a swap-remove retargeted `change.0` to the
    /// dense position `change.1`.
    pub open(crate) spec fn retargeted(
        occupancy: Seq<Option<nat>>,
        change: Option<(SlotIndex, usize)>,
    ) -> Seq<Option<nat>> {
        match change {
            Some((moved, d)) => occupancy.update(moved.row() as int, Some(d as nat)),
            None => occupancy,
        }
    }

    /// Frees the slot named by `slot_key`, moving it to its next generation so
    /// that every key issued for it stops resolving, and links it into the
    /// free list at its place in ascending order.
    ///
    /// When a swap-remove moved another value, `slot_value_change` names the
    /// slot of that value and its new dense position; that slot keeps its
    /// generation.
    pub fn return_slot(&mut self, slot_key: SlotKey, slot_value_change: Option<(SlotIndex, usize)>)
        requires
            old(self).wf(),
            old(self).key_valid(slot_key),
            match slot_value_change {
                Some((moved, _)) => {
                    &&& moved.row() < old(self).slot_count()
                    &&& old(self).occupancy()[moved.row() as int] is Some
                    &&& moved.row() != slot_key.slot()
                },
                None => true,
            },
        ensures
            final(self).wf(),
            final(self).slot_count() == old(self).slot_count(),
            final(self).occupancy() == Self::retargeted(
                old(self).occupancy(),
                slot_value_change,
            ).update(slot_key.slot() as int, None),
            final(self).generations() == old(self).generations().update(
                slot_key.slot() as int,
                next_generation(old(self).generations()[slot_key.slot() as int]),
            ),
            final(self).free_list().len() == old(self).free_list().len() + 1,
            exists|p: int|
                0 <= p <= old(self).free_list().len() && final(self).free_list()
                    == #[trigger] old(self).free_list().insert(p, slot_key.slot() as usize),
    {
        let k = slot_key.index.0;
        if let Some((moved, dense_index)) = slot_value_change {
            let generation = self.slots[moved.0].generation;
            self.slots[moved.0] = Slot { index: ValueOrFreeIndex::Value(dense_index), generation };
        }
        let ghost mid = self.slots@;
        let generation = Generation(self.slots[k].generation.0.wrapping_add(1));
        let ghost fl = self.free_order@;
        let ghost pos: int;
        match self.free_head {
            None => {
                self.slots[k] = Slot { index: ValueOrFreeIndex::End, generation };
                self.free_head = Some(k);
                proof {
                    pos = 0;
                }
            },
            Some(head) => {
                if head > k {
                    self.slots[k] = Slot { index: ValueOrFreeIndex::Free(head), generation };
                    self.free_head = Some(k);
                    proof {
                        pos = 0;
                    }
                } else {
                    let (prev, Ghost(j)) = self.free_predecessor(k);
                    let prev_generation = self.slots[prev].generation;
                    let successor = self.slots[prev].index;
                    self.slots[prev] = Slot {
                        index: ValueOrFreeIndex::Free(k),
                        generation: prev_generation,
                    };
                    self.slots[k] = Slot { index: successor, generation };
                    proof {
                        pos = j + 1;
                        assert(mid[fl[j] as int].index == Self::link_at(fl, j));
                    }
                }
            },
        }
        self.free_order = Ghost(fl.insert(pos, k));
        proof {
            assert(mid.len() == old(self).slots.len());
            assert(Self::table_wf(mid, old(self).free_head, fl));
            assert(self.slots@ =~= Self::spliced(mid, fl, pos, k, generation));
            Self::lemma_splice(mid, fl, pos, k, generation);
            assert(self.occupancy() =~= Self::retargeted(
                old(self).occupancy(),
                slot_value_change,
            ).update(slot_key.slot() as int, None));
            assert(self.generations() =~= old(self).generations().update(
                slot_key.slot() as int,
                next_generation(old(self).generations()[slot_key.slot() as int]),
            ));
        }
    }

    /// The free slot after which slot `k` belongs in the ascending free list:
    /// the last free slot below `k`, with its position in the list.
    fn free_predecessor(&self, k: usize) -> (r: (usize, Ghost<int>))
        requires
            self.wf(),
            self.free_list().len() > 0,
            self.free_list()[0] < k,
            !self.free_list().contains(k),
        ensures
            0 <= r.1@ < self.free_list().len(),
            self.free_list()[r.1@] == r.0,
            r.0 < k,
            r.1@ + 1 < self.free_list().len() ==> self.free_list()[r.1@ + 1] > k,
    {
        let ghost fl = self.free_order@;
        let mut prev = self.free_head.unwrap();
        let ghost mut j: int = 0;
        loop
            invariant
                self.wf(),
                fl == self.free_order@,
                !fl.contains(k),
                0 <= j < fl.len(),
                fl[j] == prev,
                prev < k,
            decreases fl.len() - j,
        {
            proof {
                assert(self.slots@[fl[j] as int].index == Self::link_at(fl, j));
            }
            match self.slots[prev].index {
                ValueOrFreeIndex::Free(next) => {
                    if next > k {
                        return (prev, Ghost(j));
                    }
                    assert(next != k);
                    prev = next;
                    proof {
                        j = j + 1;
                    }
                },
                ValueOrFreeIndex::End => {
                    return (prev, Ghost(j));
                },
                ValueOrFreeIndex::Value(_) => {
                    return unreached();
                },
            }
        }
    }
}

} // verus!
