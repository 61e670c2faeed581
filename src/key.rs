use vstd::prelude::*;

verus! {

/// Position of a row in the slot table.
#[derive(Debug, Clone, Copy)]
pub struct SlotIndex(pub(crate) usize);

/// Per-slot counter, bumped every time the slot is freed.
///
/// The counter is 64 bits wide and wraps on overflow; a stale key could only
/// be revived after its slot had been freed 2^64 more times.
#[derive(Debug, Clone, Copy, PartialEq, Eq, Structural)]
pub struct Generation(pub(crate) u64);

/// Handle to a value of a slot map: a slot index and the generation of that
/// slot at the time the value was stored.
#[derive(Debug, Clone, Copy)]
pub struct SlotKey {
    pub(crate) index: SlotIndex,
    pub(crate) generation: Generation,
}

impl SlotIndex {
    /// The row this index names.
    pub open(crate) spec fn row(self) -> nat {
        self.0 as nat
    }
}

impl SlotKey {
    /// The slot this key names.
    pub open(crate) spec fn slot(self) -> nat {
        self.index.0 as nat
    }

    /// The generation this key carries.
    pub open(crate) spec fn generation(self) -> u64 {
        self.generation.0
    }
}

} // verus!
