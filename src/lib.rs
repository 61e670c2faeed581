//! A fixed-capacity generational slot map.
//!
//! Values live densely packed in a `Vec`; callers hold copyable `SlotKey`
//! handles. A key names a slot of the slot table together with the generation
//! the slot had when the key was issued, so a key whose value was removed no
//! longer resolves, even after its slot has been reused.

pub mod key;
pub mod slot_collection;
pub mod slotmap;

pub use key::{Generation, SlotIndex, SlotKey};
pub use slot_collection::{Slot, SlotCollection};
pub use slotmap::Slotmap;
