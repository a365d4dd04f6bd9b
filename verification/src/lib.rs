//! An in-memory entity store with generation-tagged identifiers and
//! per-component bitset indices.
//!
//! Records ("entities") live in a slot-recycling pool and are addressed by
//! stable identifiers that pair a slot position with a generation counter.
//! Each declared component kind may carry a bitset index that caches which
//! slots currently hold that component; conjunctive queries intersect those
//! indices and walk the matches in ascending slot order.
//!
//! Queries follow a defensive policy: every candidate an index proposes is
//! re-validated against the record's live component presence before it is
//! yielded, so a record mutated behind the store's back is skipped rather
//! than misreported.

use vstd::prelude::*;

mod bits;
mod entity;
mod entity_list;
mod iter;
mod sample;

pub use entity::{ChangeComponent, Component, EntityBase, EntityOps};
pub use entity_list::{occupied_count, EntityId, EntityList, Slot, MAX_SLOTS};
pub use iter::{intersect_ascending, strictly_ascending};
pub use sample::{ComponentA, ComponentB, ComponentC, Entity};
