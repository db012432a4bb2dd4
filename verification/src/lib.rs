//! An arena-backed doubly linked list that emulates a sorted associative
//! container with position-hinted insertion and pointer-stable cursors.
//!
//! The list stores nodes in a growable slot arena addressed by integer
//! indices; a free-index stack recycles removed slots (most recently freed
//! first). Ordered insertion searches for the insertion point starting from
//! a caller-supplied hint, which matters for key types whose comparison is
//! expensive or not cheaply decidable from an absolute end.
//!
//! Duplicate-key policy: an ordered insert whose key is already present is a
//! no-op that returns the index of the existing entry; the stored value is
//! kept unchanged.

mod order;
mod list;

pub use order::{Cmp, So, TotalOrdered, eq_k, lt_k};
pub use list::{
    InsertPlan, LinkedList, ListIterator, MapError, PIterator, OUT_OF_BOUNDS, bwd_plan,
    entries_sorted, fwd_plan, insert_plan, inserted_at, lb_scan, lemma_duplicate_insert_is_nop,
    lemma_insert_plan_canonical, lemma_lower_bound_sorted, lemma_push_pop_round_trip,
    lemma_slot_reuse, removed_at,
    slot_preserved,
};
