//! Permutations of a sequence, generated in place.
//!
//! Two engines walk Heap's order, in which each arrangement differs from the
//! one before by a single exchange: `Heap`, a resumable walker that steps
//! one arrangement at a time, and `heap_recursive`, which hands every
//! arrangement to a callback. Both are specified against `heap_visits`, the
//! list of arrangements that order visits. `next_in_lexical_order` steps to
//! the next arrangement in lexicographic order instead.
pub mod arrange;
pub mod control;
pub mod iterative;
pub mod lexical;
pub mod recursive;

pub use arrange::{fact, factorial, swapped};
pub use control::{Control, ControlFlow};
pub use iterative::{Heap, MAXHEAP};
pub use lexical::next_in_lexical_order;
pub use recursive::{heap_end, heap_recursive, heap_visits};
