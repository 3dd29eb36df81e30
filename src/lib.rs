//! Values that carry proofs of properties their types do not guarantee, and
//! the memory primitives built on them: pointers into an owned heap, pinned
//! pointers, an allocator of small blocks, and a vector of at most 1024 bytes.

pub mod allocator;
pub mod pin;
pub mod ptr;
pub mod update;
pub mod vec1024;

pub use allocator::{AllocError, Allocator, Layout, Region};
pub use pin::{get_unchecked_mut, Pin};
pub use ptr::{from_raw, into_non_null, into_raw, read, Heap, NonNull, Ptr};
pub use update::{Predicate, Update};
pub use vec1024::Vec1024;
