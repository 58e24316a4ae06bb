//! A set abstraction layered over a hash-ordered trie map.
//!
//! Elements carry a 64-bit key and one word of auxiliary metadata; membership
//! is decided by the key alone. The container descends a fixed-radix trie on
//! the bits of the key's fingerprint, growing the trie locally where two
//! elements collide and never losing an element on reorganisation. Lookups
//! borrow the container and pin the record they return; mutating operations
//! take it exclusively, so a pinned record can never be reclaimed under a
//! reader.

mod bits;
pub mod handle;
pub mod laws;
mod node;
pub mod set;

pub use handle::Elem;
pub use handle::Insertion;
pub use handle::Removed;
pub use set::HashBuilder;
pub use set::Iter;
pub use set::LockFreeSet;
pub use set::ReadGuard;
