use vstd::prelude::*;

pub mod bytes;
pub mod cache_entry;
pub mod codec;
pub mod entry;
pub mod hash;
pub mod laws;
pub mod lookup_map;
pub mod storage;

pub use cache_entry::{CacheEntry, EntryState};
pub use codec::BorshCodec;
pub use entry::{Entry, OccupiedEntry, VacantEntry};
pub use hash::{CryptoHasher, Keccak256, Sha256};
pub use lookup_map::LookupMap;
pub use storage::{Storage, StorageOp};

verus! {

} // verus!
