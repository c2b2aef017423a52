//! A separately chained hash map with an entry interface and two iterators,
//! and a flattening cursor over nested sequences.
pub mod buckets;
pub mod flatten;
pub mod hashmap;
pub mod key;
pub mod laws;

pub use flatten::{flatten, Flatten};
pub use hashmap::{Entry, HashMap, ItemIter, OccupiedEntry, RefIter, VacantEntry};
pub use key::MapKey;
