//! A fixed-capacity, open-addressing hash table with elastic probing.
//!
//! The index space is split into sub-arrays of geometrically shrinking size.
//! A key is looked for along one short pseudo-random probe sequence per
//! sub-array, the same on insertion and on lookup.

pub mod contents;
pub mod key;
pub mod partition;
pub mod probe;
pub mod slots;
pub mod table;

pub use key::TableKey;
pub use probe::PROBE_LIMIT;
pub use slots::Error;
pub use table::ElasticHashTable;
