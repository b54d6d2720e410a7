//! An extendible-hashing index: a directory of `2^global_depth` slots that
//! route keys, by the low-order bits of their hash, to fixed-capacity
//! buckets. Buckets split when they overflow and merge when they empty; the
//! directory doubles and halves with them, and no operation ever rehashes
//! the whole table.

pub mod bucket;
pub mod key;
pub mod laws;
pub mod model;
pub mod directory;

pub use self::bucket::Bucket;
pub use self::directory::{ExtendiableHash, InsertError, Mode};
pub use self::key::HashKey;
