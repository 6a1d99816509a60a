//! A typed layer over an ordered byte-keyed store with an associative merge.
//!
//! Keys and values are written through codecs ([`Serializable`],
//! [`Deserializable`]); values that accumulate are folded by the reducer in
//! [`reducer`], which the engine runs on a stored base and its pending merge
//! operands. A `put` writes a new base: operands enqueued after it are folded
//! into that base on the next read or compaction.
pub mod codec;
pub mod msgpack;
pub mod order;
pub mod reducer;
pub mod store;
pub mod string_set;

pub use codec::{Deserializable, Serializable};
pub use reducer::AssociateMergeable;
pub use store::EntryError;
pub use string_set::{MalformedSet, StringSet};
