//! A fixed-depth base-3 Merkle trie over minute-bucketed hybrid logical
//! timestamps.
//!
//! Each inserted item is a timestamp triple (wall-clock milliseconds, a
//! monotonic counter, an origin identifier). The key codec maps the
//! timestamp's minute bucket to a fixed-length base-3 digit path; the trie
//! stores, at every node, the XOR of the hashes of all items inserted into
//! that node's subtree, which lets two replicas locate where their item sets
//! diverge without exchanging every element.

use vstd::prelude::*;

pub mod codec;
pub mod laws;
pub mod trie;
pub mod ts;

pub use codec::CodecError;
pub use codec::Key;
pub use trie::diverging_paths;
pub use trie::insert;
pub use trie::insert_key;
pub use trie::Merkle;
pub use ts::Timestamp;

verus! {

/// Number of base-3 digits in a trie key: the fixed depth of the trie.
pub const KEY_LEN: usize = 16;

/// Milliseconds per time bucket (one minute).
pub const BUCKET_MILLIS: u64 = 60000;

/// Number of addressable buckets: 3 to the power of `KEY_LEN`.
pub const NUM_BUCKETS: u64 = 43046721;

/// Exclusive upper bound on encodable wall-clock milliseconds:
/// `NUM_BUCKETS * BUCKET_MILLIS`.
pub const MILLIS_LIMIT: u64 = 43046721 * 60000;

/// Cap on the length, in characters, of a timestamp's origin identifier.
/// The origin is a bounded-length identifier; this generous cap keeps every
/// canonical string inside the range the hash primitive accepts.
pub const NODE_LIMIT: usize = 0x1000_0000;

} // verus!
