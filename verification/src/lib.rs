pub mod block;
pub mod codec;
pub mod create;
pub mod digestwithid;
pub mod digest;
pub mod error;
pub mod laws;
pub mod merge;
pub mod parallel;

use vstd::prelude::*;

verus! {

/// Number of bytes in one digest record.
pub const HASH_SIZE: usize = 16;

/// First byte of the comparison key inside a digest; ordering looks only at
/// bytes `START_CMP..HASH_SIZE`.
pub const START_CMP: usize = 10;

} // verus!
