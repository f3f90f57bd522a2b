//! A local filesystem name index: a character-keyed prefix tree holding path
//! values, a crawler that populates it from directory listings, a sharded
//! persistence layer, and point/prefix query engines on top.
use vstd::prelude::*;

pub mod background;
pub mod codec;
pub mod data;
pub mod generate;
pub mod search_engine;

verus! {

/// True when `c` is an ASCII upper-case letter. Shard file names record this
/// so that two buckets differing only in letter case get distinct files even
/// on case-insensitive filesystems.
pub fn is_upper_ascii(c: char) -> (r: bool)
    ensures
        r == (65 <= c as u32 <= 90),
{
    let u = c as u32;
    65 <= u && u <= 90
}

} // verus!
