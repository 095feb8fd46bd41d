//! Bounds that every request and every read is held to.

use vstd::prelude::*;

verus! {

pub const MAX_BODY_BYTES: usize = 2097152;
pub const MAX_IMPORT_BYTES: usize = 67108864;
pub const MAX_PACKAGE_RECORDS: usize = 500;
pub const MAX_SLOTS: usize = 64;
pub const MAX_ROLES: usize = 8;
pub const MAX_TAGS: usize = 32;
pub const MAX_BODY_CHARS: usize = 65536;
pub const MAX_CAPTURE_CHARS: usize = 262144;
pub const MAX_PREFETCH_RECORDS: usize = 5000;
pub const MAX_SNAPSHOT_NODES: usize = 5000;
pub const DEFAULT_SNAPSHOT_NODES: usize = 500;
pub const MAX_SEARCH_LIMIT: usize = 200;
pub const DEFAULT_SEARCH_LIMIT: usize = 20;
pub const MAX_LIST_LIMIT: usize = 1000;
pub const DEFAULT_LIST_LIMIT: usize = 200;
pub const MAX_CAPTURE_LIST_LIMIT: usize = 200;
pub const DEFAULT_CAPTURE_LIST_LIMIT: usize = 50;
pub const MAX_EMBEDDING_DIM: usize = 4096;
pub const MAX_EXPORT_RECORDS: usize = 5000;

/// The requested value (or `default`) brought into `1..=max`.
pub fn clamp(requested: Option<usize>, default: usize, max: usize) -> (r: usize)
    requires
        1 <= max,
    ensures
        ({
            let v = match requested {
                Some(x) => x,
                None => default,
            };
            r == if v < 1 { 1 } else if v > max { max } else { v }
        }),
{
    let v = match requested {
        Some(x) => x,
        None => default,
    };
    if v < 1 {
        1
    } else if v > max {
        max
    } else {
        v
    }
}

} // verus!
