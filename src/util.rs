//! Small numeric helpers shared by the extractor and the aggregator.
use vstd::prelude::*;

verus! {

/// Index of the size bucket for a transaction of `size` bytes.
pub open spec fn bucket_of(size: int) -> int {
    if size <= 256 {
        0
    } else if size <= 512 {
        1
    } else if size <= 1024 {
        2
    } else if size <= 2048 {
        3
    } else if size <= 4096 {
        4
    } else {
        5
    }
}

/// Size bucket index for a transaction size in bytes: closed intervals
/// [0,256], [257,512], [513,1024], [1025,2048], [2049,4096], then 4097 and up.
pub fn size_bucket(size_bytes: u32) -> (r: u8)
    ensures
        r as int == bucket_of(size_bytes as int),
        r <= 5,
{
    if size_bytes <= 256 {
        0
    } else if size_bytes <= 512 {
        1
    } else if size_bytes <= 1024 {
        2
    } else if size_bytes <= 2048 {
        3
    } else if size_bytes <= 4096 {
        4
    } else {
        5
    }
}

/// Every size falls in one of the six buckets, and a larger size never falls
/// in a lower bucket.
pub proof fn lemma_size_bucket_range_monotone(s: int, t: int)
    requires
        0 <= s <= t,
    ensures
        0 <= bucket_of(s) <= 5,
        bucket_of(s) <= bucket_of(t),
{
}

} // verus!
