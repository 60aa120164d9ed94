//! ParallelHash128 of NIST SP 800-185 as a streaming engine over cSHAKE128.

pub mod construction;
pub mod cshake;
pub mod parallel_hash;
pub mod utils;
