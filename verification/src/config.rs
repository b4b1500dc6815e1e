//! The process-wide configuration, fixed once a client is constructed.

use vstd::prelude::*;

verus! {

/// Connection, cache and budget settings for one client.
///
/// The two budgets are in bytes; `cache_block_size` partitions cached ranges;
/// `cache_objects_from_s3` decides whether reads from the backing store
/// populate the cache; `force_relocation_when_stopping` makes `stop` flush
/// all cache-resident bytes first.
pub struct GEDSConfig {
    pub metadata_service_address: String,
    pub listen_address: String,
    pub hostname: String,
    pub port: u16,
    pub port_http_server: u16,
    pub local_storage_path: String,
    pub cache_block_size: usize,
    pub cache_objects_from_s3: bool,
    pub available_local_storage: usize,
    pub available_local_memory: usize,
    pub force_relocation_when_stopping: bool,
    pub pub_sub_enabled: bool,
}

/// `v` capped at what a `usize` can hold.
pub open spec fn capped_at_usize(v: int) -> int {
    if v <= usize::MAX as int {
        v
    } else {
        usize::MAX as int
    }
}

/// The combined cache budget: local storage plus local memory, saturating.
pub open spec fn combined_budget(c: GEDSConfig) -> int {
    capped_at_usize(c.available_local_storage + c.available_local_memory)
}

/// `count` gibibytes in bytes, saturating at `usize::MAX`.
pub fn gibibytes(count: usize) -> (r: usize)
    ensures
        r as int == capped_at_usize(count * 0x40000000),
{
    match count.checked_mul(0x40000000) {
        Some(v) => v,
        None => usize::MAX,
    }
}

/// The combined cache budget of `c`, saturating at `usize::MAX`.
pub fn budget_of(c: &GEDSConfig) -> (r: usize)
    ensures
        r as int == combined_budget(*c),
{
    match c.available_local_storage.checked_add(c.available_local_memory) {
        Some(v) => v,
        None => usize::MAX,
    }
}

} // verus!
