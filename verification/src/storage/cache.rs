//! The cache of decoded table blocks.

use moka::sync::Cache;
use std::sync::Arc;
use vstd::prelude::*;

verus! {

#[verifier::external_type_specification]
#[verifier::external_body]
#[verifier::reject_recursive_types(K)]
#[verifier::reject_recursive_types(V)]
#[verifier::reject_recursive_types(S)]
pub struct ExCache<K, V, S>(moka::sync::Cache<K, V, S>);

/// What was inserted into the cache and neither replaced nor invalidated since, by table
/// and block. The cache may have evicted any of it.
pub uninterp spec fn cached_blocks(cache: Cache<(u64, usize), Arc<Vec<u8>>>) -> Map<
    (u64, usize),
    Seq<u8>,
>;

/// The cache was built with support for invalidation by a closure.
pub uninterp spec fn invalidates(cache: Cache<(u64, usize), Arc<Vec<u8>>>) -> bool;

/// Calls `moka::sync::Cache::builder` and the builder's `max_capacity`, `weigher`,
/// `support_invalidation_closures` and `build`, which make an empty cache that bounds the
/// sum of its blocks' weights and supports invalidation by a closure. The bound is not part
/// of the claim.
#[verifier::external_body]
fn build_cache(capacity_bytes: u64) -> (cache: Cache<(u64, usize), Arc<Vec<u8>>>)
    ensures
        cached_blocks(cache) == no_blocks(),
        invalidates(cache),
{
    Cache::builder()
        .max_capacity(capacity_bytes)
        .weigher(|_key: &(u64, usize), value: &Arc<Vec<u8>>| -> u32 { block_weight(value) })
        .support_invalidation_closures()
        .build()
}

/// Calls `moka::sync::Cache::get`: a block that comes back is the one that was inserted
/// last under the key and not invalidated since. Whether one comes back depends on what
/// the cache has evicted.
#[verifier::external_body]
fn lookup(cache: &Cache<(u64, usize), Arc<Vec<u8>>>, key: (u64, usize)) -> (block: Option<
    Arc<Vec<u8>>,
>)
    ensures
        block matches Some(b) ==> cached_blocks(*cache).contains_key(key) && cached_blocks(
            *cache,
        )[key] == b@,
{
    cache.get(&key)
}

/// Calls `moka::sync::Cache::insert`, which puts the block under the key in place of what
/// stood there.
#[verifier::external_body]
fn store(cache: &mut Cache<(u64, usize), Arc<Vec<u8>>>, key: (u64, usize), block: Arc<Vec<u8>>)
    ensures
        cached_blocks(*final(cache)) == cached_blocks(*old(cache)).insert(key, block@),
        invalidates(*final(cache)) == invalidates(*old(cache)),
{
    cache.insert(key, block)
}

/// Calls `moka::sync::Cache::invalidate_entries_if` on a cache that was built with support
/// for it: no block that was inserted before and whose key belongs to the table comes back.
/// It fails, here with `false`, on a cache without that support alone.
#[verifier::external_body]
fn forget_table(cache: &mut Cache<(u64, usize), Arc<Vec<u8>>>, sst_id: u64) -> (done: bool)
    requires
        invalidates(*old(cache)),
    ensures
        done,
        cached_blocks(*final(cache)) == without_table(cached_blocks(*old(cache)), sst_id),
        invalidates(*final(cache)),
{
    cache.invalidate_entries_if(move |key, _block| of_table(key, sst_id)).is_ok()
}

/// Calls `moka::sync::Cache::weighted_size`, an estimate of which nothing is claimed.
#[verifier::external_body]
fn estimate_size(cache: &Cache<(u64, usize), Arc<Vec<u8>>>) -> (size: u64) {
    cache.weighted_size()
}

/// Calls `moka::sync::Cache::entry_count`, an estimate of which nothing is claimed.
#[verifier::external_body]
fn estimate_count(cache: &Cache<(u64, usize), Arc<Vec<u8>>>) -> (count: u64) {
    cache.entry_count()
}

pub open spec fn no_blocks() -> Map<(u64, usize), Seq<u8>> {
    Map::empty()
}

/// The blocks that are not of the table.
pub open spec fn without_table(blocks: Map<(u64, usize), Seq<u8>>, sst_id: u64) -> Map<
    (u64, usize),
    Seq<u8>,
> {
    blocks.restrict(Set::new(|key: (u64, usize)| key.0 != sst_id))
}

fn of_table(key: &(u64, usize), sst_id: u64) -> (result: bool)
    ensures
        result == (key.0 == sst_id),
{
    key.0 == sst_id
}

/// What a block counts for in the cache: its length, as far as 32 bits can hold it.
pub fn block_weight(block: &Vec<u8>) -> (weight: u32)
    ensures
        weight == if block@.len() <= u32::MAX {
            block@.len() as u32
        } else {
            u32::MAX
        },
{
    if block.len() <= u32::MAX as usize {
        block.len() as u32
    } else {
        u32::MAX
    }
}

/// Which block of which table.
#[derive(Debug, Clone, Copy, PartialEq, Eq, Hash, Structural)]
pub struct BlockCacheKey {
    pub sst_id: u64,
    pub block_idx: usize,
}

impl BlockCacheKey {
    pub open spec fn pair(self) -> (u64, usize) {
        (self.sst_id, self.block_idx)
    }

    pub fn new(sst_id: u64, block_idx: usize) -> (key: Self)
        ensures
            key == (BlockCacheKey { sst_id, block_idx }),
    {
        BlockCacheKey { sst_id, block_idx }
    }
}

pub struct BlockCache {
    inner: Cache<(u64, usize), Arc<Vec<u8>>>,
}

impl View for BlockCache {
    type V = Map<(u64, usize), Seq<u8>>;

    /// The blocks that a lookup may give back.
    closed spec fn view(&self) -> Map<(u64, usize), Seq<u8>> {
        cached_blocks(self.inner)
    }
}

impl BlockCache {
    /// The cache can drop the blocks of one table.
    pub closed spec fn wf(&self) -> bool {
        invalidates(self.inner)
    }

    pub fn new(capacity_bytes: u64) -> (cache: Self)
        ensures
            cache.wf(),
            cache@ == no_blocks(),
    {
        BlockCache { inner: build_cache(capacity_bytes) }
    }

    /// The block under the key, unless it was never inserted, invalidated or evicted.
    pub fn get(&self, key: &BlockCacheKey) -> (block: Option<Arc<Vec<u8>>>)
        ensures
            block matches Some(b) ==> self@.contains_key(key.pair()) && self@[key.pair()] == b@,
            !self@.contains_key(key.pair()) ==> block is None,
    {
        lookup(&self.inner, (key.sst_id, key.block_idx))
    }

    pub fn insert(&mut self, key: BlockCacheKey, block: Vec<u8>)
        ensures
            final(self).wf() == old(self).wf(),
            final(self)@ == old(self)@.insert(key.pair(), block@),
    {
        store(&mut self.inner, (key.sst_id, key.block_idx), Arc::new(block));
    }

    /// Drops the blocks of one table.
    pub fn invalidate_sst(&mut self, sst_id: u64)
        requires
            old(self).wf(),
        ensures
            final(self).wf(),
            final(self)@ == without_table(old(self)@, sst_id),
    {
        forget_table(&mut self.inner, sst_id);
    }

    /// Roughly how many bytes the cache holds.
    pub fn weighted_size(&self) -> u64 {
        estimate_size(&self.inner)
    }

    /// Roughly how many blocks the cache holds.
    pub fn entry_count(&self) -> u64 {
        estimate_count(&self.inner)
    }
}

/// Dropping a table leaves none of its blocks in the cache and all of the others.
pub proof fn lemma_dropped_table(blocks: Map<(u64, usize), Seq<u8>>, sst_id: u64, key: (u64, usize))
    ensures
        without_table(blocks, sst_id).contains_key(key) <==> blocks.contains_key(key) && key.0
            != sst_id,
        without_table(blocks, sst_id).contains_key(key) ==> without_table(blocks, sst_id)[key]
            == blocks[key],
        !no_blocks().contains_key(key),
{
}

} // verus!
