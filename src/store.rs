//! The base store that the cache sits on: a map from block ids to bytes.
use crate::data::Data;
use std::collections::HashMap;
use vstd::prelude::*;

verus! {

broadcast use vstd::std_specs::hash::group_hash_axioms;

/// Identity of a block: 16 bytes, held as one 128-bit integer.
#[derive(Clone, Copy, Debug, PartialEq, Eq, Structural, Hash)]
pub struct BlockId {
    pub id: u128,
}

impl BlockId {
    pub fn new(id: u128) -> (r: BlockId)
        ensures
            r.id == id,
    {
        BlockId { id }
    }
}

/// Failures of a block store or of the cache above it.
#[derive(Clone, Copy, Debug, PartialEq, Eq, Structural)]
pub enum BlockStoreError {
    /// The underlying storage failed; `code` tells the cause.
    Io { code: u32 },
    /// A stored block failed authentication.
    IntegrityViolation,
    /// A block was to be created under an id that is taken.
    AlreadyExists,
    /// A block is longer than the store can hold.
    BlockTooLarge,
    /// A count of blocks does not fit in 64 bits.
    CountOverflow,
}

/// What `remove` found.
#[derive(Clone, Copy, Debug, PartialEq, Eq, Structural)]
pub enum RemoveResult {
    Removed,
    NotFound,
}

/// A store of blocks, keyed by id.
pub trait BlockStore {
    /// The blocks held, by id.
    spec fn blocks(&self) -> Map<BlockId, Seq<u8>>;

    /// The contents of block `id`, or `None` where the store lacks it.
    fn load(&self, id: &BlockId) -> (r: Result<Option<Data>, BlockStoreError>)
        ensures
            r matches Ok(o) ==> (o is Some <==> self.blocks().contains_key(*id)),
            r matches Ok(Some(d)) ==> d@ == self.blocks()[*id],
    ;

    /// Whether the store holds block `id`.
    fn contains(&self, id: &BlockId) -> (r: Result<bool, BlockStoreError>)
        ensures
            r matches Ok(b) ==> b == self.blocks().contains_key(*id),
    ;

    /// Number of blocks held.
    fn num_blocks(&self) -> (r: Result<u64, BlockStoreError>)
        ensures
            r matches Ok(n) ==> self.blocks().dom().finite() && n == self.blocks().dom().len(),
    ;

    /// Creates or overwrites block `id` with `data`. A failure may leave
    /// block `id` in any state, and no other block changed.
    fn store(&mut self, id: &BlockId, data: &[u8]) -> (r: Result<(), BlockStoreError>)
        ensures
            r is Ok ==> final(self).blocks() == old(self).blocks().insert(*id, data@),
            r is Err ==> final(self).blocks().remove(*id) == old(self).blocks().remove(*id),
    ;

    /// Removes block `id`. A failure may leave block `id` in any state, and no
    /// other block changed.
    fn remove(&mut self, id: &BlockId) -> (r: Result<RemoveResult, BlockStoreError>)
        ensures
            r is Ok ==> final(self).blocks() == old(self).blocks().remove(*id),
            r matches Ok(x) ==> (x == RemoveResult::Removed <==> old(self).blocks().contains_key(*id)),
            r is Err ==> final(self).blocks().remove(*id) == old(self).blocks().remove(*id),
    ;
}

/// A block store that keeps every block in memory.
pub struct InMemoryBlockStore {
    blocks: HashMap<u128, Vec<u8>>,
}

impl InMemoryBlockStore {
    pub fn new() -> (r: InMemoryBlockStore)
        ensures
            r.blocks() == Map::<BlockId, Seq<u8>>::empty(),
    {
        let r = InMemoryBlockStore { blocks: HashMap::new() };
        assert(r.blocks() =~= Map::<BlockId, Seq<u8>>::empty());
        r
    }
}

impl BlockStore for InMemoryBlockStore {
    closed spec fn blocks(&self) -> Map<BlockId, Seq<u8>> {
        Map::new(
            |id: BlockId| self.blocks@.contains_key(id.id),
            |id: BlockId| self.blocks@[id.id]@,
        )
    }

    fn load(&self, id: &BlockId) -> (r: Result<Option<Data>, BlockStoreError>)
        ensures
            r is Ok,
    {
        match self.blocks.get(&id.id) {
            Some(v) => Ok(Some(Data::from_vec(v.clone()))),
            None => Ok(None),
        }
    }

    fn contains(&self, id: &BlockId) -> (r: Result<bool, BlockStoreError>)
        ensures
            r is Ok,
    {
        Ok(self.blocks.contains_key(&id.id))
    }

    fn num_blocks(&self) -> (r: Result<u64, BlockStoreError>)
        ensures
            r is Ok,
    {
        proof {
            let f = |k: u128| BlockId { id: k };
            assert(self.blocks().dom() =~= self.blocks@.dom().map(f));
            assert(vstd::relations::injective_on(f, self.blocks@.dom()));
            vstd::set_lib::lemma_map_size(self.blocks@.dom(), self.blocks().dom(), f);
        }
        Ok(self.blocks.len() as u64)
    }

    fn store(&mut self, id: &BlockId, data: &[u8]) -> (r: Result<(), BlockStoreError>)
        ensures
            r is Ok,
    {
        self.blocks.insert(id.id, vstd::slice::slice_to_vec(data));
        proof {
            assert(self.blocks() =~= old(self).blocks().insert(*id, data@));
        }
        Ok(())
    }

    fn remove(&mut self, id: &BlockId) -> (r: Result<RemoveResult, BlockStoreError>)
        ensures
            r is Ok,
    {
        let removed = self.blocks.remove(&id.id);
        proof {
            assert(self.blocks() =~= old(self).blocks().remove(*id));
        }
        match removed {
            Some(_) => Ok(RemoveResult::Removed),
            None => Ok(RemoveResult::NotFound),
        }
    }
}

} // verus!
