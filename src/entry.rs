//! One cached block: its data, whether it differs from the base store, and
//! whether the base store has ever held it.
use crate::data::Data;
use crate::store::{BlockId, BlockStore, BlockStoreError};
use vstd::prelude::*;

verus! {

#[derive(Clone, Copy, PartialEq, Eq, Debug, Structural)]
pub enum CacheEntryState {
    Dirty,
    Clean,
}

#[derive(Clone, Copy, PartialEq, Eq, Debug, Structural)]
pub enum BlockBaseStoreState {
    ExistsInBaseStore,
    DoesntExistInBaseStore,
}

/// A cached block. Every change of its data makes it `Dirty`; only a
/// successful store into the base store makes it `Clean` again.
pub struct BlockCacheEntry {
    dirty: CacheEntryState,
    data: Data,
    block_exists_in_base_store: BlockBaseStoreState,
}

impl BlockCacheEntry {
    pub closed spec fn state(&self) -> CacheEntryState {
        self.dirty
    }

    pub closed spec fn base_state(&self) -> BlockBaseStoreState {
        self.block_exists_in_base_store
    }

    pub closed spec fn spec_data(&self) -> Data {
        self.data
    }

    pub fn new(
        data: Data,
        dirty: CacheEntryState,
        block_exists_in_base_store: BlockBaseStoreState,
    ) -> (r: BlockCacheEntry)
        ensures
            r.spec_data() == data,
            r.state() == dirty,
            r.base_state() == block_exists_in_base_store,
    {
        BlockCacheEntry { dirty, data, block_exists_in_base_store }
    }

    pub fn block_exists_in_base_store(&self) -> (r: BlockBaseStoreState)
        ensures
            r == self.base_state(),
    {
        self.block_exists_in_base_store
    }

    pub fn is_dirty(&self) -> (r: bool)
        ensures
            r == (self.state() == CacheEntryState::Dirty),
    {
        match self.dirty {
            CacheEntryState::Dirty => true,
            CacheEntryState::Clean => false,
        }
    }

    /// Read access to the data; the state is kept.
    pub fn data(&self) -> (r: &Data)
        ensures
            *r == self.spec_data(),
    {
        &self.data
    }

    /// Write access to the data; the entry becomes `Dirty`.
    pub fn data_mut(&mut self) -> (r: &mut Data)
        ensures
            *r == old(self).spec_data(),
            final(self).spec_data() == *final(r),
            final(self).state() == CacheEntryState::Dirty,
            final(self).base_state() == old(self).base_state(),
    {
        self.dirty = CacheEntryState::Dirty;
        &mut self.data
    }

    /// Resizes the data (see `Data::resize`); the entry becomes `Dirty`.
    pub fn resize(&mut self, new_size: usize)
        requires
            old(self).spec_data().prefix_len() + new_size + old(self).spec_data().suffix_len()
                <= usize::MAX,
        ensures
            final(self).spec_data()@ == if new_size <= old(self).spec_data()@.len() {
                old(self).spec_data()@.subrange(0, new_size as int)
            } else {
                old(self).spec_data()@ + crate::data::zeros(
                    (new_size - old(self).spec_data()@.len()) as nat,
                )
            },
            final(self).spec_data().prefix_len() == old(self).spec_data().prefix_len(),
            new_size <= old(self).spec_data()@.len() ==> final(self).spec_data().suffix_len()
                == old(self).spec_data().suffix_len() + (old(self).spec_data()@.len() - new_size),
            old(self).spec_data()@.len() < new_size <= old(self).spec_data()@.len() + old(self).spec_data().suffix_len()
                ==> final(self).spec_data().suffix_len() == old(self).spec_data().suffix_len() - (new_size
                - old(self).spec_data()@.len()),
            old(self).spec_data()@.len() + old(self).spec_data().suffix_len() < new_size ==> final(self).spec_data().suffix_len()
                == old(self).spec_data().suffix_len(),
            final(self).state() == CacheEntryState::Dirty,
            final(self).base_state() == old(self).base_state(),
    {
        self.data.resize(new_size);
        self.dirty = CacheEntryState::Dirty;
    }

    /// Writes a `Dirty` entry into `base` under `block_id`, and marks it
    /// `Clean` and present in the base store once that succeeded. A `Clean`
    /// entry is left alone. On failure the entry stays `Dirty`.
    pub fn flush<B: BlockStore>(&mut self, block_id: &BlockId, base: &mut B) -> (r: Result<
        (),
        BlockStoreError,
    >)
        ensures
            final(self).spec_data() == old(self).spec_data(),
            old(self).state() == CacheEntryState::Clean ==> r is Ok && *final(self) == *old(self)
                && final(base).blocks() == old(base).blocks(),
            old(self).state() == CacheEntryState::Dirty && r is Ok ==> final(self).state()
                == CacheEntryState::Clean && final(self).base_state()
                == BlockBaseStoreState::ExistsInBaseStore && final(base).blocks() == old(
                base,
            ).blocks().insert(*block_id, old(self).spec_data()@),
            r is Err ==> *final(self) == *old(self) && final(base).blocks().remove(*block_id)
                == old(base).blocks().remove(*block_id),
    {
        if self.is_dirty() {
            match base.store(block_id, self.data.as_slice()) {
                Ok(()) => {
                    self.dirty = CacheEntryState::Clean;
                    self.block_exists_in_base_store = BlockBaseStoreState::ExistsInBaseStore;
                    Ok(())
                },
                Err(e) => Err(e),
            }
        } else {
            Ok(())
        }
    }

    /// Drops the entry without writing it back, whatever its state.
    pub fn discard(self) {
    }
}

} // verus!
