//! A write-back block cache of bounded size over a base store. Reads see the
//! newest data of a block; changes reach the base store on flush, on eviction
//! and on tear-down, and a changed block is never dropped unwritten.
use crate::data::Data;
use crate::entry::{BlockBaseStoreState, BlockCacheEntry, CacheEntryState};
use crate::store::{BlockId, BlockStore, BlockStoreError, RemoveResult};
use vstd::prelude::*;

verus! {

/// No id occurs twice in `ids`.
pub open spec fn distinct_ids(ids: Seq<BlockId>) -> bool {
    forall|i: int, j: int| 0 <= i < ids.len() && 0 <= j < ids.len() && i != j ==> ids[i] != ids[j]
}

/// The position of `id` in `ids`.
pub open spec fn index_of(ids: Seq<BlockId>, id: BlockId) -> int {
    choose|i: int| 0 <= i < ids.len() && ids[i] == id
}

/// The cached ids after a cache of capacity `capacity` used block `id`: a
/// cached id moves to the back (most recently used); a new one is appended,
/// after the front (least recently used) id was evicted where the cache was
/// full.
pub open spec fn ids_after_use(ids: Seq<BlockId>, capacity: nat, id: BlockId) -> Seq<BlockId> {
    if ids.contains(id) {
        ids.remove(index_of(ids, id)).push(id)
    } else if ids.len() >= capacity {
        ids.subrange(1, ids.len() as int).push(id)
    } else {
        ids.push(id)
    }
}

/// The two maps agree on whether they hold `id`, and on its value.
pub open spec fn agree_at(a: Map<BlockId, Seq<u8>>, b: Map<BlockId, Seq<u8>>, id: BlockId) -> bool {
    &&& a.contains_key(id) == b.contains_key(id)
    &&& a.contains_key(id) ==> a[id] == b[id]
}

proof fn lemma_agree_everywhere(a: Map<BlockId, Seq<u8>>, b: Map<BlockId, Seq<u8>>)
    requires
        forall|id: BlockId| #[trigger] agree_at(a, b, id),
    ensures
        a == b,
{
    assert forall|id: BlockId| a.dom().contains(id) == b.dom().contains(id) by {
        assert(agree_at(a, b, id));
    }
    assert forall|id: BlockId| a.dom().contains(id) implies a[id] == b[id] by {
        assert(agree_at(a, b, id));
    }
    assert(a =~= b);
}

/// The ids among the first `k` of `ids` that `held` lacks.
pub open spec fn cached_only(ids: Seq<BlockId>, held: Set<BlockId>, k: int) -> Set<BlockId> {
    Set::new(|x: BlockId| exists|j: int| 0 <= j < k && ids[j] == x && !held.contains(x))
}

proof fn lemma_index_of(ids: Seq<BlockId>, i: int)
    requires
        distinct_ids(ids),
        0 <= i < ids.len(),
    ensures
        index_of(ids, ids[i]) == i,
{
    assert(0 <= i < ids.len() && ids[i] == ids[i]);
}

/// The blocks after the writes `writes`, each an id and its new contents, were
/// applied in order to `blocks`.
pub open spec fn apply_writes(
    blocks: Map<BlockId, Seq<u8>>,
    writes: Seq<(BlockId, Seq<u8>)>,
) -> Map<BlockId, Seq<u8>>
    decreases writes.len(),
{
    if writes.len() == 0 {
        blocks
    } else {
        apply_writes(blocks, writes.drop_last()).insert(writes.last().0, writes.last().1)
    }
}

/// The contents last written to `id` in `writes`, if any write touches it.
pub open spec fn last_written(writes: Seq<(BlockId, Seq<u8>)>, id: BlockId) -> Option<Seq<u8>>
    decreases writes.len(),
{
    if writes.len() == 0 {
        None
    } else if writes.last().0 == id {
        Some(writes.last().1)
    } else {
        last_written(writes.drop_last(), id)
    }
}

/// No write is lost: after the writes `writes` (each one `BlockCache::write`,
/// whose contract moves the view from `m` to `m.insert(id, data)`), a block
/// holds the contents last written to it, and a block that no write touched
/// keeps what it held at the start. With `flush_all` or `tear_down`, whose
/// contracts make the base store equal to the view, the same holds of the
/// base store, and of a fresh cache over it.
pub proof fn lemma_no_lost_writes(
    start: Map<BlockId, Seq<u8>>,
    writes: Seq<(BlockId, Seq<u8>)>,
    id: BlockId,
)
    ensures
        last_written(writes, id) matches Some(v) ==> apply_writes(start, writes).contains_key(id)
            && apply_writes(start, writes)[id] == v,
        last_written(writes, id) is None ==> agree_at(apply_writes(start, writes), start, id),
    decreases writes.len(),
{
    if writes.len() > 0 {
        lemma_no_lost_writes(start, writes.drop_last(), id);
    }
}

proof fn lemma_apply_writes_prefix(
    start: Map<BlockId, Seq<u8>>,
    writes: Seq<(BlockId, Seq<u8>)>,
    i: int,
)
    requires
        0 <= i < writes.len(),
    ensures
        apply_writes(start, writes.take(i + 1)) == apply_writes(start, writes.take(i)).insert(
            writes[i].0,
            writes[i].1,
        ),
{
    assert(writes.take(i + 1).drop_last() =~= writes.take(i));
}

proof fn lemma_views_follow_writes(
    start: Map<BlockId, Seq<u8>>,
    writes: Seq<(BlockId, Seq<u8>)>,
    views: Seq<Map<BlockId, Seq<u8>>>,
    i: int,
)
    requires
        0 <= i <= writes.len(),
        views.len() == writes.len() + 1,
        views[0] == start,
        forall|j: int| 0 <= j < writes.len() ==> #[trigger] views[j + 1] == views[j].insert(writes[j].0, writes[j].1),
    ensures
        views[i] == apply_writes(start, writes.take(i)),
    decreases i,
{
    if i == 0 {
        assert(writes.take(0) =~= Seq::<(BlockId, Seq<u8>)>::empty());
    } else {
        lemma_views_follow_writes(start, writes, views, i - 1);
        lemma_apply_writes_prefix(start, writes, i - 1);
        assert(views[(i - 1) + 1] == views[i - 1].insert(writes[i - 1].0, writes[i - 1].1));
    }
}

/// No write is lost, as a run of the cache: `views[i]` is the cache's view
/// after the first `i` writes, each step as `BlockCache::write` states it, and
/// `torn_down` the base store that `tear_down` (or the base store after
/// `flush_all`) holds afterwards, which equals the last view. Then every block
/// holds there the contents last written to it, and a block that no write
/// touched keeps what it held at the start.
pub proof fn lemma_writes_survive_tear_down(
    start: Map<BlockId, Seq<u8>>,
    writes: Seq<(BlockId, Seq<u8>)>,
    views: Seq<Map<BlockId, Seq<u8>>>,
    torn_down: Map<BlockId, Seq<u8>>,
    id: BlockId,
)
    requires
        views.len() == writes.len() + 1,
        views[0] == start,
        forall|i: int| 0 <= i < writes.len() ==> #[trigger] views[i + 1] == views[i].insert(writes[i].0, writes[i].1),
        torn_down == views[writes.len() as int],
    ensures
        last_written(writes, id) matches Some(v) ==> torn_down.contains_key(id) && torn_down[id] == v,
        last_written(writes, id) is None ==> agree_at(torn_down, start, id),
{
    let n = writes.len() as int;
    lemma_views_follow_writes(start, writes, views, n);
    assert(writes.take(n) =~= writes);
    lemma_no_lost_writes(start, writes, id);
}

proof fn lemma_last_written_distinct(writes: Seq<(BlockId, Seq<u8>)>, i: int)
    requires
        0 <= i < writes.len(),
        forall|a: int, b: int| 0 <= a < b < writes.len() ==> writes[a].0 != writes[b].0,
    ensures
        last_written(writes, writes[i].0) == Some(writes[i].1),
    decreases writes.len(),
{
    if i < writes.len() - 1 {
        lemma_last_written_distinct(writes.drop_last(), i);
    }
}

/// Eviction safety: writes to pairwise distinct blocks all survive, whatever
/// the cache's capacity (capacity 1 included), since the contract of
/// `BlockCache::write` does not depend on it. After `flush_all` or
/// `tear_down` the base store holds each written block's contents.
pub proof fn lemma_distinct_writes_all_kept(
    start: Map<BlockId, Seq<u8>>,
    writes: Seq<(BlockId, Seq<u8>)>,
)
    requires
        forall|a: int, b: int| 0 <= a < b < writes.len() ==> writes[a].0 != writes[b].0,
    ensures
        forall|i: int|
            0 <= i < writes.len() ==> apply_writes(start, writes).contains_key(#[trigger] writes[i].0)
                && apply_writes(start, writes)[writes[i].0] == writes[i].1,
{
    assert forall|i: int| 0 <= i < writes.len() implies apply_writes(start, writes).contains_key(
        #[trigger] writes[i].0,
    ) && apply_writes(start, writes)[writes[i].0] == writes[i].1 by {
        lemma_last_written_distinct(writes, i);
        lemma_no_lost_writes(start, writes, writes[i].0);
    }
}

/// Write-back: a write leaves the base store's copy of the block as it was,
/// and a successful `flush_block` afterwards puts the written contents there.
/// `base0`, `base1` and `base2` are the base store before the write, after it
/// and after the flush; `view0` and `view1` the cache's view before and after
/// the write.
pub proof fn lemma_write_back(
    view0: Map<BlockId, Seq<u8>>,
    base0: Map<BlockId, Seq<u8>>,
    id: BlockId,
    data: Seq<u8>,
    view1: Map<BlockId, Seq<u8>>,
    base1: Map<BlockId, Seq<u8>>,
    base2: Map<BlockId, Seq<u8>>,
)
    requires
        view1 == view0.insert(id, data),
        agree_at(base1, base0, id),
        agree_at(base2, view1, id),
    ensures
        base1.contains_key(id) == base0.contains_key(id),
        base0.contains_key(id) ==> base1[id] == base0[id],
        base2.contains_key(id),
        base2[id] == data,
{
}

/// The cache. `ids[k]` and `entries[k]` form the `k`-th cached block; blocks
/// stand in order of last use, the least recently used first.
pub struct BlockCache<B: BlockStore> {
    base: B,
    ids: Vec<BlockId>,
    entries: Vec<BlockCacheEntry>,
    capacity: usize,
}

impl<B: BlockStore> BlockCache<B> {
    /// The blocks as the cache's users see them: the cached data where a block
    /// is cached, the base store's data otherwise.
    pub closed spec fn view(&self) -> Map<BlockId, Seq<u8>> {
        Map::new(
            |id: BlockId| self.ids@.contains(id) || self.base.blocks().contains_key(id),
            |id: BlockId|
                if self.ids@.contains(id) {
                    self.entries@[index_of(self.ids@, id)].spec_data()@
                } else {
                    self.base.blocks()[id]
                },
        )
    }

    /// What the base store holds now.
    pub closed spec fn base_blocks(&self) -> Map<BlockId, Seq<u8>> {
        self.base.blocks()
    }

    /// The ids of the cached blocks, least recently used first.
    pub closed spec fn cached_ids(&self) -> Seq<BlockId> {
        self.ids@
    }

    pub closed spec fn spec_capacity(&self) -> nat {
        self.capacity as nat
    }

    /// The cache's invariant: at most `capacity` blocks, each cached once, and
    /// a `Clean` block equal to its copy in the base store.
    pub closed spec fn wf(&self) -> bool {
        &&& self.ids@.len() == self.entries@.len()
        &&& self.ids@.len() <= self.capacity
        &&& self.capacity >= 1
        &&& distinct_ids(self.ids@)
        &&& forall|k: int|
            0 <= k < self.entries@.len() && #[trigger] self.entries@[k].state()
                == CacheEntryState::Clean ==> self.base.blocks().contains_key(self.ids@[k])
                && self.base.blocks()[self.ids@[k]] == self.entries@[k].spec_data()@
    }

    proof fn lemma_view_cached(&self, k: int)
        requires
            distinct_ids(self.ids@),
            self.ids@.len() == self.entries@.len(),
            0 <= k < self.ids@.len(),
        ensures
            self.view().contains_key(self.ids@[k]),
            self.view()[self.ids@[k]] == self.entries@[k].spec_data()@,
    {
        lemma_index_of(self.ids@, k);
        assert(self.ids@.contains(self.ids@[k]));
    }

    /// An empty cache over `base`, holding at most `capacity` blocks.
    pub fn new(base: B, capacity: usize) -> (r: Self)
        requires
            capacity >= 1,
        ensures
            r.wf(),
            r.view() == base.blocks(),
            r.base_blocks() == base.blocks(),
            r.cached_ids().len() == 0,
            r.spec_capacity() == capacity,
    {
        let r = BlockCache { base, ids: Vec::new(), entries: Vec::new(), capacity };
        assert(r.view() =~= base.blocks());
        r
    }

    /// Number of blocks held in the cache.
    pub fn num_cached_blocks(&self) -> (r: usize)
        ensures
            r == self.cached_ids().len(),
    {
        self.ids.len()
    }

    /// Number of distinct blocks, cached or held by the base store: asks the
    /// base store for its count and, for each cached block, whether it holds
    /// it, then counts with `count_blocks`.
    pub fn num_blocks(&self) -> (r: Result<u64, BlockStoreError>)
        requires
            self.wf(),
        ensures
            r matches Ok(n) ==> self.view().dom().finite() && n == self.view().dom().len(),
    {
        let base_count = match self.base.num_blocks() {
            Ok(n) => n,
            Err(e) => {
                return Err(e);
            },
        };
        let mut held: Vec<bool> = Vec::with_capacity(self.ids.len());
        while held.len() < self.ids.len()
            invariant
                held@.len() <= self.ids@.len(),
                forall|j: int| 0 <= j < held@.len() ==> #[trigger] held@[j] == self.base.blocks().contains_key(self.ids@[j]),
            decreases self.ids@.len() - held@.len(),
        {
            let k = held.len();
            match self.base.contains(&self.ids[k]) {
                Ok(b) => held.push(b),
                Err(e) => {
                    return Err(e);
                },
            }
        }
        self.count_blocks(base_count, &held)
    }

    /// Counts the distinct blocks, given the base store's count `base_count`
    /// and, for the `k`-th cached block, whether the base store holds it
    /// (`held[k]`): `CountOverflow` exactly when the count exceeds `u64::MAX`.
    pub fn count_blocks(&self, base_count: u64, held: &Vec<bool>) -> (r: Result<u64, BlockStoreError>)
        requires
            self.wf(),
            self.base_blocks().dom().finite(),
            base_count == self.base_blocks().dom().len(),
            held@.len() == self.cached_ids().len(),
            forall|k: int| 0 <= k < held@.len() ==> #[trigger] held@[k] == self.base_blocks().contains_key(self.cached_ids()[k]),
        ensures
            self.view().dom().finite(),
            self.view().dom().len() <= u64::MAX ==> r == Ok::<u64, BlockStoreError>(self.view().dom().len() as u64),
            self.view().dom().len() > u64::MAX ==> r == Err::<u64, BlockStoreError>(BlockStoreError::CountOverflow),
    {
        let ghost held_set = self.base.blocks().dom();
        let mut extra: u64 = 0;
        let mut k: usize = 0;
        proof {
            assert(cached_only(self.ids@, held_set, 0) =~= Set::<BlockId>::empty());
        }
        while k < held.len()
            invariant
                self.wf(),
                held_set == self.base.blocks().dom(),
                held@.len() == self.ids@.len(),
                forall|j: int| 0 <= j < held@.len() ==> #[trigger] held@[j] == held_set.contains(self.ids@[j]),
                k <= self.ids@.len(),
                extra <= k,
                cached_only(self.ids@, held_set, k as int).finite(),
                extra == cached_only(self.ids@, held_set, k as int).len(),
            decreases self.ids@.len() - k,
        {
            let is_held = held[k];
            proof {
                let ids = self.ids@;
                let s0 = cached_only(ids, held_set, k as int);
                let s1 = cached_only(ids, held_set, k + 1);
                assert(is_held == held_set.contains(ids[k as int]));
                if is_held {
                    assert(s1 =~= s0);
                } else {
                    assert(s1 =~= s0.insert(ids[k as int]));
                    if s0.contains(ids[k as int]) {
                        let j = choose|j: int| 0 <= j < k && ids[j] == ids[k as int] && !held_set.contains(ids[k as int]);
                        assert(j != k);
                    }
                }
            }
            if !is_held {
                extra = extra + 1;
            }
            k = k + 1;
        }
        proof {
            let c = cached_only(self.ids@, held_set, k as int);
            assert forall|x: BlockId| self.view().dom().contains(x) == (held_set + c).contains(x) by {
                if self.ids@.contains(x) && !held_set.contains(x) {
                    let j = choose|j: int| 0 <= j < self.ids@.len() && self.ids@[j] == x;
                    assert(c.contains(x));
                }
            }
            assert(self.view().dom() =~= held_set + c);
            assert(held_set.disjoint(c));
            vstd::set_lib::lemma_set_disjoint_lens(held_set, c);
        }
        match base_count.checked_add(extra) {
            Some(n) => Ok(n),
            None => Err(BlockStoreError::CountOverflow),
        }
    }

    /// The base store, as it stands without flushing.
    pub fn base_store(&self) -> (r: &B)
        ensures
            r.blocks() == self.base_blocks(),
    {
        &self.base
    }

    fn find(&self, id: &BlockId) -> (r: Option<usize>)
        requires
            self.ids@.len() == self.entries@.len(),
        ensures
            r matches Some(k) ==> k < self.ids@.len() && self.ids@[k as int] == *id,
            r is None ==> !self.ids@.contains(*id),
    {
        let mut k: usize = 0;
        while k < self.ids.len()
            invariant
                k <= self.ids@.len(),
                forall|j: int| 0 <= j < k ==> self.ids@[j] != *id,
            decreases self.ids@.len() - k,
        {
            if self.ids[k] == *id {
                return Some(k);
            }
            k = k + 1;
        }
        None
    }

    /// Writes back the least recently used block if it is `Dirty`, then drops
    /// it from the cache. A failed write-back evicts nothing.
    fn evict_oldest(&mut self) -> (r: Result<(), BlockStoreError>)
        requires
            old(self).wf(),
            old(self).ids@.len() > 0,
        ensures
            final(self).wf(),
            final(self).view() == old(self).view(),
            final(self).base.blocks().remove(old(self).ids@[0]) == old(self).base.blocks().remove(
                old(self).ids@[0],
            ),
            final(self).capacity == old(self).capacity,
            r is Ok ==> final(self).ids@ == old(self).ids@.subrange(1, old(self).ids@.len() as int),
            r is Err ==> final(self).ids@ == old(self).ids@,
    {
        let ghost s0 = *self;
        let flushed = self.entries[0].flush(&self.ids[0], &mut self.base);
        proof {
            let id0 = s0.ids@[0];
            assert forall|k: int|
                0 <= k < self.entries@.len() && #[trigger] self.entries@[k].state()
                    == CacheEntryState::Clean implies self.base.blocks().contains_key(self.ids@[k])
                && self.base.blocks()[self.ids@[k]] == self.entries@[k].spec_data()@ by {
                if k != 0 {
                    assert(self.ids@[k] != id0);
                    assert(self.base.blocks().remove(id0).contains_key(self.ids@[k]));
                    assert(self.base.blocks().remove(id0)[self.ids@[k]] == self.base.blocks()[self.ids@[k]]);
                    assert(s0.base.blocks().remove(id0)[self.ids@[k]] == s0.base.blocks()[self.ids@[k]]);
                }
            }
            assert forall|id: BlockId| #[trigger] agree_at(self.view(), s0.view(), id) by {
                if self.ids@.contains(id) {
                    let k = choose|k: int| 0 <= k < self.ids@.len() && self.ids@[k] == id;
                    self.lemma_view_cached(k);
                    s0.lemma_view_cached(k);
                } else {
                    assert(!s0.ids@.contains(id));
                    if id != id0 {
                        assert(self.base.blocks().remove(id0).contains_key(id) == self.base.blocks().contains_key(id));
                        assert(s0.base.blocks().remove(id0).contains_key(id) == s0.base.blocks().contains_key(id));
                        if self.base.blocks().contains_key(id) {
                            assert(self.base.blocks().remove(id0)[id] == self.base.blocks()[id]);
                            assert(s0.base.blocks().remove(id0)[id] == s0.base.blocks()[id]);
                        }
                    }
                }
            }
            lemma_agree_everywhere(self.view(), s0.view());
        }
        if let Err(e) = flushed {
            return Err(e);
        }
        let ghost s1 = *self;
        let _id = self.ids.remove(0);
        let entry = self.entries.remove(0);
        entry.discard();
        proof {
            let id0 = s1.ids@[0];
            assert(s1.entries@[0].state() == CacheEntryState::Clean);
            assert(distinct_ids(self.ids@));
            assert forall|k: int|
                0 <= k < self.entries@.len() && #[trigger] self.entries@[k].state()
                    == CacheEntryState::Clean implies self.base.blocks().contains_key(self.ids@[k])
                && self.base.blocks()[self.ids@[k]] == self.entries@[k].spec_data()@ by {
                assert(self.entries@[k] == s1.entries@[k + 1]);
                assert(self.ids@[k] == s1.ids@[k + 1]);
            }
            assert forall|id: BlockId| #[trigger] agree_at(self.view(), s1.view(), id) by {
                if self.ids@.contains(id) {
                    let k = choose|k: int| 0 <= k < self.ids@.len() && self.ids@[k] == id;
                    self.lemma_view_cached(k);
                    s1.lemma_view_cached(k + 1);
                } else if id == id0 {
                    s1.lemma_view_cached(0);
                } else {
                    if s1.ids@.contains(id) {
                        let k = choose|k: int| 0 <= k < s1.ids@.len() && s1.ids@[k] == id;
                        assert(k != 0);
                        assert(self.ids@[k - 1] == id);
                    }
                }
            }
            lemma_agree_everywhere(self.view(), s1.view());
        }
        Ok(())
    }

    /// Evicts the least recently used block when the cache is full.
    fn make_room(&mut self) -> (r: Result<(), BlockStoreError>)
        requires
            old(self).wf(),
        ensures
            final(self).wf(),
            final(self).view() == old(self).view(),
            final(self).capacity == old(self).capacity,
            forall|id: BlockId| !old(self).ids@.contains(id) ==> #[trigger] agree_at(final(self).base.blocks(), old(self).base.blocks(), id),
            forall|id: BlockId| final(self).ids@.contains(id) ==> old(self).ids@.contains(id),
            r is Ok ==> final(self).ids@.len() < final(self).capacity,
            old(self).ids@.len() < old(self).capacity ==> r is Ok,
            r is Ok ==> final(self).ids@ == if old(self).ids@.len() < old(self).capacity {
                old(self).ids@
            } else {
                old(self).ids@.subrange(1, old(self).ids@.len() as int)
            },
    {
        if self.ids.len() < self.capacity {
            return Ok(());
        }
        let ghost s0 = *self;
        let r = self.evict_oldest();
        proof {
            let id0 = s0.ids@[0];
            assert forall|id: BlockId| !s0.ids@.contains(id) implies #[trigger] agree_at(self.base.blocks(), s0.base.blocks(), id) by {
                assert(id != id0);
                assert(self.base.blocks().remove(id0).contains_key(id) == self.base.blocks().contains_key(id));
                assert(s0.base.blocks().remove(id0).contains_key(id) == s0.base.blocks().contains_key(id));
                if self.base.blocks().contains_key(id) {
                    assert(self.base.blocks().remove(id0)[id] == self.base.blocks()[id]);
                    assert(s0.base.blocks().remove(id0)[id] == s0.base.blocks()[id]);
                }
            }
            assert forall|id: BlockId| self.ids@.contains(id) implies s0.ids@.contains(id) by {
                let k = choose|k: int| 0 <= k < self.ids@.len() && self.ids@[k] == id;
                if r is Ok {
                    assert(s0.ids@[k + 1] == id);
                } else {
                    assert(s0.ids@[k] == id);
                }
            }
        }
        r
    }

    /// Adds a block that is not cached yet; the cache must have room.
    fn push_entry(&mut self, id: BlockId, entry: BlockCacheEntry)
        requires
            old(self).wf(),
            !old(self).ids@.contains(id),
            old(self).ids@.len() < old(self).capacity,
            entry.state() == CacheEntryState::Clean ==> old(self).base.blocks().contains_key(id)
                && old(self).base.blocks()[id] == entry.spec_data()@,
        ensures
            final(self).wf(),
            final(self).view() == old(self).view().insert(id, entry.spec_data()@),
            final(self).base == old(self).base,
            final(self).capacity == old(self).capacity,
            final(self).ids@ == old(self).ids@.push(id),
            final(self).entries@ == old(self).entries@.push(entry),
    {
        let ghost s0 = *self;
        self.ids.push(id);
        self.entries.push(entry);
        proof {
            let n = s0.ids@.len() as int;
            assert forall|i: int, j: int| 0 <= i < self.ids@.len() && 0 <= j < self.ids@.len() && i != j implies self.ids@[i] != self.ids@[j] by {
                if i == n {
                    assert(self.ids@[j] == s0.ids@[j]);
                    if s0.ids@[j] == id {
                        assert(s0.ids@.contains(id));
                    }
                } else if j == n {
                    assert(self.ids@[i] == s0.ids@[i]);
                    if s0.ids@[i] == id {
                        assert(s0.ids@.contains(id));
                    }
                }
            }
            let m = s0.view().insert(id, entry.spec_data()@);
            assert forall|x: BlockId| #[trigger] agree_at(self.view(), m, x) by {
                if x == id {
                    self.lemma_view_cached(n);
                } else if s0.ids@.contains(x) {
                    let k = choose|k: int| 0 <= k < s0.ids@.len() && s0.ids@[k] == x;
                    self.lemma_view_cached(k);
                    s0.lemma_view_cached(k);
                } else {
                    assert(!self.ids@.contains(x));
                }
            }
            lemma_agree_everywhere(self.view(), m);
        }
    }

    /// Marks the `k`-th cached block as the most recently used one by moving
    /// it to the back; returns its new position.
    fn touch(&mut self, k: usize) -> (r: usize)
        requires
            old(self).wf(),
            k < old(self).ids@.len(),
        ensures
            final(self).wf(),
            final(self).view() == old(self).view(),
            final(self).base == old(self).base,
            final(self).capacity == old(self).capacity,
            r == old(self).ids@.len() - 1,
            final(self).ids@.len() == old(self).ids@.len(),
            final(self).ids@[r as int] == old(self).ids@[k as int],
            final(self).ids@ == old(self).ids@.remove(k as int).push(old(self).ids@[k as int]),
            forall|id: BlockId| final(self).ids@.contains(id) <==> old(self).ids@.contains(id),
    {
        let ghost s0 = *self;
        let id = self.ids.remove(k);
        let entry = self.entries.remove(k);
        self.ids.push(id);
        self.entries.push(entry);
        proof {
            let n = s0.ids@.len() as int;
            let src = |j: int| if j < k { j } else if j < n - 1 { j + 1 } else { k as int };
            assert forall|j: int| 0 <= j < n implies self.ids@[j] == s0.ids@[src(j)] && self.entries@[j] == s0.entries@[src(j)] by {}
            assert forall|i: int, j: int| 0 <= i < n && 0 <= j < n && i != j implies self.ids@[i] != self.ids@[j] by {
                assert(self.ids@[i] == s0.ids@[src(i)]);
                assert(self.ids@[j] == s0.ids@[src(j)]);
            }
            assert forall|j: int|
                0 <= j < self.entries@.len() && #[trigger] self.entries@[j].state()
                    == CacheEntryState::Clean implies self.base.blocks().contains_key(self.ids@[j])
                && self.base.blocks()[self.ids@[j]] == self.entries@[j].spec_data()@ by {
                assert(self.entries@[j] == s0.entries@[src(j)]);
                assert(self.ids@[j] == s0.ids@[src(j)]);
            }
            assert forall|x: BlockId| self.ids@.contains(x) <==> s0.ids@.contains(x) by {
                if self.ids@.contains(x) {
                    let j = choose|j: int| 0 <= j < n && self.ids@[j] == x;
                    assert(s0.ids@[src(j)] == x);
                }
                if s0.ids@.contains(x) {
                    let i = choose|i: int| 0 <= i < n && s0.ids@[i] == x;
                    let j = if i < k { i } else if i == k { n - 1 } else { i - 1 };
                    assert(self.ids@[j] == x);
                }
            }
            assert forall|x: BlockId| #[trigger] agree_at(self.view(), s0.view(), x) by {
                if self.ids@.contains(x) {
                    let j = choose|j: int| 0 <= j < n && self.ids@[j] == x;
                    self.lemma_view_cached(j);
                    s0.lemma_view_cached(src(j));
                }
            }
            lemma_agree_everywhere(self.view(), s0.view());
        }
        self.ids.len() - 1
    }

    /// Makes sure that block `id` is cached if the base store holds it, and
    /// returns its position; `None` where the block exists nowhere.
    fn load_into_cache(&mut self, id: &BlockId) -> (r: Result<Option<usize>, BlockStoreError>)
        requires
            old(self).wf(),
        ensures
            final(self).wf(),
            final(self).view() == old(self).view(),
            final(self).capacity == old(self).capacity,
            agree_at(final(self).base.blocks(), old(self).base.blocks(), *id),
            r matches Ok(Some(k)) ==> k < final(self).ids@.len() && final(self).ids@[k as int] == *id,
            r matches Ok(None) ==> !old(self).view().contains_key(*id) && !final(self).ids@.contains(*id),
            r is Err ==> !final(self).ids@.contains(*id),
            old(self).ids@.contains(*id) ==> (r matches Ok(Some(k))),
            r matches Ok(Some(k)) ==> final(self).ids@ == ids_after_use(old(self).ids@, old(self).capacity as nat, *id),
            r matches Ok(None) ==> final(self).ids@ == old(self).ids@,
    {
        if let Some(k) = self.find(id) {
            proof {
                lemma_index_of(self.ids@, k as int);
                assert(self.ids@.contains(*id));
            }
            return Ok(Some(self.touch(k)));
        }
        match self.base.load(id) {
            Ok(loaded) => self.cache_loaded(id, loaded),
            Err(e) => Err(e),
        }
    }

    /// Takes what the base store returned for block `id`, which is not
    /// cached: a block that the store holds joins the cache `Clean` (after an
    /// eviction where the cache is full); `None` leaves the cache alone.
    fn cache_loaded(&mut self, id: &BlockId, loaded: Option<Data>) -> (r: Result<Option<usize>, BlockStoreError>)
        requires
            old(self).wf(),
            !old(self).ids@.contains(*id),
            loaded is Some <==> old(self).base.blocks().contains_key(*id),
            loaded matches Some(d) ==> d@ == old(self).base.blocks()[*id],
        ensures
            final(self).wf(),
            final(self).view() == old(self).view(),
            final(self).capacity == old(self).capacity,
            agree_at(final(self).base.blocks(), old(self).base.blocks(), *id),
            loaded is None ==> r == Ok::<Option<usize>, BlockStoreError>(None) && *final(self) == *old(self),
            loaded is Some && old(self).ids@.len() < old(self).capacity ==> (r matches Ok(Some(k))),
            loaded is Some ==> !(r matches Ok(None)),
            r matches Ok(Some(k)) ==> final(self).ids@ == ids_after_use(old(self).ids@, old(self).capacity as nat, *id),
            r matches Ok(Some(k)) ==> k < final(self).ids@.len() && final(self).ids@[k as int] == *id,
            r matches Ok(None) ==> !old(self).view().contains_key(*id) && !final(self).ids@.contains(*id),
            r is Err ==> !final(self).ids@.contains(*id),
    {
        match loaded {
            None => Ok(None),
            Some(d) => {
                let ghost s0 = *self;
                match self.make_room() {
                    Ok(()) => {},
                    Err(e) => {
                        return Err(e);
                    },
                }
                proof {
                    assert(agree_at(self.base.blocks(), s0.base.blocks(), *id));
                    assert(!self.ids@.contains(*id));
                }
                let ghost s1 = *self;
                self.push_entry(*id, BlockCacheEntry::new(d, CacheEntryState::Clean, BlockBaseStoreState::ExistsInBaseStore));
                proof {
                    assert(s1.view().contains_key(*id));
                    assert(s1.view()[*id] == d@);
                    assert(s1.view().insert(*id, d@) =~= s1.view());
                }
                Ok(Some(self.ids.len() - 1))
            },
        }
    }

    /// Adds block `id`, which is not cached, as a new `Dirty` block holding
    /// `data` (after an eviction where the cache is full).
    fn insert_new(&mut self, id: &BlockId, data: Data) -> (r: Result<(), BlockStoreError>)
        requires
            old(self).wf(),
            !old(self).ids@.contains(*id),
        ensures
            final(self).wf(),
            final(self).capacity == old(self).capacity,
            agree_at(final(self).base.blocks(), old(self).base.blocks(), *id),
            r is Ok ==> final(self).view() == old(self).view().insert(*id, data@),
            r is Err ==> final(self).view() == old(self).view(),
            old(self).ids@.len() < old(self).capacity ==> r is Ok,
            r is Ok ==> final(self).ids@ == ids_after_use(old(self).ids@, old(self).capacity as nat, *id),
    {
        let ghost s0 = *self;
        match self.make_room() {
            Ok(()) => {},
            Err(e) => {
                return Err(e);
            },
        }
        proof {
            assert(agree_at(self.base.blocks(), s0.base.blocks(), *id));
        }
        self.push_entry(*id, BlockCacheEntry::new(data, CacheEntryState::Dirty, BlockBaseStoreState::DoesntExistInBaseStore));
        Ok(())
    }

    /// Takes what the base store returned for block `id`, which is not
    /// cached, and creates the block: `AlreadyExists` where the store holds
    /// it, else a new `Dirty` block holding `data`.
    fn create_probed(&mut self, id: &BlockId, probe: Option<Data>, data: Data) -> (r: Result<(), BlockStoreError>)
        requires
            old(self).wf(),
            !old(self).ids@.contains(*id),
            probe is Some <==> old(self).base.blocks().contains_key(*id),
        ensures
            final(self).wf(),
            final(self).capacity == old(self).capacity,
            agree_at(final(self).base.blocks(), old(self).base.blocks(), *id),
            probe is Some ==> r == Err::<(), BlockStoreError>(BlockStoreError::AlreadyExists) && *final(self) == *old(self),
            probe is None && old(self).ids@.len() < old(self).capacity ==> r is Ok,
            r is Ok ==> !old(self).view().contains_key(*id) && final(self).view() == old(self).view().insert(*id, data@),
            r is Ok ==> final(self).ids@ == ids_after_use(old(self).ids@, old(self).capacity as nat, *id),
            r is Err ==> final(self).view() == old(self).view(),
    {
        match probe {
            Some(_) => Err(BlockStoreError::AlreadyExists),
            None => self.insert_new(id, data),
        }
    }

    /// Replaces the data of the `k`-th cached block, which becomes `Dirty`.
    fn replace_data(&mut self, k: usize, data: Data)
        requires
            old(self).wf(),
            k < old(self).ids@.len(),
        ensures
            final(self).wf(),
            final(self).view() == old(self).view().insert(old(self).ids@[k as int], data@),
            final(self).base == old(self).base,
            final(self).capacity == old(self).capacity,
            final(self).ids@ == old(self).ids@,
    {
        let ghost s0 = *self;
        let slot = self.entries[k].data_mut();
        *slot = data;
        proof {
            let id = s0.ids@[k as int];
            assert forall|j: int| 0 <= j < self.entries@.len() && j != k implies self.entries@[j] == s0.entries@[j] by {}
            let m = s0.view().insert(id, data@);
            assert forall|x: BlockId| #[trigger] agree_at(self.view(), m, x) by {
                if x == id {
                    self.lemma_view_cached(k as int);
                } else if s0.ids@.contains(x) {
                    let j = choose|j: int| 0 <= j < s0.ids@.len() && s0.ids@[j] == x;
                    self.lemma_view_cached(j);
                    s0.lemma_view_cached(j);
                }
            }
            lemma_agree_everywhere(self.view(), m);
        }
    }

    /// The data of block `id`, loading it into the cache where only the base
    /// store holds it; `None` where the block exists nowhere.
    pub fn load(&mut self, id: &BlockId) -> (r: Result<Option<Data>, BlockStoreError>)
        requires
            old(self).wf(),
        ensures
            final(self).wf(),
            final(self).view() == old(self).view(),
            final(self).spec_capacity() == old(self).spec_capacity(),
            agree_at(final(self).base_blocks(), old(self).base_blocks(), *id),
            r matches Ok(o) ==> (o is Some <==> old(self).view().contains_key(*id)),
            r matches Ok(Some(d)) ==> d@ == old(self).view()[*id],
            old(self).cached_ids().contains(*id) ==> r is Ok,
            final(self).cached_ids().len() <= final(self).spec_capacity(),
            r matches Ok(Some(d)) ==> final(self).cached_ids() == ids_after_use(old(self).cached_ids(), old(self).spec_capacity(), *id),
            r matches Ok(None) ==> final(self).cached_ids() == old(self).cached_ids(),
            r is Err ==> !final(self).cached_ids().contains(*id),
    {
        match self.load_into_cache(id) {
            Ok(Some(k)) => {
                proof {
                    self.lemma_view_cached(k as int);
                }
                Ok(Some(self.entries[k].data().clone()))
            },
            Ok(None) => Ok(None),
            Err(e) => Err(e),
        }
    }

    /// The data of block `id`; where the block exists nowhere, it is created
    /// empty (and `Dirty`) first.
    pub fn load_or_create(&mut self, id: &BlockId) -> (r: Result<Data, BlockStoreError>)
        requires
            old(self).wf(),
        ensures
            final(self).wf(),
            final(self).spec_capacity() == old(self).spec_capacity(),
            agree_at(final(self).base_blocks(), old(self).base_blocks(), *id),
            r is Err ==> final(self).view() == old(self).view(),
            r is Ok && old(self).view().contains_key(*id) ==> final(self).view() == old(self).view(),
            r is Ok && !old(self).view().contains_key(*id) ==> final(self).view() == old(
                self,
            ).view().insert(*id, Seq::<u8>::empty()),
            r matches Ok(d) ==> final(self).view().contains_key(*id) && d@ == final(self).view()[*id],
            old(self).cached_ids().contains(*id) ==> r is Ok,
            final(self).cached_ids().len() <= final(self).spec_capacity(),
            r is Ok ==> final(self).cached_ids() == ids_after_use(old(self).cached_ids(), old(self).spec_capacity(), *id),
    {
        match self.load_into_cache(id) {
            Ok(Some(k)) => {
                proof {
                    self.lemma_view_cached(k as int);
                }
                Ok(self.entries[k].data().clone())
            },
            Ok(None) => {
                let empty = Data::from_vec(Vec::new());
                let r = empty.clone();
                match self.insert_new(id, empty) {
                    Ok(()) => Ok(r),
                    Err(e) => Err(e),
                }
            },
            Err(e) => Err(e),
        }
    }

    /// Sets the data of block `id`, creating the block where it exists
    /// nowhere. The base store sees the change only on a later flush or
    /// eviction.
    pub fn write(&mut self, id: &BlockId, data: Data) -> (r: Result<(), BlockStoreError>)
        requires
            old(self).wf(),
        ensures
            final(self).wf(),
            final(self).spec_capacity() == old(self).spec_capacity(),
            agree_at(final(self).base_blocks(), old(self).base_blocks(), *id),
            r is Ok ==> final(self).view() == old(self).view().insert(*id, data@),
            r is Err ==> final(self).view() == old(self).view(),
            old(self).cached_ids().contains(*id) ==> r is Ok,
            final(self).cached_ids().len() <= final(self).spec_capacity(),
            r is Ok ==> final(self).cached_ids() == ids_after_use(old(self).cached_ids(), old(self).spec_capacity(), *id),
    {
        match self.load_into_cache(id) {
            Ok(Some(k)) => {
                self.replace_data(k, data);
                Ok(())
            },
            Ok(None) => self.insert_new(id, data),
            Err(e) => Err(e),
        }
    }

    /// Creates block `id` with `data`; fails with `AlreadyExists` where the
    /// cache or the base store holds the block.
    pub fn create(&mut self, id: &BlockId, data: Data) -> (r: Result<(), BlockStoreError>)
        requires
            old(self).wf(),
        ensures
            final(self).wf(),
            final(self).spec_capacity() == old(self).spec_capacity(),
            agree_at(final(self).base_blocks(), old(self).base_blocks(), *id),
            old(self).view().contains_key(*id) ==> r is Err,
            old(self).cached_ids().contains(*id) ==> r == Err::<(), BlockStoreError>(BlockStoreError::AlreadyExists),
            r is Ok ==> final(self).view() == old(self).view().insert(*id, data@),
            r is Err ==> final(self).view() == old(self).view(),
            final(self).cached_ids().len() <= final(self).spec_capacity(),
            r is Ok ==> final(self).cached_ids() == ids_after_use(old(self).cached_ids(), old(self).spec_capacity(), *id),
    {
        if let Some(k) = self.find(id) {
            proof {
                self.lemma_view_cached(k as int);
            }
            return Err(BlockStoreError::AlreadyExists);
        }
        match self.base.load(id) {
            Ok(probe) => self.create_probed(id, probe, data),
            Err(e) => Err(e),
        }
    }

    /// Every cached block is `Clean`.
    pub closed spec fn all_clean(&self) -> bool {
        forall|k: int| 0 <= k < self.entries@.len() ==> #[trigger] self.entries@[k].state() == CacheEntryState::Clean
    }

    /// Two caches with the same blocks cached, whose base stores differ at
    /// most at `id`, show the same view except at `id`.
    proof fn lemma_base_changed_at(a: &Self, b: &Self, id: BlockId)
        requires
            a.ids@ == b.ids@,
            a.entries@ == b.entries@,
            a.base.blocks().remove(id) == b.base.blocks().remove(id),
        ensures
            forall|x: BlockId| x != id ==> #[trigger] agree_at(a.view(), b.view(), x),
    {
        assert forall|x: BlockId| x != id implies #[trigger] agree_at(a.view(), b.view(), x) by {
            assert(a.base.blocks().remove(id).contains_key(x) == a.base.blocks().contains_key(x));
            assert(b.base.blocks().remove(id).contains_key(x) == b.base.blocks().contains_key(x));
            if a.base.blocks().contains_key(x) {
                assert(a.base.blocks().remove(id)[x] == a.base.blocks()[x]);
                assert(b.base.blocks().remove(id)[x] == b.base.blocks()[x]);
            }
        }
    }

    /// Writes back the `k`-th cached block if it is `Dirty`.
    fn flush_at(&mut self, k: usize) -> (r: Result<(), BlockStoreError>)
        requires
            old(self).wf(),
            k < old(self).ids@.len(),
        ensures
            final(self).wf(),
            final(self).view() == old(self).view(),
            final(self).ids@ == old(self).ids@,
            final(self).capacity == old(self).capacity,
            final(self).base.blocks().remove(old(self).ids@[k as int]) == old(self).base.blocks().remove(
                old(self).ids@[k as int],
            ),
            forall|j: int| 0 <= j < final(self).entries@.len() && j != k ==> final(self).entries@[j] == old(self).entries@[j],
            final(self).entries@.len() == old(self).entries@.len(),
            r is Ok ==> final(self).entries@[k as int].state() == CacheEntryState::Clean,
            old(self).entries@[k as int].state() == CacheEntryState::Clean ==> r is Ok,
    {
        let ghost s0 = *self;
        let r = self.entries[k].flush(&self.ids[k], &mut self.base);
        proof {
            let id = s0.ids@[k as int];
            assert forall|j: int| 0 <= j < self.entries@.len() && j != k implies self.entries@[j] == s0.entries@[j] by {}
            assert forall|j: int|
                0 <= j < self.entries@.len() && #[trigger] self.entries@[j].state()
                    == CacheEntryState::Clean implies self.base.blocks().contains_key(self.ids@[j])
                && self.base.blocks()[self.ids@[j]] == self.entries@[j].spec_data()@ by {
                if j != k {
                    let x = self.ids@[j];
                    assert(x != id);
                    assert(self.base.blocks().remove(id).contains_key(x));
                    assert(self.base.blocks().remove(id)[x] == self.base.blocks()[x]);
                    assert(s0.base.blocks().remove(id)[x] == s0.base.blocks()[x]);
                }
            }
            assert forall|x: BlockId| #[trigger] agree_at(self.view(), s0.view(), x) by {
                if self.ids@.contains(x) {
                    let j = choose|j: int| 0 <= j < self.ids@.len() && self.ids@[j] == x;
                    self.lemma_view_cached(j);
                    s0.lemma_view_cached(j);
                } else {
                    assert(x != id);
                    assert(self.base.blocks().remove(id).contains_key(x) == self.base.blocks().contains_key(x));
                    assert(s0.base.blocks().remove(id).contains_key(x) == s0.base.blocks().contains_key(x));
                    if self.base.blocks().contains_key(x) {
                        assert(self.base.blocks().remove(id)[x] == self.base.blocks()[x]);
                        assert(s0.base.blocks().remove(id)[x] == s0.base.blocks()[x]);
                    }
                }
            }
            lemma_agree_everywhere(self.view(), s0.view());
        }
        r
    }

    /// Writes block `id` back into the base store if it is cached and `Dirty`.
    /// Afterwards the base store holds the block as the cache shows it.
    pub fn flush_block(&mut self, id: &BlockId) -> (r: Result<(), BlockStoreError>)
        requires
            old(self).wf(),
        ensures
            final(self).wf(),
            final(self).cached_ids().len() <= final(self).spec_capacity(),
            final(self).view() == old(self).view(),
            final(self).spec_capacity() == old(self).spec_capacity(),
            final(self).cached_ids() == old(self).cached_ids(),
            final(self).base_blocks().remove(*id) == old(self).base_blocks().remove(*id),
            r is Ok ==> agree_at(final(self).base_blocks(), old(self).view(), *id),
            !old(self).cached_ids().contains(*id) ==> r is Ok,
            old(self).all_clean() ==> r is Ok,
    {
        match self.find(id) {
            Some(k) => {
                let r = self.flush_at(k);
                proof {
                    self.lemma_view_cached(k as int);
                }
                r
            },
            None => {
                proof {
                    assert(agree_at(self.base.blocks(), self.view(), *id));
                }
                Ok(())
            },
        }
    }

    /// Writes every `Dirty` block back into the base store. On success the
    /// base store holds exactly the blocks that the cache shows.
    pub fn flush_all(&mut self) -> (r: Result<(), BlockStoreError>)
        requires
            old(self).wf(),
        ensures
            final(self).wf(),
            final(self).cached_ids().len() <= final(self).spec_capacity(),
            final(self).view() == old(self).view(),
            final(self).spec_capacity() == old(self).spec_capacity(),
            final(self).cached_ids() == old(self).cached_ids(),
            r is Ok ==> final(self).all_clean(),
            r is Ok ==> final(self).base_blocks() == old(self).view(),
            old(self).all_clean() ==> r is Ok,
    {
        let n = self.ids.len();
        let mut k: usize = 0;
        while k < n
            invariant
                self.wf(),
                self.view() == old(self).view(),
                self.capacity == old(self).capacity,
                self.ids@ == old(self).ids@,
                n == self.ids@.len(),
                k <= n,
                forall|j: int| 0 <= j < k ==> #[trigger] self.entries@[j].state() == CacheEntryState::Clean,
                old(self).all_clean() ==> self.all_clean(),
            decreases n - k,
        {
            let r = self.flush_at(k);
            if let Err(e) = r {
                return Err(e);
            }
            k = k + 1;
        }
        proof {
            assert forall|x: BlockId| #[trigger] agree_at(self.base.blocks(), self.view(), x) by {
                if self.ids@.contains(x) {
                    let j = choose|j: int| 0 <= j < self.ids@.len() && self.ids@[j] == x;
                    self.lemma_view_cached(j);
                    assert(self.entries@[j].state() == CacheEntryState::Clean);
                }
            }
            lemma_agree_everywhere(self.base.blocks(), self.view());
        }
        Ok(())
    }

    /// Removes block `id` from the cache, dropping cached changes unwritten,
    /// and from the base store.
    pub fn remove(&mut self, id: &BlockId) -> (r: Result<RemoveResult, BlockStoreError>)
        requires
            old(self).wf(),
        ensures
            final(self).wf(),
            final(self).cached_ids().len() <= final(self).spec_capacity(),
            final(self).spec_capacity() == old(self).spec_capacity(),
            r is Ok ==> final(self).view() == old(self).view().remove(*id),
            r matches Ok(x) ==> (x == RemoveResult::Removed <==> old(self).view().contains_key(*id)),
            r is Err ==> final(self).view().remove(*id) == old(self).view().remove(*id),
    {
        let ghost s0 = *self;
        let was_cached = match self.find(id) {
            Some(k) => {
                let _id = self.ids.remove(k);
                let entry = self.entries.remove(k);
                entry.discard();
                proof {
                    assert forall|j: int| 0 <= j < self.ids@.len() implies self.ids@[j] == s0.ids@[if j < k { j } else { j + 1 }] by {}
                    assert forall|j: int| 0 <= j < self.entries@.len() implies self.entries@[j] == s0.entries@[if j < k { j } else { j + 1 }] by {}
                    assert(distinct_ids(self.ids@));
                    if self.ids@.contains(*id) {
                        let j = choose|j: int| 0 <= j < self.ids@.len() && self.ids@[j] == *id;
                        assert(s0.ids@[if j < k { j } else { j + 1 }] == *id);
                    }
                    assert forall|x: BlockId| x != *id implies #[trigger] agree_at(self.view(), s0.view(), x) by {
                        if self.ids@.contains(x) {
                            let j = choose|j: int| 0 <= j < self.ids@.len() && self.ids@[j] == x;
                            self.lemma_view_cached(j);
                            s0.lemma_view_cached(if j < k { j } else { j + 1 });
                        } else if s0.ids@.contains(x) {
                            let j = choose|j: int| 0 <= j < s0.ids@.len() && s0.ids@[j] == x;
                            assert(j != k);
                            assert(self.ids@[if j < k { j } else { j - 1 }] == x);
                        }
                    }
                }
                true
            },
            None => {
                proof {
                    assert(!self.ids@.contains(*id));
                }
                false
            },
        };
        let ghost s1 = *self;
        proof {
            assert(!s1.ids@.contains(*id));
            assert(forall|x: BlockId| x != *id ==> #[trigger] agree_at(s1.view(), s0.view(), x));
        }
        let r = self.base.remove(id);
        proof {
            if r is Ok {
                assert(self.base.blocks().remove(*id) =~= s1.base.blocks().remove(*id));
            }
            BlockCache::lemma_base_changed_at(self, &s1, *id);
            assert(!self.ids@.contains(*id));
            assert forall|j: int|
                0 <= j < self.entries@.len() && #[trigger] self.entries@[j].state()
                    == CacheEntryState::Clean implies self.base.blocks().contains_key(self.ids@[j])
                && self.base.blocks()[self.ids@[j]] == self.entries@[j].spec_data()@ by {
                let x = self.ids@[j];
                assert(self.ids@.contains(x));
                assert(s1.base.blocks().contains_key(x));
                assert(self.base.blocks().remove(*id).contains_key(x));
                assert(self.base.blocks().remove(*id)[x] == self.base.blocks()[x]);
                assert(s1.base.blocks().remove(*id)[x] == s1.base.blocks()[x]);
            }
            let m = s0.view().remove(*id);
            if r is Ok {
                assert forall|x: BlockId| #[trigger] agree_at(self.view(), m, x) by {
                    if x != *id {
                        assert(agree_at(self.view(), s1.view(), x));
                        assert(agree_at(s1.view(), s0.view(), x));
                    } else {
                        assert(!self.base.blocks().contains_key(x));
                    }
                }
                lemma_agree_everywhere(self.view(), m);
            } else {
                assert forall|x: BlockId| #[trigger] agree_at(self.view().remove(*id), m, x) by {
                    if x != *id {
                        assert(agree_at(self.view(), s1.view(), x));
                        assert(agree_at(s1.view(), s0.view(), x));
                    }
                }
                lemma_agree_everywhere(self.view().remove(*id), m);
            }
        }
        match r {
            Ok(x) => {
                if was_cached {
                    Ok(RemoveResult::Removed)
                } else {
                    Ok(x)
                }
            },
            Err(e) => Err(e),
        }
    }

    /// Writes every `Dirty` block back and hands out the base store, which
    /// then holds exactly the blocks that the cache showed. Where a write-back
    /// fails, the cache is handed back with the error instead.
    pub fn tear_down(self) -> (r: Result<B, (Self, BlockStoreError)>)
        requires
            self.wf(),
        ensures
            r matches Ok(b) ==> b.blocks() == self.view(),
            r matches Err(p) ==> p.0.wf() && p.0.view() == self.view(),
            self.all_clean() ==> r is Ok,
    {
        let mut cache = self;
        match cache.flush_all() {
            Ok(()) => {
                let BlockCache { base, ids: _, entries: _, capacity: _ } = cache;
                Ok(base)
            },
            Err(e) => Err((cache, e)),
        }
    }
}

} // verus!
