use cryfs_blockstore::cache::BlockCache;
use cryfs_blockstore::cipher::{Cipher, CipherAlgorithm, EncryptionKey};
use cryfs_blockstore::data::Data;
use cryfs_blockstore::encrypted::EncryptedBlockStore;
use cryfs_blockstore::entry::{BlockBaseStoreState, BlockCacheEntry, CacheEntryState};
use cryfs_blockstore::store::{BlockId, BlockStore, BlockStoreError, InMemoryBlockStore, RemoveResult};

fn id(n: u128) -> BlockId {
    BlockId::new(n)
}

fn base_load(store: &InMemoryBlockStore, n: u128) -> Option<Vec<u8>> {
    store.load(&id(n)).unwrap().map(|d| d.to_vec())
}

#[test]
fn created_block_survives_flush_and_fresh_cache() {
    let mut cache = BlockCache::new(InMemoryBlockStore::new(), 10);
    cache.create(&id(1), Data::from_vec(vec![0xAA; 1024])).unwrap();
    cache.flush_block(&id(1)).unwrap();
    let base = cache.tear_down().map_err(|(_, e)| e).unwrap();
    let mut fresh = BlockCache::new(base, 10);
    let loaded = fresh.load(&id(1)).unwrap().unwrap();
    assert_eq!(loaded.as_slice(), &[0xAA; 1024][..]);
}

#[test]
fn mutation_survives_eviction() {
    let mut cache = BlockCache::new(InMemoryBlockStore::new(), 500);
    cache.create(&id(1), Data::from_vec(vec![0; 32])).unwrap();
    cache.write(&id(1), Data::from_vec(vec![1; 32])).unwrap();
    for n in 2..1002 {
        cache.write(&id(n), Data::from_vec(vec![n as u8; 8])).unwrap();
    }
    assert_eq!(cache.num_cached_blocks(), 500);
    // evicted, hence written back
    assert_eq!(base_load(cache.base_store(), 1), Some(vec![1; 32]));
    let loaded = cache.load(&id(1)).unwrap().unwrap();
    assert_eq!(loaded.as_slice(), &[1; 32][..]);
}

#[test]
fn sequential_appends_on_one_block_both_land() {
    let mut cache = BlockCache::new(InMemoryBlockStore::new(), 4);
    cache.create(&id(1), Data::from_vec(vec![7, 7])).unwrap();
    for byte in [1u8, 2u8] {
        let mut d = cache.load_or_create(&id(1)).unwrap().to_vec();
        d.push(byte);
        cache.write(&id(1), Data::from_vec(d)).unwrap();
    }
    let d = cache.load(&id(1)).unwrap().unwrap();
    assert_eq!(d.as_slice(), &[7, 7, 1, 2][..]);
}

#[test]
fn write_back_reaches_base_only_on_flush() {
    let mut base = InMemoryBlockStore::new();
    base.store(&id(5), &[1, 2, 3]).unwrap();
    let mut cache = BlockCache::new(base, 4);
    cache.write(&id(5), Data::from_vec(vec![9, 9])).unwrap();
    assert_eq!(base_load(cache.base_store(), 5), Some(vec![1, 2, 3]));
    assert_eq!(cache.load(&id(5)).unwrap().unwrap().as_slice(), &[9, 9][..]);
    cache.flush_block(&id(5)).unwrap();
    assert_eq!(base_load(cache.base_store(), 5), Some(vec![9, 9]));
}

#[test]
fn capacity_one_keeps_every_write() {
    let mut cache = BlockCache::new(InMemoryBlockStore::new(), 1);
    for n in 0..20u128 {
        cache.write(&id(n), Data::from_vec(vec![n as u8; 3])).unwrap();
        assert_eq!(cache.num_cached_blocks(), 1);
    }
    let base = cache.tear_down().map_err(|(_, e)| e).unwrap();
    for n in 0..20u128 {
        assert_eq!(base_load(&base, n), Some(vec![n as u8; 3]));
    }
}

#[test]
fn last_write_wins_after_tear_down() {
    let mut cache = BlockCache::new(InMemoryBlockStore::new(), 2);
    cache.write(&id(1), Data::from_vec(vec![1])).unwrap();
    cache.write(&id(2), Data::from_vec(vec![2])).unwrap();
    cache.write(&id(1), Data::from_vec(vec![3])).unwrap();
    cache.write(&id(3), Data::from_vec(vec![4])).unwrap();
    cache.write(&id(2), Data::from_vec(vec![5])).unwrap();
    cache.flush_all().unwrap();
    let base = cache.tear_down().map_err(|(_, e)| e).unwrap();
    assert_eq!(base_load(&base, 1), Some(vec![3]));
    assert_eq!(base_load(&base, 2), Some(vec![5]));
    assert_eq!(base_load(&base, 3), Some(vec![4]));
}

#[test]
fn create_existing_block_fails() {
    let mut base = InMemoryBlockStore::new();
    base.store(&id(1), &[1]).unwrap();
    let mut cache = BlockCache::new(base, 2);
    assert_eq!(
        cache.create(&id(1), Data::from_vec(vec![2])),
        Err(BlockStoreError::AlreadyExists)
    );
    cache.create(&id(2), Data::from_vec(vec![2])).unwrap();
    assert_eq!(
        cache.create(&id(2), Data::from_vec(vec![3])),
        Err(BlockStoreError::AlreadyExists)
    );
}

#[test]
fn remove_drops_cached_and_stored_block() {
    let mut base = InMemoryBlockStore::new();
    base.store(&id(1), &[1]).unwrap();
    let mut cache = BlockCache::new(base, 2);
    cache.write(&id(1), Data::from_vec(vec![2])).unwrap();
    cache.create(&id(2), Data::from_vec(vec![3])).unwrap();
    assert_eq!(cache.remove(&id(1)), Ok(RemoveResult::Removed));
    assert_eq!(cache.remove(&id(2)), Ok(RemoveResult::Removed));
    assert_eq!(cache.remove(&id(3)), Ok(RemoveResult::NotFound));
    assert!(cache.load(&id(1)).unwrap().is_none());
    let base = cache.tear_down().map_err(|(_, e)| e).unwrap();
    assert_eq!(base_load(&base, 1), None);
    assert_eq!(base_load(&base, 2), None);
}

#[test]
fn missing_block_loads_as_none() {
    let mut cache = BlockCache::new(InMemoryBlockStore::new(), 2);
    assert!(cache.load(&id(42)).unwrap().is_none());
}

#[test]
fn entry_state_transitions() {
    let mut entry = BlockCacheEntry::new(
        Data::from_vec(vec![1, 2, 3]),
        CacheEntryState::Clean,
        BlockBaseStoreState::DoesntExistInBaseStore,
    );
    assert!(!entry.is_dirty());
    assert_eq!(entry.data().as_slice(), &[1, 2, 3][..]);
    assert!(!entry.is_dirty());
    entry.data_mut().set(0, 9);
    assert!(entry.is_dirty());
    let mut base = InMemoryBlockStore::new();
    entry.flush(&id(1), &mut base).unwrap();
    assert!(!entry.is_dirty());
    assert_eq!(
        entry.block_exists_in_base_store(),
        BlockBaseStoreState::ExistsInBaseStore
    );
    assert_eq!(base_load(&base, 1), Some(vec![9, 2, 3]));
    entry.resize(5);
    assert!(entry.is_dirty());
    assert_eq!(entry.data().as_slice(), &[9, 2, 3, 0, 0][..]);
    entry.discard();
}

fn xchacha_cipher() -> Cipher {
    Cipher::new(
        CipherAlgorithm::XChaCha20Poly1305,
        EncryptionKey::from_bytes((0..32u8).collect()),
    )
    .unwrap()
}

#[test]
fn corrupted_encrypted_block_is_an_integrity_violation() {
    let mut store = EncryptedBlockStore::new(InMemoryBlockStore::new(), xchacha_cipher());
    store.store(&id(1), b"Hello World").unwrap();
    assert_eq!(
        store.load(&id(1)).unwrap().unwrap().as_slice(),
        b"Hello World"
    );
    let stored = base_load(store.inner(), 1).unwrap();
    assert_eq!(stored.len(), 11 + 24 + 16);
    for i in 0..stored.len() {
        let mut corrupted = stored.clone();
        corrupted[i] ^= 0x40;
        store.inner_mut().store(&id(1), &corrupted).unwrap();
        assert_eq!(
            store.load(&id(1)).err(),
            Some(BlockStoreError::IntegrityViolation)
        );
    }
}

#[test]
fn encrypted_block_size_subtracts_overhead() {
    let store = EncryptedBlockStore::new(InMemoryBlockStore::new(), xchacha_cipher());
    assert_eq!(store.block_size_from_physical_block_size(1024), Some(1024 - 40));
    assert_eq!(store.block_size_from_physical_block_size(39), None);
}

#[test]
fn data_reframing() {
    let mut d = Data::with_reservations(2, &[1, 2, 3, 4], 3);
    assert_eq!(d.len(), 4);
    d.shrink_to_subregion(1, 3);
    assert_eq!(d.as_slice(), &[2, 3][..]);
    assert_eq!(d.available_prefix_bytes(), 3);
    assert_eq!(d.available_suffix_bytes(), 4);
    d.grow_region(1, 1);
    assert_eq!(d.as_slice(), &[1, 2, 3, 4][..]);
    d.resize(6);
    assert_eq!(d.as_slice(), &[1, 2, 3, 4, 0, 0][..]);
    assert_eq!(d.available_prefix_bytes(), 2);
    d.resize(20);
    assert_eq!(d.len(), 20);
    assert_eq!(d.available_prefix_bytes(), 2);
    assert_eq!(&d.as_slice()[..6], &[1, 2, 3, 4, 0, 0][..]);
    d.resize(1);
    assert_eq!(d.as_slice(), &[1][..]);
}

#[test]
fn cache_over_encrypted_store_round_trips_and_detects_corruption() {
    let store = EncryptedBlockStore::new(InMemoryBlockStore::new(), xchacha_cipher());
    let mut cache = BlockCache::new(store, 2);
    cache
        .create(&id(1), Data::from_vec(b"Hello World".to_vec()))
        .unwrap();
    cache.flush_all().unwrap();
    let mut store = cache.tear_down().map_err(|(_, e)| e).unwrap();
    let stored = base_load(store.inner(), 1).unwrap();
    assert_eq!(stored.len(), 11 + 40);
    assert_ne!(&stored[24..35], b"Hello World");

    let mut corrupted = stored.clone();
    corrupted[30] ^= 1;
    store.inner_mut().store(&id(1), &corrupted).unwrap();
    let mut cache = BlockCache::new(store, 2);
    assert_eq!(
        cache.load(&id(1)).err(),
        Some(BlockStoreError::IntegrityViolation)
    );

    let mut store = cache.tear_down().map_err(|(_, e)| e).unwrap();
    store.inner_mut().store(&id(1), &stored).unwrap();
    let mut cache = BlockCache::new(store, 2);
    assert_eq!(
        cache.load(&id(1)).unwrap().unwrap().as_slice(),
        b"Hello World"
    );
}

#[test]
fn load_or_create_makes_an_empty_block() {
    let mut cache = BlockCache::new(InMemoryBlockStore::new(), 2);
    assert_eq!(cache.load_or_create(&id(9)).unwrap().len(), 0);
    cache.write(&id(9), Data::from_vec(vec![5])).unwrap();
    assert_eq!(cache.load_or_create(&id(9)).unwrap().as_slice(), &[5][..]);
    let base = cache.tear_down().map_err(|(_, e)| e).unwrap();
    assert_eq!(base_load(&base, 9), Some(vec![5]));
}

#[test]
fn num_blocks_counts_cached_and_stored_blocks_once() {
    let mut base = InMemoryBlockStore::new();
    base.store(&id(1), &[1]).unwrap();
    base.store(&id(2), &[2]).unwrap();
    assert_eq!(base.num_blocks(), Ok(2));
    assert_eq!(base.contains(&id(2)), Ok(true));
    assert_eq!(base.contains(&id(3)), Ok(false));
    let mut cache = BlockCache::new(base, 4);
    cache.write(&id(2), Data::from_vec(vec![9])).unwrap();
    cache.write(&id(3), Data::from_vec(vec![3])).unwrap();
    cache.create(&id(4), Data::from_vec(vec![4])).unwrap();
    assert_eq!(cache.num_blocks(), Ok(4));
    cache.remove(&id(1)).unwrap();
    assert_eq!(cache.num_blocks(), Ok(3));
}

#[test]
fn decrypt_block_accepts_only_authentic_ciphertexts() {
    let mut store = EncryptedBlockStore::new(InMemoryBlockStore::new(), xchacha_cipher());
    store.store(&id(1), b"abc").unwrap();
    let stored = base_load(store.inner(), 1).unwrap();
    let plain = store.decrypt_block(Data::from_vec(stored.clone())).ok().unwrap();
    assert_eq!(plain.as_slice(), b"abc");
    let mut bad = stored;
    bad[0] ^= 1;
    assert_eq!(
        store.decrypt_block(Data::from_vec(bad)).err(),
        Some(BlockStoreError::IntegrityViolation)
    );
    assert_eq!(
        store.decrypt_block(Data::from_vec(vec![1, 2, 3])).err(),
        Some(BlockStoreError::IntegrityViolation)
    );
}

#[test]
fn resize_grows_into_the_suffix_reservation_first() {
    let mut d = Data::with_reservations(4, &[1, 2], 6);
    d.resize(5);
    assert_eq!(d.as_slice(), &[1, 2, 0, 0, 0][..]);
    assert_eq!(d.available_prefix_bytes(), 4);
    assert_eq!(d.available_suffix_bytes(), 3);
    d.resize(1);
    assert_eq!(d.available_suffix_bytes(), 7);
}

#[test]
fn least_recently_used_block_is_evicted() {
    let mut cache = BlockCache::new(InMemoryBlockStore::new(), 2);
    cache.write(&id(1), Data::from_vec(vec![1])).unwrap();
    cache.write(&id(2), Data::from_vec(vec![2])).unwrap();
    cache.load(&id(1)).unwrap();
    cache.write(&id(3), Data::from_vec(vec![3])).unwrap();
    assert_eq!(base_load(cache.base_store(), 2), Some(vec![2]));
    assert_eq!(base_load(cache.base_store(), 1), None);
    assert_eq!(cache.num_cached_blocks(), 2);
}

#[test]
fn entry_resizes_twice() {
    let mut entry = BlockCacheEntry::new(
        Data::with_reservations(0, &[5], 2),
        CacheEntryState::Clean,
        BlockBaseStoreState::ExistsInBaseStore,
    );
    entry.resize(2);
    entry.resize(3);
    assert_eq!(entry.data().as_slice(), &[5, 0, 0][..]);
    assert_eq!(entry.data().available_suffix_bytes(), 0);
    assert!(entry.is_dirty());
    entry.discard();
}
