//! A block store that encrypts every block before handing it to an inner
//! store, and authenticates and decrypts every block it loads.
use crate::cipher::{
    allocate_space_for_ciphertext, decrypts_to, is_encryption_of, spec_max_plaintext_len, spec_overhead_prefix, spec_overhead_suffix, Cipher,
};
use crate::data::Data;
use crate::store::{BlockId, BlockStore, BlockStoreError, RemoveResult};
use vstd::prelude::*;

verus! {

/// A block store over `inner` whose blocks are the plaintexts of the
/// ciphertexts that `inner` holds.
pub struct EncryptedBlockStore<B: BlockStore> {
    inner: B,
    cipher: Cipher,
}

impl<B: BlockStore> EncryptedBlockStore<B> {
    /// The ciphertexts held by the inner store.
    pub closed spec fn ciphertexts(&self) -> Map<BlockId, Seq<u8>> {
        self.inner.blocks()
    }

    pub closed spec fn spec_cipher(&self) -> Cipher {
        self.cipher
    }

    /// The plaintext that `ciphertext` decrypts to under this store's cipher.
    pub open spec fn plaintext_of(&self, ciphertext: Seq<u8>) -> Seq<u8> {
        choose|p: Seq<u8>|
            decrypts_to(self.spec_cipher().spec_algorithm(), self.spec_cipher().spec_key(), ciphertext, p)
    }

    pub fn new(inner: B, cipher: Cipher) -> (r: Self)
        ensures
            r.ciphertexts() == inner.blocks(),
            r.spec_cipher() == cipher,
    {
        EncryptedBlockStore { inner, cipher }
    }

    /// The inner store, holding ciphertexts.
    pub fn inner(&self) -> (r: &B)
        ensures
            r.blocks() == self.ciphertexts(),
    {
        &self.inner
    }

    /// The inner store, for direct changes of the ciphertexts.
    pub fn inner_mut(&mut self) -> (r: &mut B)
        ensures
            r.blocks() == old(self).ciphertexts(),
            final(self).ciphertexts() == final(r).blocks(),
            final(self).spec_cipher() == old(self).spec_cipher(),
    {
        &mut self.inner
    }

    /// The payload size that a physical block of `physical_block_size` bytes
    /// leaves after the cipher's overhead; `None` where it cannot hold the
    /// overhead.
    pub fn block_size_from_physical_block_size(&self, physical_block_size: u64) -> (r: Option<u64>)
        ensures
            physical_block_size >= spec_overhead_prefix(self.spec_cipher().spec_algorithm())
                + spec_overhead_suffix(self.spec_cipher().spec_algorithm()) ==> r == Some(
                (physical_block_size - spec_overhead_prefix(self.spec_cipher().spec_algorithm())
                    - spec_overhead_suffix(self.spec_cipher().spec_algorithm())) as u64,
            ),
            physical_block_size < spec_overhead_prefix(self.spec_cipher().spec_algorithm())
                + spec_overhead_suffix(self.spec_cipher().spec_algorithm()) ==> r is None,
    {
        let alg = self.cipher.algorithm();
        let overhead = (alg.ciphertext_overhead_prefix() + alg.ciphertext_overhead_suffix()) as u64;
        if physical_block_size >= overhead {
            Some(physical_block_size - overhead)
        } else {
            None
        }
    }

    /// Decrypts a ciphertext loaded from the inner store: its plaintext where
    /// it is an encryption of one, an integrity violation otherwise.
    pub fn decrypt_block(&self, ciphertext: Data) -> (r: Result<Data, BlockStoreError>)
        ensures
            r matches Ok(p) ==> decrypts_to(
                self.spec_cipher().spec_algorithm(),
                self.spec_cipher().spec_key(),
                ciphertext@,
                p@,
            ),
            r matches Ok(p) ==> forall|q: Seq<u8>|
                #[trigger] decrypts_to(
                    self.spec_cipher().spec_algorithm(),
                    self.spec_cipher().spec_key(),
                    ciphertext@,
                    q,
                ) ==> q == p@,
            (exists|p: Seq<u8>|
                decrypts_to(
                    self.spec_cipher().spec_algorithm(),
                    self.spec_cipher().spec_key(),
                    ciphertext@,
                    p,
                )) ==> r is Ok,
            (forall|p: Seq<u8>|
                !decrypts_to(
                    self.spec_cipher().spec_algorithm(),
                    self.spec_cipher().spec_key(),
                    ciphertext@,
                    p,
                )) ==> r == Err::<Data, BlockStoreError>(BlockStoreError::IntegrityViolation),
            r is Err ==> r == Err::<Data, BlockStoreError>(BlockStoreError::IntegrityViolation),
    {
        let ghost cv = ciphertext@;
        match self.cipher.decrypt(ciphertext) {
            Ok(p) => {
                if p.len() as u64 > self.cipher.algorithm().max_plaintext_len() {
                    proof {
                        let alg = self.cipher.spec_algorithm();
                        let key = self.cipher.spec_key();
                        if exists|q: Seq<u8>| decrypts_to(alg, key, cv, q) {
                            let q = choose|q: Seq<u8>| decrypts_to(alg, key, cv, q);
                            assert(is_encryption_of(alg, key, cv, q));
                        }
                    }
                    return Err(BlockStoreError::IntegrityViolation);
                }
                proof {
                    assert(decrypts_to(self.cipher.spec_algorithm(), self.cipher.spec_key(), cv, p@));
                }
                Ok(p)
            },
            Err(_) => {
                proof {
                    let alg = self.cipher.spec_algorithm();
                    let key = self.cipher.spec_key();
                    if exists|q: Seq<u8>| decrypts_to(alg, key, cv, q) {
                        let q = choose|q: Seq<u8>| decrypts_to(alg, key, cv, q);
                        assert(is_encryption_of(alg, key, cv, q));
                    }
                }
                Err(BlockStoreError::IntegrityViolation)
            },
        }
    }

    /// Stores whose inner stores differ at most at `id` hold the same
    /// plaintexts apart from `id`.
    proof fn lemma_same_but_one(c: &Self, d: &Self, id: BlockId)
        requires
            c.cipher == d.cipher,
            c.inner.blocks().remove(id) == d.inner.blocks().remove(id),
        ensures
            c.blocks().remove(id) == d.blocks().remove(id),
    {
        let a = c.inner.blocks();
        let b = d.inner.blocks();
        let m1 = c.blocks().remove(id);
        let m2 = d.blocks().remove(id);
        assert forall|x: BlockId| m1.dom().contains(x) == m2.dom().contains(x) by {
            if x != id {
                assert(a.remove(id).contains_key(x) == a.contains_key(x));
                assert(b.remove(id).contains_key(x) == b.contains_key(x));
                assert(c.blocks().contains_key(x) == a.contains_key(x));
                assert(d.blocks().contains_key(x) == b.contains_key(x));
            }
        }
        assert forall|x: BlockId| m1.dom().contains(x) implies m1[x] == m2[x] by {
            assert(a.remove(id).contains_key(x) == a.contains_key(x));
            assert(a.remove(id)[x] == a[x]);
            assert(b.remove(id)[x] == b[x]);
            assert(c.blocks()[x] == c.plaintext_of(a[x]));
            assert(d.blocks()[x] == d.plaintext_of(b[x]));
        }
        assert(m1 =~= m2);
    }
}

impl<B: BlockStore> BlockStore for EncryptedBlockStore<B> {
    /// The blocks of the inner store, each as the plaintext it decrypts to.
    closed spec fn blocks(&self) -> Map<BlockId, Seq<u8>> {
        Map::new(
            |id: BlockId| self.inner.blocks().contains_key(id),
            |id: BlockId| self.plaintext_of(self.inner.blocks()[id]),
        )
    }

    /// Loads and decrypts block `id`; a ciphertext that does not authenticate
    /// is an integrity violation.
    fn load(&self, id: &BlockId) -> (r: Result<Option<Data>, BlockStoreError>)
        ensures
            r matches Ok(Some(d)) ==> decrypts_to(
                self.spec_cipher().spec_algorithm(),
                self.spec_cipher().spec_key(),
                self.ciphertexts()[*id],
                d@,
            ),
    {
        match self.inner.load(id) {
            Ok(Some(c)) => {
                let ghost cv = c@;
                match self.decrypt_block(c) {
                    Ok(p) => {
                        proof {
                            let alg = self.cipher.spec_algorithm();
                            let key = self.cipher.spec_key();
                            let q = self.plaintext_of(cv);
                            assert(decrypts_to(alg, key, cv, q));
                        }
                        Ok(Some(p))
                    },
                    Err(e) => Err(e),
                }
            },
            Ok(None) => Ok(None),
            Err(e) => Err(e),
        }
    }

    fn contains(&self, id: &BlockId) -> (r: Result<bool, BlockStoreError>) {
        self.inner.contains(id)
    }

    fn num_blocks(&self) -> (r: Result<u64, BlockStoreError>) {
        proof {
            assert(self.blocks().dom() =~= self.inner.blocks().dom());
        }
        self.inner.num_blocks()
    }

    /// Encrypts `data` under a fresh nonce and stores the ciphertext as block
    /// `id` of the inner store.
    fn store(&mut self, id: &BlockId, data: &[u8]) -> (r: Result<(), BlockStoreError>)
        ensures
            data@.len() > spec_max_plaintext_len(old(self).spec_cipher().spec_algorithm())
                || data@.len() + spec_overhead_prefix(old(self).spec_cipher().spec_algorithm())
                + spec_overhead_suffix(old(self).spec_cipher().spec_algorithm()) > usize::MAX
                ==> r == Err::<(), BlockStoreError>(BlockStoreError::BlockTooLarge)
                && final(self).ciphertexts() == old(self).ciphertexts(),
    {
        let alg = self.cipher.algorithm();
        if data.len() as u64 > alg.max_plaintext_len() {
            return Err(BlockStoreError::BlockTooLarge);
        }
        if data.len() > usize::MAX - alg.ciphertext_overhead_prefix() - alg.ciphertext_overhead_suffix() {
            return Err(BlockStoreError::BlockTooLarge);
        }
        let plaintext = allocate_space_for_ciphertext(alg, data);
        let ciphertext = match self.cipher.encrypt(plaintext) {
            Ok(c) => c,
            Err(_) => {
                return Err(BlockStoreError::BlockTooLarge);
            },
        };
        let ghost cv = ciphertext@;
        let r = self.inner.store(id, ciphertext.as_slice());
        proof {
            if r is Ok {
                let alg = self.cipher.spec_algorithm();
                let key = self.cipher.spec_key();
                assert(decrypts_to(alg, key, cv, data@));
                let q = self.plaintext_of(cv);
                assert(decrypts_to(alg, key, cv, q));
                assert(self.blocks() =~= old(self).blocks().insert(*id, data@));
            } else {
                EncryptedBlockStore::lemma_same_but_one(&*self, &*old(self), *id);
            }
        }
        r
    }

    fn remove(&mut self, id: &BlockId) -> (r: Result<RemoveResult, BlockStoreError>) {
        let r = self.inner.remove(id);
        proof {
            if r is Ok {
                assert(self.blocks() =~= old(self).blocks().remove(*id));
            } else {
                EncryptedBlockStore::lemma_same_but_one(&*self, &*old(self), *id);
            }
        }
        r
    }
}

} // verus!
