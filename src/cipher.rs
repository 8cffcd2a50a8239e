//! Authenticated symmetric ciphers behind one contract. A ciphertext is laid
//! out as `nonce || sealed`, where `sealed` is the AEAD output: the encrypted
//! payload followed by the authentication tag.
use crate::data::Data;
use aes_gcm::aead::Aead;
use aes_gcm::aead::KeyInit;
use vstd::prelude::*;

verus! {

/// The ciphers on offer.
#[derive(Clone, Copy, Debug, PartialEq, Eq, Structural)]
pub enum CipherAlgorithm {
    XChaCha20Poly1305,
    Aes128Gcm,
    Aes256Gcm,
}

/// Errors of the cipher layer.
#[derive(Clone, Copy, Debug, PartialEq, Eq, Structural)]
pub enum CipherError {
    /// The key length differs from what the cipher requires.
    KeySizeMismatch { expected: usize, got: usize },
    /// The ciphertext is too short or failed authentication.
    IntegrityViolation,
    /// The plaintext is longer than the cipher can encrypt under one nonce.
    PlaintextTooLarge,
}

/// Number of authentication tag bytes appended by every cipher.
pub const TAG_SIZE: usize = 16;

pub open spec fn spec_key_size(alg: CipherAlgorithm) -> nat {
    match alg {
        CipherAlgorithm::XChaCha20Poly1305 => 32,
        CipherAlgorithm::Aes128Gcm => 16,
        CipherAlgorithm::Aes256Gcm => 32,
    }
}

/// Bytes placed before the encrypted payload: the nonce.
pub open spec fn spec_overhead_prefix(alg: CipherAlgorithm) -> nat {
    match alg {
        CipherAlgorithm::XChaCha20Poly1305 => 24,
        CipherAlgorithm::Aes128Gcm => 12,
        CipherAlgorithm::Aes256Gcm => 12,
    }
}

/// Bytes placed after the encrypted payload: the tag.
pub open spec fn spec_overhead_suffix(alg: CipherAlgorithm) -> nat {
    TAG_SIZE as nat
}

/// The longest plaintext that the cipher accepts.
pub open spec fn spec_max_plaintext_len(alg: CipherAlgorithm) -> nat {
    match alg {
        CipherAlgorithm::XChaCha20Poly1305 => 274877906816,
        CipherAlgorithm::Aes128Gcm => 68719476736,
        CipherAlgorithm::Aes256Gcm => 68719476736,
    }
}

/// Output (encrypted payload, then tag) of XChaCha20-Poly1305 encryption with
/// no associated data.
pub uninterp spec fn xchacha20poly1305_sealed(key: Seq<u8>, nonce: Seq<u8>, plaintext: Seq<u8>) -> Seq<u8>;

/// Output (encrypted payload, then tag) of AES-128-GCM encryption with no
/// associated data.
pub uninterp spec fn aes128gcm_sealed(key: Seq<u8>, nonce: Seq<u8>, plaintext: Seq<u8>) -> Seq<u8>;

/// Output (encrypted payload, then tag) of AES-256-GCM encryption with no
/// associated data.
pub uninterp spec fn aes256gcm_sealed(key: Seq<u8>, nonce: Seq<u8>, plaintext: Seq<u8>) -> Seq<u8>;

pub open spec fn sealed(alg: CipherAlgorithm, key: Seq<u8>, nonce: Seq<u8>, plaintext: Seq<u8>) -> Seq<u8> {
    match alg {
        CipherAlgorithm::XChaCha20Poly1305 => xchacha20poly1305_sealed(key, nonce, plaintext),
        CipherAlgorithm::Aes128Gcm => aes128gcm_sealed(key, nonce, plaintext),
        CipherAlgorithm::Aes256Gcm => aes256gcm_sealed(key, nonce, plaintext),
    }
}

/// `ciphertext` is `nonce || sealed(plaintext)` for the nonce it starts with,
/// one nonce and one tag longer than the plaintext.
pub open spec fn is_encryption_of(
    alg: CipherAlgorithm,
    key: Seq<u8>,
    ciphertext: Seq<u8>,
    plaintext: Seq<u8>,
) -> bool {
    let prefix = spec_overhead_prefix(alg) as int;
    &&& ciphertext.len() == plaintext.len() + prefix + spec_overhead_suffix(alg)
    &&& ciphertext.subrange(prefix, ciphertext.len() as int) == sealed(
        alg,
        key,
        ciphertext.subrange(0, prefix),
        plaintext,
    )
}

/// `plaintext` is of a length that the cipher encrypts, and `ciphertext` is an
/// encryption of it.
pub open spec fn decrypts_to(
    alg: CipherAlgorithm,
    key: Seq<u8>,
    ciphertext: Seq<u8>,
    plaintext: Seq<u8>,
) -> bool {
    plaintext.len() <= spec_max_plaintext_len(alg) && is_encryption_of(alg, key, ciphertext, plaintext)
}

/// What decryption of `ciphertext` may return: only a plaintext that it is an
/// encryption of, an integrity error otherwise, and every such plaintext of
/// admissible length is the one returned.
pub open spec fn decrypt_outcome(
    alg: CipherAlgorithm,
    key: Seq<u8>,
    ciphertext: Seq<u8>,
    r: Result<Seq<u8>, CipherError>,
) -> bool {
    &&& r matches Ok(p) ==> is_encryption_of(alg, key, ciphertext, p)
    &&& r matches Err(e) ==> e == CipherError::IntegrityViolation
    &&& forall|p: Seq<u8>|
        p.len() <= spec_max_plaintext_len(alg) && #[trigger] is_encryption_of(alg, key, ciphertext, p)
            ==> r == Ok::<Seq<u8>, CipherError>(p)
}

/// A decryption result, with the payload of its buffer in place of the buffer.
pub open spec fn result_view(r: Result<Data, CipherError>) -> Result<Seq<u8>, CipherError> {
    match r {
        Ok(d) => Ok(d@),
        Err(e) => Err(e),
    }
}

/// The error of the `aead` traits (aead 0.5, re-exported by aes-gcm and
/// chacha20poly1305), carried out of the wrappers and mapped to `CipherError`.
#[verifier::external_type_specification]
#[verifier::external_body]
pub struct ExAeadError(aes_gcm::aead::Error);

/// Relies on rand::random: a value drawn from the thread-local generator;
/// nothing is promised about which.
pub assume_specification<T>[ rand::random::<T> ]() -> (r: T)
    where
        rand::distributions::Standard: rand::distributions::Distribution<T>,
;

/// Relies on chacha20poly1305's `XChaCha20Poly1305` (`KeyInit::new`, then
/// `Aead::encrypt`): the sealed output, one tag longer than the plaintext.
/// Keystream block 0 keys the MAC, so at most 2^32 - 2 blocks of 64 bytes are
/// left for the plaintext; a longer one makes the stream cipher panic.
#[verifier::external_body]
fn xchacha20poly1305_seal(key: &[u8], nonce: &[u8], plaintext: &[u8]) -> (r: Result<Vec<u8>, aes_gcm::aead::Error>)
    requires
        key@.len() == 32,
        nonce@.len() == 24,
        plaintext@.len() <= 274877906816,
    ensures
        r matches Ok(c) ==> c@ == xchacha20poly1305_sealed(key@, nonce@, plaintext@),
        r matches Ok(c) ==> forall|q: Seq<u8>| (q.len() <= 274877906816 && #[trigger] xchacha20poly1305_sealed(key@, nonce@, q) == c@) ==> q == plaintext@,
        r matches Ok(c) ==> c@.len() == plaintext@.len() + 16,
        r is Ok,
{
    let cipher = chacha20poly1305::XChaCha20Poly1305::new(chacha20poly1305::Key::from_slice(key));
    cipher.encrypt(chacha20poly1305::XNonce::from_slice(nonce), plaintext)
}

/// Relies on chacha20poly1305's `XChaCha20Poly1305` (`KeyInit::new`, then
/// `Aead::decrypt`): it returns the plaintext whose sealed output `sealed` is,
/// and fails when the tag does not authenticate. An input longer than the
/// longest sealed output (2^32 - 2 blocks of 64 bytes, and the tag) could make
/// the stream cipher panic once authenticated, so it is not admitted.
#[verifier::external_body]
fn xchacha20poly1305_open(key: &[u8], nonce: &[u8], sealed: &[u8]) -> (r: Result<Vec<u8>, aes_gcm::aead::Error>)
    requires
        key@.len() == 32,
        nonce@.len() == 24,
        sealed@.len() <= 274877906816 + 16,
    ensures
        r matches Ok(p) ==> xchacha20poly1305_sealed(key@, nonce@, p@) == sealed@,
        r matches Ok(p) ==> p@.len() + 16 == sealed@.len(),
        r is Err ==> forall|p: Seq<u8>| !(p.len() <= 274877906816 && #[trigger] xchacha20poly1305_sealed(key@, nonce@, p) == sealed@),
        r matches Ok(q) ==> forall|p: Seq<u8>| (p.len() <= 274877906816 && #[trigger] xchacha20poly1305_sealed(key@, nonce@, p) == sealed@) ==> q@ == p,
{
    let cipher = chacha20poly1305::XChaCha20Poly1305::new(chacha20poly1305::Key::from_slice(key));
    cipher.decrypt(chacha20poly1305::XNonce::from_slice(nonce), sealed)
}

/// Relies on aes-gcm's `Aes128Gcm` (`KeyInit::new`, then `Aead::encrypt`):
/// the sealed output, one tag longer than the plaintext, and an error only for
/// a plaintext longer than `P_MAX` (2^36 bytes).
#[verifier::external_body]
fn aes128gcm_seal(key: &[u8], nonce: &[u8], plaintext: &[u8]) -> (r: Result<Vec<u8>, aes_gcm::aead::Error>)
    requires
        key@.len() == 16,
        nonce@.len() == 12,
    ensures
        r matches Ok(c) ==> c@ == aes128gcm_sealed(key@, nonce@, plaintext@),
        r matches Ok(c) ==> forall|q: Seq<u8>| (q.len() <= 68719476736 && #[trigger] aes128gcm_sealed(key@, nonce@, q) == c@) ==> q == plaintext@,
        r matches Ok(c) ==> c@.len() == plaintext@.len() + 16,
        r is Ok <==> plaintext@.len() <= 68719476736,
{
    let cipher = aes_gcm::Aes128Gcm::new(aes_gcm::Key::<aes_gcm::Aes128Gcm>::from_slice(key));
    cipher.encrypt(aes_gcm::Nonce::from_slice(nonce), plaintext)
}

/// Relies on aes-gcm's `Aes128Gcm` (`KeyInit::new`, then `Aead::decrypt`): it
/// returns the plaintext whose sealed output `sealed` is, and fails when the
/// tag does not authenticate.
#[verifier::external_body]
fn aes128gcm_open(key: &[u8], nonce: &[u8], sealed: &[u8]) -> (r: Result<Vec<u8>, aes_gcm::aead::Error>)
    requires
        key@.len() == 16,
        nonce@.len() == 12,
    ensures
        r matches Ok(p) ==> aes128gcm_sealed(key@, nonce@, p@) == sealed@,
        r matches Ok(p) ==> p@.len() + 16 == sealed@.len(),
        r is Err ==> forall|p: Seq<u8>| !(p.len() <= 68719476736 && #[trigger] aes128gcm_sealed(key@, nonce@, p) == sealed@),
        r matches Ok(q) ==> forall|p: Seq<u8>| (p.len() <= 68719476736 && #[trigger] aes128gcm_sealed(key@, nonce@, p) == sealed@) ==> q@ == p,
{
    let cipher = aes_gcm::Aes128Gcm::new(aes_gcm::Key::<aes_gcm::Aes128Gcm>::from_slice(key));
    cipher.decrypt(aes_gcm::Nonce::from_slice(nonce), sealed)
}

/// Relies on aes-gcm's `Aes256Gcm` (`KeyInit::new`, then `Aead::encrypt`):
/// the sealed output, one tag longer than the plaintext, and an error only for
/// a plaintext longer than `P_MAX` (2^36 bytes). The crate picks the AES-NI
/// and CLMUL code paths at run time where the CPU has them.
#[verifier::external_body]
fn aes256gcm_seal(key: &[u8], nonce: &[u8], plaintext: &[u8]) -> (r: Result<Vec<u8>, aes_gcm::aead::Error>)
    requires
        key@.len() == 32,
        nonce@.len() == 12,
    ensures
        r matches Ok(c) ==> c@ == aes256gcm_sealed(key@, nonce@, plaintext@),
        r matches Ok(c) ==> forall|q: Seq<u8>| (q.len() <= 68719476736 && #[trigger] aes256gcm_sealed(key@, nonce@, q) == c@) ==> q == plaintext@,
        r matches Ok(c) ==> c@.len() == plaintext@.len() + 16,
        r is Ok <==> plaintext@.len() <= 68719476736,
{
    let cipher = aes_gcm::Aes256Gcm::new(aes_gcm::Key::<aes_gcm::Aes256Gcm>::from_slice(key));
    cipher.encrypt(aes_gcm::Nonce::from_slice(nonce), plaintext)
}

/// Relies on aes-gcm's `Aes256Gcm` (`KeyInit::new`, then `Aead::decrypt`): it
/// returns the plaintext whose sealed output `sealed` is, and fails when the
/// tag does not authenticate.
#[verifier::external_body]
fn aes256gcm_open(key: &[u8], nonce: &[u8], sealed: &[u8]) -> (r: Result<Vec<u8>, aes_gcm::aead::Error>)
    requires
        key@.len() == 32,
        nonce@.len() == 12,
    ensures
        r matches Ok(p) ==> aes256gcm_sealed(key@, nonce@, p@) == sealed@,
        r matches Ok(p) ==> p@.len() + 16 == sealed@.len(),
        r is Err ==> forall|p: Seq<u8>| !(p.len() <= 68719476736 && #[trigger] aes256gcm_sealed(key@, nonce@, p) == sealed@),
        r matches Ok(q) ==> forall|p: Seq<u8>| (p.len() <= 68719476736 && #[trigger] aes256gcm_sealed(key@, nonce@, p) == sealed@) ==> q@ == p,
{
    let cipher = aes_gcm::Aes256Gcm::new(aes_gcm::Key::<aes_gcm::Aes256Gcm>::from_slice(key));
    cipher.decrypt(aes_gcm::Nonce::from_slice(nonce), sealed)
}

impl CipherAlgorithm {
    /// Required key length in bytes.
    pub fn key_size(&self) -> (r: usize)
        ensures
            r == spec_key_size(*self),
    {
        match self {
            CipherAlgorithm::XChaCha20Poly1305 => 32,
            CipherAlgorithm::Aes128Gcm => 16,
            CipherAlgorithm::Aes256Gcm => 32,
        }
    }

    /// Bytes that a ciphertext carries before the encrypted payload.
    pub fn ciphertext_overhead_prefix(&self) -> (r: usize)
        ensures
            r == spec_overhead_prefix(*self),
    {
        match self {
            CipherAlgorithm::XChaCha20Poly1305 => 24,
            CipherAlgorithm::Aes128Gcm => 12,
            CipherAlgorithm::Aes256Gcm => 12,
        }
    }

    /// The longest plaintext that the cipher accepts.
    pub fn max_plaintext_len(&self) -> (r: u64)
        ensures
            r == spec_max_plaintext_len(*self),
    {
        match self {
            CipherAlgorithm::XChaCha20Poly1305 => 274877906816,
            CipherAlgorithm::Aes128Gcm => 68719476736,
            CipherAlgorithm::Aes256Gcm => 68719476736,
        }
    }

    /// Bytes that a ciphertext carries after the encrypted payload.
    pub fn ciphertext_overhead_suffix(&self) -> (r: usize)
        ensures
            r == spec_overhead_suffix(*self),
    {
        TAG_SIZE
    }
}

/// A secret key of some length.
pub struct EncryptionKey {
    bytes: Vec<u8>,
}

impl View for EncryptionKey {
    type V = Seq<u8>;

    closed spec fn view(&self) -> Seq<u8> {
        self.bytes@
    }
}

impl EncryptionKey {
    /// A key made of `bytes`.
    pub fn from_bytes(bytes: Vec<u8>) -> (r: EncryptionKey)
        ensures
            r@ == bytes@,
    {
        EncryptionKey { bytes }
    }

    /// A key of `num_bytes` bytes that `fill` writes in place into a zeroed
    /// buffer, so that the secret never passes through a value of the
    /// caller's. The key holds what `fill` left in the buffer; where `fill`
    /// fails, so does this, with the same error.
    pub fn new<F, E>(num_bytes: usize, fill: F) -> (r: Result<EncryptionKey, E>)
        where
            F: FnOnce(&mut [u8]) -> Result<(), E>,
        requires
            forall|b: &mut [u8]| #[trigger] fill.requires((b,)),
        ensures
            r matches Ok(k) ==> k@.len() == num_bytes,
            r matches Ok(k) ==> exists|b: &mut [u8], u: Result<(), E>|
                u is Ok && (*b)@ == crate::data::zeros(num_bytes as nat) && #[trigger] fill.ensures((b,), u)
                    && k@ == fitted((*final(b))@, num_bytes as nat),
            r matches Err(e) ==> exists|b: &mut [u8], u: Result<(), E>|
                u == Err::<(), E>(e) && (*b)@ == crate::data::zeros(num_bytes as nat) && #[trigger] fill.ensures((b,), u),
    {
        let mut bytes: Vec<u8> = Vec::with_capacity(num_bytes);
        while bytes.len() < num_bytes
            invariant
                bytes@ == crate::data::zeros(bytes@.len()),
                bytes@.len() <= num_bytes,
            decreases num_bytes - bytes@.len(),
        {
            bytes.push(0u8);
            proof {
                assert(bytes@ =~= crate::data::zeros(bytes@.len()));
            }
        }
        let slice = bytes.as_mut_slice();
        let ghost start = slice;
        let filled = fill(slice);
        proof {
            assert((*start)@ == crate::data::zeros(num_bytes as nat));
            assert((*final(start))@ == bytes@);
            assert(exists|b: &mut [u8]|
                #[trigger] fill.ensures((b,), filled) && (*b)@ == (*start)@ && (*final(b))@ == (*final(start))@);
        }
        match filled {
            Ok(()) => {
                let ghost written = bytes@;
                // A slice cannot change its length, but nothing tells Verus so
                // of a closure's `&mut [u8]` argument; this restates it.
                bytes.truncate(num_bytes);
                while bytes.len() < num_bytes
                    invariant
                        bytes@ == fitted(written, num_bytes as nat).subrange(0, bytes@.len() as int),
                        bytes@.len() <= num_bytes,
                        bytes@.len() >= written.len() || bytes@.len() == num_bytes,
                    decreases num_bytes - bytes@.len(),
                {
                    bytes.push(0u8);
                    proof {
                        assert(bytes@ =~= fitted(written, num_bytes as nat).subrange(0, bytes@.len() as int));
                    }
                }
                proof {
                    assert(bytes@ =~= fitted(written, num_bytes as nat));
                    let b = choose|b: &mut [u8]|
                        #[trigger] fill.ensures((b,), filled) && (*b)@ == (*start)@ && (*final(b))@ == (*final(start))@;
                    assert((*b)@ == crate::data::zeros(num_bytes as nat));
                    assert(filled is Ok);
                }
                Ok(EncryptionKey { bytes })
            },
            Err(e) => {
                proof {
                    let b = choose|b: &mut [u8]|
                        #[trigger] fill.ensures((b,), filled) && (*b)@ == (*start)@ && (*final(b))@ == (*final(start))@;
                    assert((*b)@ == crate::data::zeros(num_bytes as nat));
                    assert(filled == Err::<(), E>(e));
                }
                Err(e)
            },
        }
    }

    /// Key length in bytes.
    pub fn num_bytes(&self) -> (r: usize)
        ensures
            r == self@.len(),
    {
        self.bytes.len()
    }

    /// The key bytes.
    pub fn as_bytes(&self) -> (r: &[u8])
        ensures
            r@ == self@,
    {
        self.bytes.as_slice()
    }
}

/// `bytes` cut or zero-padded to `n` bytes.
pub open spec fn fitted(bytes: Seq<u8>, n: nat) -> Seq<u8> {
    if bytes.len() >= n {
        bytes.subrange(0, n as int)
    } else {
        bytes + crate::data::zeros((n - bytes.len()) as nat)
    }
}

/// A keyed instance of one of the ciphers.
pub struct Cipher {
    algorithm: CipherAlgorithm,
    key: EncryptionKey,
}

/// `len` random bytes, drawn from the thread-local generator.
fn random_bytes(len: usize) -> (r: Vec<u8>)
    ensures
        r@.len() == len,
{
    let mut r: Vec<u8> = Vec::with_capacity(len);
    while r.len() < len
        invariant
            r@.len() <= len,
        decreases len - r@.len(),
    {
        let b: u8 = rand::random::<u8>();
        r.push(b);
    }
    r
}

/// A buffer holding `plaintext` with exactly the reservations that encryption
/// under `algorithm` widens into.
pub fn allocate_space_for_ciphertext(algorithm: CipherAlgorithm, plaintext: &[u8]) -> (r: Data)
    requires
        plaintext@.len() + spec_overhead_prefix(algorithm) + spec_overhead_suffix(algorithm) <= usize::MAX,
    ensures
        r@ == plaintext@,
        r.prefix_len() == spec_overhead_prefix(algorithm),
        r.suffix_len() == spec_overhead_suffix(algorithm),
        r.allocation() == crate::data::zeros(spec_overhead_prefix(algorithm)) + plaintext@ + crate::data::zeros(
            spec_overhead_suffix(algorithm),
        ),
{
    Data::with_reservations(
        algorithm.ciphertext_overhead_prefix(),
        plaintext,
        algorithm.ciphertext_overhead_suffix(),
    )
}

impl Cipher {
    #[verifier::type_invariant]
    closed spec fn key_fits(&self) -> bool {
        self.key@.len() == spec_key_size(self.algorithm)
    }

    pub closed spec fn spec_algorithm(&self) -> CipherAlgorithm {
        self.algorithm
    }

    pub closed spec fn spec_key(&self) -> Seq<u8> {
        self.key@
    }

    /// A cipher of `algorithm` keyed with `key`; fails when the key has the
    /// wrong length.
    pub fn new(algorithm: CipherAlgorithm, key: EncryptionKey) -> (r: Result<Cipher, CipherError>)
        ensures
            key@.len() == spec_key_size(algorithm) <==> r is Ok,
            r matches Ok(c) ==> c.spec_algorithm() == algorithm && c.spec_key() == key@,
            r matches Err(e) ==> e == (CipherError::KeySizeMismatch {
                expected: spec_key_size(algorithm) as usize,
                got: key@.len() as usize,
            }),
    {
        let expected = algorithm.key_size();
        let got = key.num_bytes();
        if got != expected {
            Err(CipherError::KeySizeMismatch { expected, got })
        } else {
            Ok(Cipher { algorithm, key })
        }
    }

    pub fn algorithm(&self) -> (r: CipherAlgorithm)
        ensures
            r == self.spec_algorithm(),
    {
        self.algorithm
    }

    fn seal(&self, nonce: &[u8], plaintext: &[u8]) -> (r: Result<Vec<u8>, aes_gcm::aead::Error>)
        requires
            self.key@.len() == spec_key_size(self.algorithm),
            nonce@.len() == spec_overhead_prefix(self.algorithm),
            plaintext@.len() <= spec_max_plaintext_len(self.algorithm),
        ensures
            r matches Ok(c) ==> c@ == sealed(self.algorithm, self.key@, nonce@, plaintext@),
            r matches Ok(c) ==> forall|q: Seq<u8>|
                q.len() <= spec_max_plaintext_len(self.algorithm) && #[trigger] sealed(self.algorithm, self.key@, nonce@, q) == c@
                    ==> q == plaintext@,
            r matches Ok(c) ==> c@.len() == plaintext@.len() + TAG_SIZE,
            r is Ok <==> plaintext@.len() <= spec_max_plaintext_len(self.algorithm),
    {
        match self.algorithm {
            CipherAlgorithm::XChaCha20Poly1305 => xchacha20poly1305_seal(self.key.as_bytes(), nonce, plaintext),
            CipherAlgorithm::Aes128Gcm => aes128gcm_seal(self.key.as_bytes(), nonce, plaintext),
            CipherAlgorithm::Aes256Gcm => aes256gcm_seal(self.key.as_bytes(), nonce, plaintext),
        }
    }

    fn open(&self, nonce: &[u8], sealed_bytes: &[u8]) -> (r: Result<Vec<u8>, aes_gcm::aead::Error>)
        requires
            self.key@.len() == spec_key_size(self.algorithm),
            nonce@.len() == spec_overhead_prefix(self.algorithm),
            sealed_bytes@.len() <= spec_max_plaintext_len(self.algorithm) + TAG_SIZE,
        ensures
            r matches Ok(p) ==> sealed(self.algorithm, self.key@, nonce@, p@) == sealed_bytes@,
            r matches Ok(p) ==> p@.len() + TAG_SIZE == sealed_bytes@.len(),
            forall|p: Seq<u8>|
                p.len() <= spec_max_plaintext_len(self.algorithm)
                    && #[trigger] sealed(self.algorithm, self.key@, nonce@, p) == sealed_bytes@
                    ==> (r matches Ok(q) && q@ == p),
    {
        match self.algorithm {
            CipherAlgorithm::XChaCha20Poly1305 => xchacha20poly1305_open(self.key.as_bytes(), nonce, sealed_bytes),
            CipherAlgorithm::Aes128Gcm => aes128gcm_open(self.key.as_bytes(), nonce, sealed_bytes),
            CipherAlgorithm::Aes256Gcm => aes256gcm_open(self.key.as_bytes(), nonce, sealed_bytes),
        }
    }

    /// Encrypts the payload of `plaintext` under a fresh random nonce. The
    /// result is `nonce || sealed(plaintext)`; where `plaintext` reserves room
    /// for the overhead, the ciphertext is written into that same allocation.
    pub fn encrypt(&self, plaintext: Data) -> (r: Result<Data, CipherError>)
        ensures
            r is Ok <==> plaintext@.len() <= spec_max_plaintext_len(self.spec_algorithm())
                && plaintext@.len() + spec_overhead_prefix(self.spec_algorithm())
                + spec_overhead_suffix(self.spec_algorithm()) <= usize::MAX,
            r matches Ok(c) ==> is_encryption_of(self.spec_algorithm(), self.spec_key(), c@, plaintext@),
            r matches Ok(c) ==> forall|q: Seq<u8>| #[trigger] decrypts_to(self.spec_algorithm(), self.spec_key(), c@, q) ==> q == plaintext@,
            r matches Ok(c) ==> c@.len() == plaintext@.len() + spec_overhead_prefix(self.spec_algorithm())
                + spec_overhead_suffix(self.spec_algorithm()),
            r matches Err(e) ==> e == CipherError::PlaintextTooLarge,
            plaintext.prefix_len() >= spec_overhead_prefix(self.spec_algorithm())
                && plaintext.suffix_len() >= spec_overhead_suffix(self.spec_algorithm()) ==> (r matches Ok(c)
                ==> c.allocation().len() == plaintext.allocation().len() && c.prefix_len()
                == plaintext.prefix_len() - spec_overhead_prefix(self.spec_algorithm()) && c.suffix_len()
                == plaintext.suffix_len() - spec_overhead_suffix(self.spec_algorithm())),
    {
        proof {
            use_type_invariant(self);
        }
        if plaintext.len() as u64 > self.algorithm.max_plaintext_len() {
            return Err(CipherError::PlaintextTooLarge);
        }
        let prefix = self.algorithm.ciphertext_overhead_prefix();
        let nonce = random_bytes(prefix);
        let sealed_bytes = match self.seal(nonce.as_slice(), plaintext.as_slice()) {
            Ok(s) => s,
            Err(_) => {
                return Err(CipherError::PlaintextTooLarge);
            },
        };
        if sealed_bytes.len() > usize::MAX - prefix {
            return Err(CipherError::PlaintextTooLarge);
        }
        let total = prefix + sealed_bytes.len();
        let mut out = plaintext;
        if out.available_prefix_bytes() >= prefix && out.available_suffix_bytes() >= TAG_SIZE {
            out.grow_region(prefix, TAG_SIZE);
        } else {
            out = Data::zeroed(0, total, 0);
        }
        out.write_at(0, nonce.as_slice());
        out.write_at(prefix, sealed_bytes.as_slice());
        proof {
            assert(out@.subrange(0, prefix as int) =~= nonce@);
            assert(out@.subrange(prefix as int, out@.len() as int) =~= sealed_bytes@);
            assert forall|q: Seq<u8>| #[trigger] decrypts_to(self.algorithm, self.key@, out@, q) implies q == plaintext@ by {
                assert(sealed(self.algorithm, self.key@, nonce@, q) == sealed_bytes@);
            }
        }
        Ok(out)
    }

    /// Decrypts `nonce || sealed` back to the plaintext, reusing the allocation
    /// of `ciphertext`. Fails with an integrity error when the ciphertext is
    /// shorter than the overhead or does not authenticate under this key.
    pub fn decrypt(&self, ciphertext: Data) -> (r: Result<Data, CipherError>)
        ensures
            decrypt_outcome(self.spec_algorithm(), self.spec_key(), ciphertext@, result_view(r)),
            ciphertext@.len() < spec_overhead_prefix(self.spec_algorithm())
                + spec_overhead_suffix(self.spec_algorithm()) ==> r is Err,
    {
        proof {
            use_type_invariant(self);
        }
        let prefix = self.algorithm.ciphertext_overhead_prefix();
        let n = ciphertext.len();
        if n < prefix + TAG_SIZE {
            return Err(CipherError::IntegrityViolation);
        }
        if (n - prefix - TAG_SIZE) as u64 > self.algorithm.max_plaintext_len() {
            return Err(CipherError::IntegrityViolation);
        }
        let bytes = ciphertext.as_slice();
        let nonce = vstd::slice::slice_subrange(bytes, 0, prefix);
        let body = vstd::slice::slice_subrange(bytes, prefix, n);
        match self.open(nonce, body) {
            Ok(p) => {
                let mut out = ciphertext;
                out.write_at(prefix, p.as_slice());
                out.shrink_to_subregion(prefix, prefix + p.len());
                proof {
                    assert(out@ =~= p@);
                }
                Ok(out)
            },
            Err(_) => Err(CipherError::IntegrityViolation),
        }
    }
}

/// Decrypting what `encrypt` produced, with a cipher of the same algorithm and
/// key, gives back the plaintext.
pub proof fn lemma_decrypt_inverts_encrypt(
    alg: CipherAlgorithm,
    key: Seq<u8>,
    plaintext: Seq<u8>,
    ciphertext: Seq<u8>,
    decrypted: Result<Seq<u8>, CipherError>,
)
    requires
        plaintext.len() <= spec_max_plaintext_len(alg),
        is_encryption_of(alg, key, ciphertext, plaintext),
        decrypt_outcome(alg, key, ciphertext, decrypted),
    ensures
        decrypted == Ok::<Seq<u8>, CipherError>(plaintext),
{
}

} // verus!
