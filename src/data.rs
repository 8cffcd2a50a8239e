//! A byte buffer whose payload is framed by reserved prefix and suffix bytes,
//! so that a cipher can widen the payload in place.
use vstd::prelude::*;

verus! {

/// An owned allocation `storage` whose payload is `storage[start..end]`.
/// The bytes before `start` are the prefix reservation, the bytes after
/// `end` the suffix reservation.
pub struct Data {
    storage: Vec<u8>,
    start: usize,
    end: usize,
}

/// `n` zero bytes.
pub open spec fn zeros(n: nat) -> Seq<u8> {
    Seq::new(n, |i: int| 0u8)
}

impl View for Data {
    type V = Seq<u8>;

    /// The payload.
    closed spec fn view(&self) -> Seq<u8> {
        self.storage@.subrange(self.start as int, self.end as int)
    }
}

impl Clone for Data {
    fn clone(&self) -> (r: Data)
        ensures
            r@ == self@,
            r.allocation() == self.allocation(),
            r.prefix_len() == self.prefix_len(),
            r.suffix_len() == self.suffix_len(),
    {
        proof {
            use_type_invariant(self);
        }
        Data { storage: self.storage.clone(), start: self.start, end: self.end }
    }
}

impl Data {
    /// The whole allocation, reservations included.
    pub closed spec fn allocation(&self) -> Seq<u8> {
        self.storage@
    }

    /// Number of bytes reserved before the payload.
    pub closed spec fn prefix_len(&self) -> nat {
        self.start as nat
    }

    /// Number of bytes reserved after the payload.
    pub closed spec fn suffix_len(&self) -> nat {
        (self.storage@.len() - self.end) as nat
    }

    #[verifier::type_invariant]
    closed spec fn frame_fits(&self) -> bool {
        self.start <= self.end <= self.storage@.len()
    }

    /// A buffer whose payload is `bytes`, with no reservations.
    pub fn from_vec(bytes: Vec<u8>) -> (r: Data)
        ensures
            r@ == bytes@,
            r.allocation() == bytes@,
            r.prefix_len() == 0,
            r.suffix_len() == 0,
    {
        let end = bytes.len();
        let r = Data { storage: bytes, start: 0, end };
        assert(r@ =~= bytes@);
        r
    }

    /// A zero-filled buffer with the given reservation and payload sizes.
    pub fn zeroed(prefix: usize, len: usize, suffix: usize) -> (r: Data)
        requires
            prefix + len + suffix <= usize::MAX,
        ensures
            r@ == zeros(len as nat),
            r.allocation() == zeros((prefix + len + suffix) as nat),
            r.prefix_len() == prefix,
            r.suffix_len() == suffix,
    {
        let total: usize = prefix + len + suffix;
        let mut storage: Vec<u8> = Vec::with_capacity(total);
        let mut i: usize = 0;
        while i < total
            invariant
                i <= total,
                storage@ == zeros(i as nat),
            decreases total - i,
        {
            storage.push(0u8);
            i = i + 1;
            assert(storage@ =~= zeros(i as nat));
        }
        let r = Data { storage, start: prefix, end: prefix + len };
        assert(r@ =~= zeros(len as nat));
        r
    }

    /// A buffer holding `payload`, with `prefix` and `suffix` zero bytes reserved
    /// around it.
    pub fn with_reservations(prefix: usize, payload: &[u8], suffix: usize) -> (r: Data)
        requires
            prefix + payload@.len() + suffix <= usize::MAX,
        ensures
            r@ == payload@,
            r.prefix_len() == prefix,
            r.suffix_len() == suffix,
            r.allocation() == zeros(prefix as nat) + payload@ + zeros(suffix as nat),
    {
        let total: usize = prefix + payload.len() + suffix;
        let mut storage: Vec<u8> = Vec::with_capacity(total);
        let mut i: usize = 0;
        while i < prefix
            invariant
                i <= prefix,
                storage@ == zeros(i as nat),
            decreases prefix - i,
        {
            storage.push(0u8);
            i = i + 1;
            assert(storage@ =~= zeros(i as nat));
        }
        let mut j: usize = 0;
        while j < payload.len()
            invariant
                j <= payload@.len(),
                storage@ == zeros(prefix as nat) + payload@.subrange(0, j as int),
            decreases payload@.len() - j,
        {
            storage.push(payload[j]);
            j = j + 1;
            assert(storage@ =~= zeros(prefix as nat) + payload@.subrange(0, j as int));
        }
        let mut k: usize = 0;
        while k < suffix
            invariant
                k <= suffix,
                storage@ == zeros(prefix as nat) + payload@ + zeros(k as nat),
            decreases suffix - k,
        {
            storage.push(0u8);
            k = k + 1;
            assert(storage@ =~= zeros(prefix as nat) + payload@ + zeros(k as nat));
        }
        proof {
            assert(payload@.subrange(0, payload@.len() as int) =~= payload@);
            assert(zeros(prefix as nat) + payload@ =~= zeros(prefix as nat) + payload@ + zeros(0));
        }
        let r = Data { storage, start: prefix, end: prefix + payload.len() };
        proof {
            assert(r@ =~= payload@);
        }
        r
    }

    /// Payload length.
    pub fn len(&self) -> (r: usize)
        ensures
            r == self@.len(),
            self.allocation().len() == self.prefix_len() + r + self.suffix_len(),
    {
        proof {
            use_type_invariant(self);
        }
        self.end - self.start
    }

    /// Whether the payload is empty.
    pub fn is_empty(&self) -> (r: bool)
        ensures
            r == (self@.len() == 0),
    {
        self.len() == 0
    }

    /// Bytes reserved before the payload.
    pub fn available_prefix_bytes(&self) -> (r: usize)
        ensures
            r == self.prefix_len(),
            self.allocation().len() == r + self@.len() + self.suffix_len(),
    {
        proof {
            use_type_invariant(self);
        }
        self.start
    }

    /// Bytes reserved after the payload.
    pub fn available_suffix_bytes(&self) -> (r: usize)
        ensures
            r == self.suffix_len(),
            self.allocation().len() == self.prefix_len() + self@.len() + r,
    {
        proof {
            use_type_invariant(self);
        }
        self.storage.len() - self.end
    }

    /// The payload as a slice.
    pub fn as_slice(&self) -> (r: &[u8])
        ensures
            r@ == self@,
    {
        proof {
            use_type_invariant(self);
        }
        vstd::slice::slice_subrange(self.storage.as_slice(), self.start, self.end)
    }

    /// Byte `i` of the payload.
    pub fn get(&self, i: usize) -> (r: u8)
        requires
            i < self@.len(),
        ensures
            r == self@[i as int],
    {
        proof {
            use_type_invariant(self);
        }
        self.storage[self.start + i]
    }

    /// Overwrites byte `i` of the payload.
    pub fn set(&mut self, i: usize, value: u8)
        requires
            i < old(self)@.len(),
        ensures
            final(self)@ == old(self)@.update(i as int, value),
            final(self).prefix_len() == old(self).prefix_len(),
            final(self).suffix_len() == old(self).suffix_len(),
            final(self).allocation().len() == old(self).allocation().len(),
    {
        proof {
            use_type_invariant(&*self);
        }
        let pos = self.start + i;
        self.storage[pos] = value;
        proof {
            assert(self@ =~= old(self)@.update(i as int, value));
        }
    }

    /// Overwrites the payload bytes from `offset` on with `src`.
    pub fn write_at(&mut self, offset: usize, src: &[u8])
        requires
            offset + src@.len() <= old(self)@.len(),
        ensures
            final(self)@ == old(self)@.subrange(0, offset as int) + src@ + old(self)@.subrange(
                offset + src@.len(),
                old(self)@.len() as int,
            ),
            final(self).prefix_len() == old(self).prefix_len(),
            final(self).suffix_len() == old(self).suffix_len(),
            final(self).allocation().len() == old(self).allocation().len(),
    {
        proof {
            use_type_invariant(&*self);
        }
        let total = self.storage.len();
        let mut i: usize = 0;
        while i < src.len()
            invariant
                i <= src@.len(),
                old(self)@.len() <= total,
                offset + src@.len() <= old(self)@.len(),
                self@.len() == old(self)@.len(),
                self@ == old(self)@.subrange(0, offset as int) + src@.subrange(0, i as int)
                    + old(self)@.subrange(offset + i, old(self)@.len() as int),
                self.prefix_len() == old(self).prefix_len(),
                self.suffix_len() == old(self).suffix_len(),
                self.allocation().len() == old(self).allocation().len(),
            decreases src@.len() - i,
        {
            self.set(offset + i, src[i]);
            i = i + 1;
            proof {
                assert(self@ =~= old(self)@.subrange(0, offset as int) + src@.subrange(0, i as int)
                    + old(self)@.subrange(offset + i, old(self)@.len() as int));
            }
        }
        proof {
            assert(src@.subrange(0, i as int) =~= src@);
        }
    }

    /// Reframes the payload to `[sub_start, sub_end)` of the current payload,
    /// without copying: the cut-off bytes join the reservations.
    pub fn shrink_to_subregion(&mut self, sub_start: usize, sub_end: usize)
        requires
            sub_start <= sub_end <= old(self)@.len(),
        ensures
            final(self)@ == old(self)@.subrange(sub_start as int, sub_end as int),
            final(self).allocation() == old(self).allocation(),
            final(self).prefix_len() == old(self).prefix_len() + sub_start,
            final(self).suffix_len() == old(self).suffix_len() + (old(self)@.len() - sub_end),
    {
        proof {
            use_type_invariant(&*self);
        }
        let new_end = self.start + sub_end;
        self.start = self.start + sub_start;
        self.end = new_end;
        proof {
            assert(self@ =~= old(self)@.subrange(sub_start as int, sub_end as int));
        }
    }

    /// Widens the payload by `prefix` bytes to the front and `suffix` bytes to
    /// the back, taking them from the reservations without copying.
    pub fn grow_region(&mut self, prefix: usize, suffix: usize)
        requires
            prefix <= old(self).prefix_len(),
            suffix <= old(self).suffix_len(),
        ensures
            final(self)@ == old(self).allocation().subrange(
                (old(self).prefix_len() - prefix) as int,
                (old(self).prefix_len() + old(self)@.len() + suffix) as int,
            ),
            final(self).allocation() == old(self).allocation(),
            final(self).prefix_len() == old(self).prefix_len() - prefix,
            final(self).suffix_len() == old(self).suffix_len() - suffix,
            final(self)@.len() == old(self)@.len() + prefix + suffix,
    {
        proof {
            use_type_invariant(&*self);
        }
        let total = self.storage.len();
        proof {
            assert(self.end + suffix <= total);
        }
        self.start = self.start - prefix;
        self.end = self.end + suffix;
    }

    /// Resizes the payload to `new_len` bytes, keeping its first bytes and
    /// filling any new ones with zeros. Growth consumes the suffix reservation
    /// when it suffices and reallocates otherwise, keeping the prefix
    /// reservation.
    pub fn resize(&mut self, new_len: usize)
        requires
            old(self).prefix_len() + new_len + old(self).suffix_len() <= usize::MAX,
        ensures
            final(self)@ == if new_len <= old(self)@.len() {
                old(self)@.subrange(0, new_len as int)
            } else {
                old(self)@ + zeros((new_len - old(self)@.len()) as nat)
            },
            final(self).prefix_len() == old(self).prefix_len(),
            new_len <= old(self)@.len() ==> final(self).suffix_len() == old(self).suffix_len() + (
            old(self)@.len() - new_len),
            old(self)@.len() < new_len <= old(self)@.len() + old(self).suffix_len() ==> final(self).suffix_len() == old(self).suffix_len() - (new_len - old(self)@.len()),
            old(self)@.len() < new_len <= old(self)@.len() + old(self).suffix_len() ==> final(self).allocation().len() == old(self).allocation().len(),
            old(self)@.len() + old(self).suffix_len() < new_len ==> final(self).suffix_len() == old(self).suffix_len(),
    {
        proof {
            use_type_invariant(&*self);
        }
        let len = self.end - self.start;
        if new_len <= len {
            self.end = self.start + new_len;
            proof {
                assert(self@ =~= old(self)@.subrange(0, new_len as int));
            }
        } else if new_len - len <= self.storage.len() - self.end {
            let old_end = self.end;
            self.end = self.start + new_len;
            let mut i: usize = old_end;
            while i < self.end
                invariant
                    self.start <= old_end <= i <= self.end <= self.storage@.len(),
                    self.start == old(self).start,
                    self.end == self.start + new_len,
                    self.storage@.len() == old(self).storage@.len(),
                    self.storage@.subrange(self.start as int, i as int) == old(self)@ + zeros(
                        (i - old_end) as nat,
                    ),
                decreases self.end - i,
            {
                let ghost before = self.storage@;
                self.storage[i] = 0u8;
                proof {
                    assert(self.storage@.subrange(self.start as int, i as int)
                        =~= before.subrange(self.start as int, i as int));
                    assert(self.storage@.subrange(self.start as int, i + 1)
                        =~= old(self)@ + zeros((i + 1 - old_end) as nat));
                }
                i = i + 1;
            }
        } else {
            let suffix = self.storage.len() - self.end;
            let mut fresh = Data::zeroed(self.start, new_len, suffix);
            fresh.write_at(0, vstd::slice::slice_subrange(self.storage.as_slice(), self.start, self.end));
            proof {
                assert(fresh@ =~= old(self)@ + zeros((new_len - old(self)@.len()) as nat));
            }
            *self = fresh;
        }
    }

    /// The payload as a vector of its own.
    pub fn to_vec(&self) -> (r: Vec<u8>)
        ensures
            r@ == self@,
    {
        vstd::slice::slice_to_vec(self.as_slice())
    }
}

} // verus!
