//! A fixed-length, byte-packed bit vector.

use vstd::prelude::*;

verus! {

/// Number of bytes needed to hold `bits` bits.
pub open spec fn bytes_for_bits(bits: nat) -> nat {
    if bits % 8 == 0 {
        bits / 8
    } else {
        bits / 8 + 1
    }
}

/// Whether bit `idx` is set in a little-end-first packed byte sequence.
pub open spec fn bit_is_set(bytes: Seq<u8>, idx: int) -> bool {
    bytes[idx / 8] & (1u8 << ((idx % 8) as u8)) != 0
}

/// The byte sequence `bytes` with bit `idx` switched on.
pub open spec fn with_bit_set(bytes: Seq<u8>, idx: int) -> Seq<u8> {
    bytes.update(idx / 8, bytes[idx / 8] | (1u8 << ((idx % 8) as u8)))
}

/// The all-zero byte sequence of length `len`.
pub open spec fn zero_bytes(len: nat) -> Seq<u8> {
    Seq::new(len, |i: int| 0u8)
}

proof fn lemma_or_mask(b: u8, i: u8, j: u8)
    requires
        i < 8,
        j < 8,
    ensures
        ((b | (1u8 << i)) & (1u8 << j) != 0) == (i == j || b & (1u8 << j) != 0),
{
    assert(((b | (1u8 << i)) & (1u8 << j) != 0) == (i == j || b & (1u8 << j) != 0)) by (bit_vector)
        requires
            i < 8,
            j < 8,
    ;
}

/// Setting bit `i` turns that bit on and leaves every other bit as it was.
pub proof fn lemma_set_then_get(bytes: Seq<u8>, i: int, j: int)
    requires
        0 <= i < 8 * bytes.len(),
        0 <= j < 8 * bytes.len(),
    ensures
        bit_is_set(with_bit_set(bytes, i), j) == (i == j || bit_is_set(bytes, j)),
        with_bit_set(bytes, i).len() == bytes.len(),
{
    if i / 8 == j / 8 {
        lemma_or_mask(bytes[i / 8], (i % 8) as u8, (j % 8) as u8);
    }
}

/// No bit is set in an all-zero byte sequence.
pub proof fn lemma_zero_bytes_clear(len: nat, j: int)
    requires
        0 <= j < 8 * len,
    ensures
        !bit_is_set(zero_bytes(len), j),
{
    let k = (j % 8) as u8;
    assert(0u8 & (1u8 << k) == 0) by (bit_vector);
}

/// A bit vector of a fixed number of bits, packed into bytes: bit `i` is bit
/// `i % 8` of byte `i / 8`.
#[derive(Debug)]
pub struct Bitmap {
    bmp: Vec<u8>,
    size: usize,
}

impl Bitmap {
    /// The invariant of the representation: the byte storage is exactly as
    /// long as the bit count demands.
    #[verifier::type_invariant]
    pub closed spec fn wf(&self) -> bool {
        self.bmp@.len() == bytes_for_bits(self.size as nat)
    }

    /// The number of addressable bits.
    pub closed spec fn bit_len(&self) -> nat {
        self.size as nat
    }

    /// The packed bytes.
    pub closed spec fn bytes(&self) -> Seq<u8> {
        self.bmp@
    }

    /// The value of bit `idx`.
    pub open spec fn bit(&self, idx: int) -> bool {
        bit_is_set(self.bytes(), idx)
    }

    /// A bit vector of `size` bits, all clear.
    pub fn new(size: usize) -> (result: Self)
        ensures
            result.wf(),
            result.bit_len() == size,
            result.bytes() == zero_bytes(bytes_for_bits(size as nat)),
    {
        let n = Self::bmp_size_in_bytes(size);
        let mut bmp: Vec<u8> = Vec::new();
        let mut i: usize = 0;
        while i < n
            invariant
                i <= n,
                bmp@ == zero_bytes(i as nat),
            decreases n - i,
        {
            bmp.push(0u8);
            i += 1;
        }
        Self { bmp, size }
    }

    /// The bit vector of `size` bits that the bytes `bmp` hold. There must be
    /// exactly as many bytes as `size` bits need.
    pub fn new_with_vec(size: usize, bmp: Vec<u8>) -> (result: Self)
        requires
            bmp@.len() == bytes_for_bits(size as nat),
        ensures
            result.wf(),
            result.bit_len() == size,
            result.bytes() == bmp@,
    {
        Self { bmp, size }
    }

    /// The number of bytes that `size` bits need.
    pub fn bmp_size_in_bytes(size: usize) -> (result: usize)
        ensures
            result == bytes_for_bits(size as nat),
    {
        let quot = size / 8;
        let rem = size % 8;
        // If there's any remainder, round up
        if rem != 0 {
            quot + 1
        } else {
            quot
        }
    }

    /// Sets bit `idx`, which must be one of the bits of the vector.
    pub fn set(&mut self, idx: usize)
        requires
            idx < old(self).bit_len(),
        ensures
            final(self).wf(),
            final(self).bit_len() == old(self).bit_len(),
            final(self).bytes() == with_bit_set(old(self).bytes(), idx as int),
    {
        proof {
            use_type_invariant(&*self);
        }
        let byte_idx = idx / 8;
        let bit_idx: u8 = (idx % 8) as u8;
        let mask: u8 = 1u8 << bit_idx;
        let byte = self.bmp[byte_idx];
        self.bmp[byte_idx] = byte | mask;
    }

    /// Whether bit `idx` is set. It must be one of the bits of the vector.
    pub fn get(&self, idx: usize) -> (result: bool)
        requires
            idx < self.bit_len(),
        ensures
            result == self.bit(idx as int),
    {
        proof {
            use_type_invariant(self);
        }
        let byte_idx = idx / 8;
        let bit_idx: u8 = (idx % 8) as u8;
        let mask: u8 = 1u8 << bit_idx;
        self.bmp[byte_idx] & mask != 0
    }

    /// Gives the vector up for its packed bytes.
    pub fn into_bytes(self) -> (result: Vec<u8>)
        ensures
            result@ == self.bytes(),
            result@.len() == bytes_for_bits(self.bit_len()),
    {
        proof {
            use_type_invariant(&self);
        }
        self.bmp
    }
}

} // verus!
