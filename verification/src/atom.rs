//! Arbitrary-precision unsigned integers.
//!
//! An atom is an arbitrarily large unsigned integer represented as a
//! little-endian sequence of bytes together with an explicit length in
//! bits.  An atom's abstract value is its bit sequence
//! (least-significant-bit first); all contracts in this crate speak of
//! that view.

use crate::bits::{
    bits_of, bits_of_nat, bits_value, byte_bit, byte_len_bits, bytes_value, canon_bits, canonical,
    min_bits, seq_bit, stripped,
};
use vstd::prelude::*;
use vstd::string::StringSliceAdditionalSpecFns;

verus! {

/// An arbitrarily large unsigned integer represented as a [`Vec<u8>`]
/// together with its length in bits.
///
/// The fields are exposed so that specifications can speak of the
/// representation directly; well-formed atoms satisfy [`Atom::wf`], which
/// every constructor establishes and every operation preserves.
#[derive(Debug)]
pub struct Atom {
    /// The little-endian byte buffer holding the bits.
    pub bytes: Vec<u8>,
    /// The number of bits of this atom.
    pub bit_len: usize,
}

impl View for Atom {
    type V = Seq<bool>;

    open spec fn view(&self) -> Seq<bool> {
        bits_of(self.bytes@, self.bit_len as nat)
    }
}

impl Atom {
    /// The representation invariant: the byte buffer is exactly long
    /// enough to hold `bit_len` bits, and every bit of it at or above
    /// `bit_len` is clear.  Under this invariant the bytes and the bit
    /// length are determined by the bit-sequence view.
    pub open spec fn wf(&self) -> bool {
        &&& self.bytes@.len() == (self.bit_len + 7) / 8
        &&& forall|i: int|
            self.bit_len <= i < 8 * self.bytes@.len() ==> !seq_bit(self.bytes@, i)
    }

    /// The canonical byte sequence of this atom.
    pub open spec fn bytes_view(&self) -> Seq<u8> {
        self.bytes@
    }

    /// Creates the atom `0`.
    pub fn null() -> (r: Atom)
        ensures
            r.wf(),
            r@ == Seq::<bool>::empty(),
    {
        let r = Atom { bytes: Vec::new(), bit_len: 0 };
        proof {
            assert(r@ =~= Seq::<bool>::empty());
        }
        r
    }

    /// Returns `true` iff this atom is null (i.e. the atom `0`).
    pub fn is_null(&self) -> (r: bool)
        ensures
            r == (self@.len() == 0),
    {
        self.bit_len == 0
    }

    /// Returns the length in bits of this atom.
    pub fn bit_len(&self) -> (r: usize)
        ensures
            r == self@.len(),
    {
        self.bit_len
    }

    /// Converts this atom into a byte slice.
    pub fn as_bytes(&self) -> (r: &[u8])
        ensures
            r@ == self.bytes_view(),
    {
        self.bytes.as_slice()
    }

    /// Copies this atom into a byte vector.
    pub fn to_vec(&self) -> (r: Vec<u8>)
        ensures
            r@ == self.bytes_view(),
    {
        vstd::slice::slice_to_vec(self.bytes.as_slice())
    }

    /// Converts this atom into a byte vector, consuming the atom.
    pub fn into_vec(self) -> (r: Vec<u8>)
        ensures
            r@ == self.bytes_view(),
    {
        self.bytes
    }

    /// Creates an atom from a little-endian byte vector, stripping all
    /// trailing zero bytes so that the result is canonical.
    pub fn from_bytes(bytes: Vec<u8>) -> (r: Atom)
        requires
            bytes@.len() < usize::MAX / 8,
        ensures
            r.wf(),
            r.bytes_view() == stripped(bytes@),
            r@ == canon_bits(bytes@),
            canonical(r@),
            bits_value(r@) == bytes_value(bytes@),
    {
        let ghost orig = bytes@;
        let mut v = bytes;
        while v.len() > 0 && v[v.len() - 1] == 0
            invariant
                stripped(v@) =~= stripped(orig),
                v@.len() <= orig.len(),
            decreases v@.len(),
        {
            let _popped = v.pop();
        }
        proof {
            assert(v@ =~= stripped(v@));
            crate::bits::lemma_bytes_value_stripped(orig);
        }
        Self::from_stripped(v)
    }

    /// Creates an atom from a byte vector that already has no trailing
    /// zero byte.
    fn from_stripped(bytes: Vec<u8>) -> (r: Atom)
        requires
            bytes@.len() < usize::MAX / 8,
            bytes@.len() > 0 ==> bytes@.last() != 0,
        ensures
            r.wf(),
            r.bytes_view() == bytes@,
            r@ == bits_of(bytes@, byte_len_bits(bytes@)),
            canonical(r@),
            bits_value(r@) == bytes_value(bytes@),
    {
        let bl = bit_len(bytes.as_slice());
        let r = Atom { bytes, bit_len: bl };
        proof {
            let bs = r.bytes@;
            let len = bs.len() as int;
            if len == 0 {
                assert(r@ =~= Seq::<bool>::empty());
            } else {
                let last = bs.last();
                let mb = min_bits(last as nat) as int;
                assert(1 <= mb <= 8) by {
                    crate::bits::lemma_min_bits_le_u8(last);
                }
                assert(bl == 8 * (len - 1) + mb);
                // The byte buffer is exactly long enough.
                assert((bl + 7) / 8 == len) by {
                    vstd::arithmetic::div_mod::lemma_fundamental_div_mod_converse(
                        bl + 7,
                        8,
                        len,
                        mb - 1,
                    );
                }
                // Bits at or above the bit length are clear.
                assert forall|i: int| bl <= i < 8 * len implies !seq_bit(bs, i) by {
                    assert(i / 8 == len - 1 && i % 8 == i - 8 * (len - 1)) by {
                        vstd::arithmetic::div_mod::lemma_fundamental_div_mod_converse(
                            i,
                            8,
                            len - 1,
                            i - 8 * (len - 1),
                        );
                    }
                    crate::bits::lemma_byte_bit_above_min_bits(last, i % 8);
                }
                // The last bit of the view is the top bit of the last byte.
                assert((bl - 1) / 8 == len - 1 && (bl - 1) % 8 == mb - 1) by {
                    vstd::arithmetic::div_mod::lemma_fundamental_div_mod_converse(
                        bl - 1,
                        8,
                        len - 1,
                        mb - 1,
                    );
                }
                assert(canonical(r@)) by {
                    crate::bits::lemma_byte_bit_top(last);
                }
            }
            // The view denotes the same value as the bytes.
            assert(bits_value(r@) == bytes_value(bs)) by {
                crate::bits::lemma_bits_of_bytes_value(bs);
                let full = bits_of(bs, (8 * bs.len()) as nat);
                assert(full.take(bl as int) =~= bits_of(bs, bl as nat));
                crate::bits::lemma_bits_value_trailing_false(full, bl as nat);
            }
        }
        r
    }

    /// Creates an atom from a 128-bit unsigned integer.
    pub fn from_u128(v: u128) -> (r: Atom)
        ensures
            r.wf(),
            canonical(r@),
            bits_value(r@) == v as nat,
            r@ == bits_of_nat(v as nat),
    {
        let mut bytes: Vec<u8> = Vec::new();
        let mut x: u128 = v;
        proof {
            assert(vstd::arithmetic::power2::pow2(0) == 1) by {
                vstd::arithmetic::power2::lemma2_to64();
            }
            assert(v as nat / 1 == v as nat) by {
                vstd::arithmetic::div_mod::lemma_div_basics(v as int);
            }
            assert(bytes_value(bytes@) == 0);
            assert((x as nat) * vstd::arithmetic::power2::pow2((8 * bytes@.len()) as nat) == x)
                by {
                assert((8 * bytes@.len()) as nat == 0);
                vstd::arithmetic::mul::lemma_mul_basics(x as int);
            }
        }
        while x != 0
            invariant
                bytes_value(bytes@) + (x as nat) * vstd::arithmetic::power2::pow2(
                    (8 * bytes@.len()) as nat,
                ) == v as nat,
                x as nat == v as nat / vstd::arithmetic::power2::pow2((8 * bytes@.len()) as nat),
                x == 0 ==> (bytes@.len() == 0 || bytes@.last() != 0),
                bytes@.len() <= 16,
            decreases x,
        {
            let b = (x % 256) as u8;
            let x2 = x / 256;
            proof {
                let len = bytes@.len() as nat;
                let p = vstd::arithmetic::power2::pow2((8 * len) as nat);
                let p2 = vstd::arithmetic::power2::pow2((8 * (len + 1)) as nat);
                assert(p2 == p * 256) by {
                    vstd::arithmetic::power2::lemma_pow2_adds((8 * len) as nat, 8);
                    vstd::arithmetic::power2::lemma2_to64();
                }
                assert(x == 256 * (x2 as int) + b);
                crate::bits::lemma_bytes_value_push(bytes@, b);
                assert((x as int) * p == (b as int) * p + (x2 as int) * (p as int * 256)) by {
                    assert((256 * (x2 as int) + b) * p == 256 * (x2 as int) * p + (b as int) * p)
                        by {
                        vstd::arithmetic::mul::lemma_mul_is_distributive_add_other_way(
                            p as int,
                            256 * (x2 as int),
                            b as int,
                        );
                    }
                    assert(256 * (x2 as int) * p == (x2 as int) * (p as int * 256)) by {
                        vstd::arithmetic::mul::lemma_mul_is_associative(256, x2 as int, p as int);
                        vstd::arithmetic::mul::lemma_mul_is_associative(x2 as int, p as int, 256);
                        vstd::arithmetic::mul::lemma_mul_is_commutative(256, (x2 as int) * p);
                        vstd::arithmetic::mul::lemma_mul_is_commutative(p as int, 256);
                    }
                }
                assert(x2 as nat == v as nat / p2) by {
                    vstd::arithmetic::power2::lemma_pow2_pos((8 * len) as nat);
                    vstd::arithmetic::div_mod::lemma_div_denominator(v as int, p as int, 256);
                    vstd::arithmetic::mul::lemma_mul_is_commutative(p as int, 256);
                }
                if bytes@.len() + 1 > 16 {
                    assert(bytes@.len() == 16);
                    assert((v as nat) < p) by {
                        vstd::arithmetic::power2::lemma2_to64();
                        vstd::arithmetic::power2::lemma_pow2_adds(64, 64);
                        assert(p == 0x10000000000000000 * 0x10000000000000000);
                    }
                    assert(x as nat == 0) by {
                        vstd::arithmetic::div_mod::lemma_basic_div(v as int, p as int);
                    }
                }
            }
            bytes.push(b);
            x = x2;
        }
        let r = Self::from_stripped(bytes);
        proof {
            crate::bits::lemma_canonical_bits_of_nat(r@);
        }
        r
    }

    /// Creates an atom from an 8-bit unsigned integer.
    pub fn from_u8(v: u8) -> (r: Atom)
        ensures
            r.wf(),
            canonical(r@),
            bits_value(r@) == v as nat,
            r@ == bits_of_nat(v as nat),
    {
        Self::from_u128(v as u128)
    }

    /// Creates an atom from a 16-bit unsigned integer.
    pub fn from_u16(v: u16) -> (r: Atom)
        ensures
            r.wf(),
            canonical(r@),
            bits_value(r@) == v as nat,
            r@ == bits_of_nat(v as nat),
    {
        Self::from_u128(v as u128)
    }

    /// Creates an atom from a 32-bit unsigned integer.
    pub fn from_u32(v: u32) -> (r: Atom)
        ensures
            r.wf(),
            canonical(r@),
            bits_value(r@) == v as nat,
            r@ == bits_of_nat(v as nat),
    {
        Self::from_u128(v as u128)
    }

    /// Creates an atom from a 64-bit unsigned integer.
    pub fn from_u64(v: u64) -> (r: Atom)
        ensures
            r.wf(),
            canonical(r@),
            bits_value(r@) == v as nat,
            r@ == bits_of_nat(v as nat),
    {
        Self::from_u128(v as u128)
    }

    /// Creates an atom from a pointer-sized unsigned integer.
    pub fn from_usize(v: usize) -> (r: Atom)
        ensures
            r.wf(),
            canonical(r@),
            bits_value(r@) == v as nat,
            r@ == bits_of_nat(v as nat),
    {
        Self::from_u128(v as u128)
    }
}

/// A bitwise [`Atom`] builder.
///
/// The builder appends bits one at a time, least significant first, and
/// tracks the number of bits pushed; the atom it finishes into has exactly
/// that bit length, whether or not the final bits are set.
#[derive(Debug)]
pub struct Builder {
    /// The little-endian byte buffer holding the bits pushed so far.
    pub bytes: Vec<u8>,
    /// The number of bits pushed so far.
    pub bit_idx: usize,
}

impl View for Builder {
    type V = Seq<bool>;

    open spec fn view(&self) -> Seq<bool> {
        bits_of(self.bytes@, self.bit_idx as nat)
    }
}

impl Builder {
    /// The representation invariant: the same as an atom's.
    pub open spec fn wf(&self) -> bool {
        &&& self.bytes@.len() == (self.bit_idx + 7) / 8
        &&& forall|i: int| self.bit_idx <= i < 8 * self.bytes@.len() ==> !seq_bit(self.bytes@, i)
    }

    /// Creates an empty atom builder.
    pub fn new() -> (r: Builder)
        ensures
            r.wf(),
            r@ == Seq::<bool>::empty(),
    {
        let r = Builder { bytes: Vec::new(), bit_idx: 0 };
        proof {
            assert(r@ =~= Seq::<bool>::empty());
        }
        r
    }

    /// Returns the current bitwise position of the end of this builder.
    pub fn pos(&self) -> (r: usize)
        ensures
            r == self@.len(),
    {
        self.bit_idx
    }

    /// Pushes a bit onto the end of this builder.
    pub fn push_bit(&mut self, bit: bool)
        requires
            old(self).wf(),
            old(self)@.len() < usize::MAX - 8,
        ensures
            final(self).wf(),
            final(self)@ == old(self)@.push(bit),
    {
        let ghost prev = *self;
        let byte_idx = self.bit_idx / 8;
        proof {
            vstd::arithmetic::div_mod::lemma_fundamental_div_mod(self.bit_idx as int, 8);
        }
        if byte_idx == self.bytes.len() {
            proof {
                assert(self.bit_idx % 8 == 0) by {
                    if self.bit_idx % 8 != 0 {
                        assert((self.bit_idx + 7) / 8 == self.bit_idx as int / 8 + 1) by {
                            vstd::arithmetic::div_mod::lemma_fundamental_div_mod_converse(
                                self.bit_idx + 7,
                                8,
                                self.bit_idx as int / 8 + 1,
                                self.bit_idx as int % 8 - 1,
                            );
                        }
                    }
                }
            }
            self.bytes.push(0);
        }
        let shift: u8 = (self.bit_idx % 8) as u8;
        let b = self.bytes[byte_idx];
        let nb = if bit {
            b | (1u8 << shift)
        } else {
            b & !(1u8 << shift)
        };
        self.bytes[byte_idx] = nb;
        self.bit_idx = self.bit_idx + 1;
        proof {
            let bi = prev.bit_idx as int;
            let bs = self.bytes@;
            // Every bit of the new buffer is the old bit, except `bi`,
            // which now holds `bit`.
            assert forall|i: int| 0 <= i < 8 * bs.len() implies seq_bit(bs, i) == (if i == bi {
                bit
            } else if i < 8 * prev.bytes@.len() {
                seq_bit(prev.bytes@, i)
            } else {
                false
            }) by {
                let j = i % 8;
                let q = i / 8;
                vstd::arithmetic::div_mod::lemma_fundamental_div_mod(i, 8);
                if q == byte_idx {
                    if bit {
                        crate::bits::lemma_byte_set_bit(b, shift, j as u8);
                    } else {
                        crate::bits::lemma_byte_clear_bit(b, shift, j as u8);
                    }
                    if byte_idx == prev.bytes@.len() {
                        assert(b == 0);
                        assert(forall|k: u8| k < 8 ==> !byte_bit(0, k as int)) by {
                            assert(forall|k: u8| k < 8 ==> (0u8 >> k) & 1 == 0) by (bit_vector);
                        }
                    }
                } else {
                    assert(bs[q] == prev.bytes@[q]);
                }
            }
            // The new buffer is exactly long enough.
            assert(bs.len() == (self.bit_idx + 7) / 8) by {
                vstd::arithmetic::div_mod::lemma_fundamental_div_mod_converse(
                    bi + 1 + 7,
                    8,
                    bs.len() as int,
                    (bi + 8 - 8 * bs.len() as int),
                );
            }
            assert(self@ =~= prev@.push(bit));
        }
    }

    /// Converts this builder into an [`Atom`], consuming the builder.
    /// The atom's bit length is the number of bits pushed.
    pub fn into_atom(self) -> (r: Atom)
        requires
            self.wf(),
        ensures
            r.wf(),
            r@ == self@,
    {
        Atom { bytes: self.bytes, bit_len: self.bit_idx }
    }
}

impl Atom {
    /// Creates an empty atom builder, equivalent to `Builder::new()`.
    pub fn builder() -> (r: Builder)
        ensures
            r.wf(),
            r@ == Seq::<bool>::empty(),
    {
        Builder::new()
    }

    /// Returns bit `idx` of this atom.
    pub fn bit(&self, idx: usize) -> (r: bool)
        requires
            self.wf(),
            idx < self@.len(),
        ensures
            r == self@[idx as int],
    {
        proof {
            vstd::arithmetic::div_mod::lemma_fundamental_div_mod(idx as int, 8);
        }
        let byte = self.bytes[idx / 8];
        let shift: u8 = (idx % 8) as u8;
        (byte >> shift) & 1 == 1
    }
}

/// An iterator over the bits of an [`Atom`].
///
/// Iteration starts with the least significant bit and ends with the most
/// significant bit; the iterator also reports its current bit position.
pub struct Iter<'a> {
    /// The atom being iterated over.
    pub atom: &'a Atom,
    /// The index of the next bit to produce.
    pub bit_idx: usize,
}

impl<'a> Iter<'a> {
    /// Returns the current bitwise position of this iterator.
    pub fn pos(&self) -> (r: usize)
        ensures
            r == self.bit_idx,
    {
        self.bit_idx
    }

    /// Produces the next bit, or `None` when every bit has been produced.
    pub fn next(&mut self) -> (r: Option<bool>)
        requires
            old(self).atom.wf(),
            old(self).bit_idx <= old(self).atom@.len(),
        ensures
            final(self).atom == old(self).atom,
            if old(self).bit_idx < old(self).atom@.len() {
                &&& r == Some(old(self).atom@[old(self).bit_idx as int])
                &&& final(self).bit_idx == old(self).bit_idx + 1
            } else {
                &&& r is None
                &&& final(self).bit_idx == old(self).bit_idx
            },
    {
        if self.bit_idx == self.atom.bit_len {
            None
        } else {
            let b = self.atom.bit(self.bit_idx);
            self.bit_idx = self.bit_idx + 1;
            Some(b)
        }
    }
}

impl Atom {
    /// Returns a bitwise iterator over this atom.
    pub fn iter(&self) -> (r: Iter<'_>)
        ensures
            r.atom == self,
            r.bit_idx == 0,
    {
        Iter { atom: self, bit_idx: 0 }
    }

    /// Converts this atom into a 64-bit unsigned integer, returning `None`
    /// iff the atom is more than eight bytes long.
    pub fn as_u64(&self) -> (r: Option<u64>)
        requires
            self.wf(),
        ensures
            match r {
                Some(u) => self.bytes_view().len() <= 8 && u as nat == bits_value(self@),
                None => self.bytes_view().len() > 8,
            },
    {
        if self.bytes.len() > 8 {
            return None;
        }
        proof {
            lemma_atom_value(self);
        }
        let mut acc: u64 = 0;
        let mut i = self.bytes.len();
        proof {
            assert(self.bytes@.skip(i as int) =~= Seq::<u8>::empty());
        }
        while i > 0
            invariant
                i <= self.bytes@.len() <= 8,
                acc as nat == bytes_value(self.bytes@.skip(i as int)),
            decreases i,
    {
            proof {
                crate::bits::lemma_bytes_value_bound(self.bytes@.skip(i as int));
                vstd::arithmetic::power2::lemma2_to64();
                vstd::arithmetic::power2::lemma2_to64_rest();
                assert(vstd::arithmetic::power2::pow2((8 * (self.bytes@.len() - i)) as nat)
                    <= vstd::arithmetic::power2::pow2(56)) by {
                    if 8 * (self.bytes@.len() - i) < 56 {
                        vstd::arithmetic::power2::lemma_pow2_strictly_increases(
                            (8 * (self.bytes@.len() - i)) as nat,
                            56,
                        );
                    }
                }
            }
            i = i - 1;
            let b = self.bytes[i];
            acc = acc * 256 + (b as u64);
            proof {
                let s = self.bytes@.skip(i as int);
                assert(s[0] == self.bytes@[i as int]);
                assert(s.skip(1) =~= self.bytes@.skip(i as int + 1));
            }
        }
        proof {
            assert(self.bytes@.skip(0) =~= self.bytes@);
        }
        Some(acc)
    }

    /// Converts this atom into a 128-bit unsigned integer, returning
    /// `None` iff the atom is more than sixteen bytes long.
    pub fn as_u128(&self) -> (r: Option<u128>)
        requires
            self.wf(),
        ensures
            match r {
                Some(u) => self.bytes_view().len() <= 16 && u as nat == bits_value(self@),
                None => self.bytes_view().len() > 16,
            },
    {
        if self.bytes.len() > 16 {
            return None;
        }
        proof {
            lemma_atom_value(self);
        }
        let mut acc: u128 = 0;
        let mut i = self.bytes.len();
        proof {
            assert(self.bytes@.skip(i as int) =~= Seq::<u8>::empty());
        }
        while i > 0
            invariant
                i <= self.bytes@.len() <= 16,
                acc as nat == bytes_value(self.bytes@.skip(i as int)),
            decreases i,
    {
            proof {
                crate::bits::lemma_bytes_value_bound(self.bytes@.skip(i as int));
                vstd::arithmetic::power2::lemma2_to64();
                vstd::arithmetic::power2::lemma2_to64_rest();
                assert(vstd::arithmetic::power2::pow2(120) == 0x1000000000000000000000000000000) by {
                    vstd::arithmetic::power2::lemma_pow2_adds(56, 64);
                }
                assert(vstd::arithmetic::power2::pow2(128) == 0x100000000000000000000000000000000)
                    by {
                    vstd::arithmetic::power2::lemma_pow2_adds(64, 64);
                }
                assert(vstd::arithmetic::power2::pow2((8 * (self.bytes@.len() - i)) as nat)
                    <= vstd::arithmetic::power2::pow2(120)) by {
                    if 8 * (self.bytes@.len() - i) < 120 {
                        vstd::arithmetic::power2::lemma_pow2_strictly_increases(
                            (8 * (self.bytes@.len() - i)) as nat,
                            120,
                        );
                    }
                }
            }
            i = i - 1;
            let b = self.bytes[i];
            acc = acc * 256 + (b as u128);
            proof {
                let s = self.bytes@.skip(i as int);
                assert(s[0] == self.bytes@[i as int]);
                assert(s.skip(1) =~= self.bytes@.skip(i as int + 1));
            }
        }
        proof {
            assert(self.bytes@.skip(0) =~= self.bytes@);
        }
        Some(acc)
    }

    /// Converts this atom into an 8-bit unsigned integer, returning `None`
    /// iff the atom is more than one byte long.
    pub fn as_u8(&self) -> (r: Option<u8>)
        requires
            self.wf(),
        ensures
            match r {
                Some(u) => self.bytes_view().len() <= 1 && u as nat == bits_value(self@),
                None => self.bytes_view().len() > 1,
            },
    {
        if self.bytes.len() > 1 {
            return None;
        }
        proof {
            lemma_atom_value(self);
            crate::bits::lemma_bytes_value_bound(self.bytes@);
            vstd::arithmetic::power2::lemma2_to64();
            if self.bytes@.len() == 1 {
                assert(self.bytes@.skip(1) =~= Seq::<u8>::empty());
            }
        }
        if self.bytes.len() == 0 {
            Some(0)
        } else {
            Some(self.bytes[0])
        }
    }

    /// Converts this atom into a 16-bit unsigned integer, returning `None`
    /// iff the atom is more than two bytes long.
    pub fn as_u16(&self) -> (r: Option<u16>)
        requires
            self.wf(),
        ensures
            match r {
                Some(u) => self.bytes_view().len() <= 2 && u as nat == bits_value(self@),
                None => self.bytes_view().len() > 2,
            },
    {
        if self.bytes.len() > 2 {
            return None;
        }
        proof {
            lemma_atom_value(self);
            crate::bits::lemma_bytes_value_bound(self.bytes@);
            vstd::arithmetic::power2::lemma2_to64();
            assert(vstd::arithmetic::power2::pow2((8 * self.bytes@.len()) as nat)
                <= vstd::arithmetic::power2::pow2(16)) by {
                if 8 * self.bytes@.len() < 16 {
                    vstd::arithmetic::power2::lemma_pow2_strictly_increases(
                        (8 * self.bytes@.len()) as nat,
                        16,
                    );
                }
            }
        }
        match self.as_u64() {
            Some(v) => Some(v as u16),
            None => None,
        }
    }

    /// Converts this atom into a 32-bit unsigned integer, returning `None`
    /// iff the atom is more than four bytes long.
    pub fn as_u32(&self) -> (r: Option<u32>)
        requires
            self.wf(),
        ensures
            match r {
                Some(u) => self.bytes_view().len() <= 4 && u as nat == bits_value(self@),
                None => self.bytes_view().len() > 4,
            },
    {
        if self.bytes.len() > 4 {
            return None;
        }
        proof {
            lemma_atom_value(self);
            crate::bits::lemma_bytes_value_bound(self.bytes@);
            vstd::arithmetic::power2::lemma2_to64();
            assert(vstd::arithmetic::power2::pow2((8 * self.bytes@.len()) as nat)
                <= vstd::arithmetic::power2::pow2(32)) by {
                if 8 * self.bytes@.len() < 32 {
                    vstd::arithmetic::power2::lemma_pow2_strictly_increases(
                        (8 * self.bytes@.len()) as nat,
                        32,
                    );
                }
            }
        }
        match self.as_u64() {
            Some(v) => Some(v as u32),
            None => None,
        }
    }

    /// Converts this atom into a pointer-sized unsigned integer, returning
    /// `None` iff the atom is longer than that integer's width in bytes.
    pub fn as_usize(&self) -> (r: Option<usize>)
        requires
            self.wf(),
        ensures
            match r {
                Some(u) => 8 * self.bytes_view().len() <= usize::BITS && u as nat == bits_value(
                    self@,
                ),
                None => 8 * self.bytes_view().len() > usize::BITS,
            },
    {
        let sz = core::mem::size_of::<usize>();
        proof {
            broadcast use vstd::layout::layout_of_primitives;
        }
        if self.bytes.len() > sz {
            return None;
        }
        proof {
            lemma_atom_value(self);
            crate::bits::lemma_bytes_value_bound(self.bytes@);
            vstd::arithmetic::power2::lemma2_to64();
            assert(vstd::arithmetic::power2::pow2((8 * self.bytes@.len()) as nat)
                <= vstd::arithmetic::power2::pow2(usize::BITS as nat)) by {
                if 8 * self.bytes@.len() < usize::BITS {
                    vstd::arithmetic::power2::lemma_pow2_strictly_increases(
                        (8 * self.bytes@.len()) as nat,
                        usize::BITS as nat,
                    );
                }
            }
        }
        match self.as_u64() {
            Some(v) => Some(v as usize),
            None => None,
        }
    }
}

/// The standard-library UTF-8 decoding error, declared so that it can
/// appear in this crate's signatures.
#[verifier::external_type_specification]
#[verifier::external_body]
pub struct ExUtf8Error(core::str::Utf8Error);

/// Relies on core::str::from_utf8: it succeeds exactly on valid UTF-8
/// and returns a string slice over the same bytes.
pub assume_specification[ core::str::from_utf8 ](v: &[u8]) -> (r: Result<
    &str,
    core::str::Utf8Error,
>)
    ensures
        match r {
            Ok(s) => vstd::utf8::valid_utf8(v@) && s.spec_bytes() == v@,
            Err(_) => !vstd::utf8::valid_utf8(v@),
        },
;

impl Atom {
    /// Creates an atom from the UTF-8 bytes of a string slice, stripping
    /// any trailing NUL bytes.
    pub fn from_text(text: &str) -> (r: Atom)
        requires
            text.spec_bytes().len() < usize::MAX / 8,
        ensures
            r.wf(),
            canonical(r@),
            r.bytes_view() == stripped(text.spec_bytes()),
            r@ == canon_bits(text.spec_bytes()),
            bits_value(r@) == bytes_value(text.spec_bytes()),
    {
        let bytes = vstd::slice::slice_to_vec(text.as_bytes());
        Self::from_bytes(bytes)
    }

    /// Converts this atom into a string slice, or reports the error when
    /// its bytes are not valid UTF-8.
    pub fn as_str(&self) -> (r: Result<&str, core::str::Utf8Error>)
        ensures
            match r {
                Ok(s) => vstd::utf8::valid_utf8(self.bytes_view()) && s.spec_bytes()
                    == self.bytes_view(),
                Err(_) => !vstd::utf8::valid_utf8(self.bytes_view()),
            },
    {
        core::str::from_utf8(self.bytes.as_slice())
    }
}

/// One step of the 64-bit FNV-1a hash: fold one byte into the state.
pub open spec fn fnv1a_step(h: u64, b: u8) -> u64 {
    (((h ^ (b as u64)) * 0x100000001b3) % 0x10000000000000000) as u64
}

/// The 64-bit FNV-1a hash of a byte sequence, from the given state.
pub open spec fn fnv1a(s: Seq<u8>, h: u64) -> u64
    decreases s.len(),
{
    if s.len() == 0 {
        h
    } else {
        fnv1a(s.skip(1), fnv1a_step(h, s[0]))
    }
}

/// The content hash of a byte sequence: 64-bit FNV-1a from its standard
/// offset basis.
pub open spec fn hash_bytes_spec(s: Seq<u8>) -> u64 {
    fnv1a(s, 0xcbf29ce484222325)
}

/// Computes the content hash of a byte slice.
pub fn hash_bytes(bytes: &[u8]) -> (r: u64)
    ensures
        r == hash_bytes_spec(bytes@),
{
    let mut h: u64 = 0xcbf29ce484222325;
    let mut i: usize = 0;
    let n = bytes.len();
    proof {
        assert(bytes@.skip(0) =~= bytes@);
    }
    while i < n
        invariant
            i <= n,
            n == bytes@.len(),
            hash_bytes_spec(bytes@) == fnv1a(bytes@.skip(i as int), h),
        decreases n - i,
    {
        let b = bytes[i];
        h = (h ^ (b as u64)).wrapping_mul(0x100000001b3);
        i = i + 1;
        proof {
            assert(bytes@.skip(i as int - 1)[0] == bytes@[i as int - 1]);
            assert(bytes@.skip(i as int - 1).skip(1) =~= bytes@.skip(i as int));
        }
    }
    proof {
        assert(bytes@.skip(n as int) =~= Seq::<u8>::empty());
    }
    h
}

impl Atom {
    /// Computes the content hash of this atom: the hash of its bytes.
    pub fn hash(&self) -> (r: u64)
        ensures
            r == hash_bytes_spec(self.bytes_view()),
    {
        hash_bytes(self.bytes.as_slice())
    }
}

impl Clone for Atom {
    /// Copies this atom: the clone has the same bytes and bit length.
    fn clone(&self) -> (r: Self)
        ensures
            r@ == self@,
            r.bytes_view() == self.bytes_view(),
            r.bit_len == self.bit_len,
            r.wf() == self.wf(),
    {
        Atom { bytes: vstd::slice::slice_to_vec(self.bytes.as_slice()), bit_len: self.bit_len }
    }
}

impl PartialEq for Atom {
    /// Structural equality: equal bit lengths and equal byte buffers.
    /// For well-formed atoms this is exactly equality of the bit views.
    fn eq(&self, other: &Self) -> (r: bool) {
        let r = self.bit_len == other.bit_len && eq_bytes(
            self.bytes.as_slice(),
            other.bytes.as_slice(),
        );
        r
    }
}

impl Eq for Atom {

}

impl vstd::std_specs::cmp::PartialEqSpecImpl for Atom {
    open spec fn obeys_eq_spec() -> bool {
        true
    }

    open spec fn eq_spec(&self, other: &Atom) -> bool {
        self.bit_len == other.bit_len && self.bytes@ == other.bytes@
    }
}

/// Compares two byte slices for equality.
pub fn eq_bytes(x: &[u8], y: &[u8]) -> (r: bool)
    ensures
        r == (x@ == y@),
{
    if x.len() != y.len() {
        proof {
            assert(x@.len() != y@.len());
        }
        return false;
    }
    let n = x.len();
    let mut i: usize = 0;
    while i < n
        invariant
            n == x@.len() == y@.len(),
            i <= n,
            forall|j: int| 0 <= j < i ==> x@[j] == y@[j],
        decreases n - i,
    {
        if x[i] != y[i] {
            return false;
        }
        i = i + 1;
    }
    proof {
        assert(x@ =~= y@);
    }
    true
}

/// For well-formed atoms, field equality coincides with equality of the
/// bit views: the representation is determined by the view.
pub proof fn lemma_atom_eq_is_view_eq(a: &Atom, b: &Atom)
    requires
        a.wf(),
        b.wf(),
    ensures
        (a.bit_len == b.bit_len && a.bytes_view() == b.bytes_view()) == (a@ == b@),
{
    if a.bit_len == b.bit_len && a.bytes@ == b.bytes@ {
        assert(a@ =~= b@);
    }
    if a@ == b@ {
        assert(a@.len() == b@.len());
        assert(a.bit_len == b.bit_len);
        assert(a.bytes@.len() == b.bytes@.len());
        assert forall|q: int| 0 <= q < a.bytes@.len() implies a.bytes@[q] == b.bytes@[q] by {
            assert forall|j: int| 0 <= j < 8 implies byte_bit(a.bytes@[q], j) == byte_bit(
                b.bytes@[q],
                j,
            ) by {
                let i = 8 * q + j;
                assert(i / 8 == q && i % 8 == j) by {
                    vstd::arithmetic::div_mod::lemma_fundamental_div_mod_converse(i, 8, q, j);
                }
                if i < a.bit_len {
                    assert(a@[i] == b@[i]);
                    assert(a@[i] == seq_bit(a.bytes@, i));
                    assert(b@[i] == seq_bit(b.bytes@, i));
                } else {
                    assert(!seq_bit(a.bytes@, i));
                    assert(!seq_bit(b.bytes@, i));
                }
            }
            crate::bits::lemma_byte_eq_from_bits(a.bytes@[q], b.bytes@[q]);
        }
        assert(a.bytes@ =~= b.bytes@);
    }
}

/// Relates an atom's bit-sequence view to the value of its bytes.
pub proof fn lemma_atom_value(a: &Atom)
    requires
        a.wf(),
    ensures
        bits_value(a@) == bytes_value(a.bytes_view()),
{
    crate::bits::lemma_bits_of_bytes_value(a.bytes@);
    let full = bits_of(a.bytes@, (8 * a.bytes@.len()) as nat);
    assert(full.take(a.bit_len as int) =~= bits_of(a.bytes@, a.bit_len as nat));
    crate::bits::lemma_bits_value_trailing_false(full, a.bit_len as nat);
}

/// Returns the length in bits of a little-endian sequence of bytes: eight
/// bits for every byte but the last, plus the position of the last byte's
/// highest set bit.
pub fn bit_len(bytes: &[u8]) -> (r: usize)
    requires
        bytes@.len() < usize::MAX / 8,
    ensures
        r == if bytes@.len() == 0 {
            0int
        } else {
            8 * (bytes@.len() - 1) + min_bits(bytes@.last() as nat)
        },
{
    let n = bytes.len();
    if n == 0 {
        0
    } else {
        let last = bytes[n - 1];
        8 * (n - 1) + byte_min_bits(last)
    }
}

/// The minimum number of bits representing a single byte's value.
fn byte_min_bits(b: u8) -> (r: usize)
    ensures
        r == min_bits(b as nat),
        r <= 8,
{
    proof {
        crate::bits::lemma_min_bits_le_u8(b);
    }
    let mut v: u8 = b;
    let mut r: usize = 0;
    while v != 0
        invariant
            min_bits(b as nat) == r + min_bits(v as nat),
            min_bits(b as nat) <= 8,
        decreases v,
    {
        proof {
            assert(min_bits(v as nat) == 1 + min_bits((v as nat) / 2));
            assert((v as nat) / 2 == (v / 2) as nat);
        }
        v = v / 2;
        r = r + 1;
    }
    r
}

} // verus!
