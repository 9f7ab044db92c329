//! Bit-level model of little-endian byte sequences.
//!
//! Atoms and the jam/cue bitstream are both sequences of bits read
//! least-significant-bit-first within each byte, byte 0 first.  The spec
//! functions here give every byte sequence a bit-sequence view and relate
//! bit sequences to the natural numbers they denote.

use vstd::prelude::*;

verus! {

/// Bit `i` of a single byte, counting from the least significant bit.
pub open spec fn byte_bit(b: u8, i: int) -> bool {
    (b >> (i as u8)) & 1 == 1
}

/// Bit `i` of a little-endian byte sequence: bit `i % 8` of byte `i / 8`.
pub open spec fn seq_bit(bytes: Seq<u8>, i: int) -> bool {
    byte_bit(bytes[i / 8], i % 8)
}

/// The first `len` bits of a little-endian byte sequence.
pub open spec fn bits_of(bytes: Seq<u8>, len: nat) -> Seq<bool> {
    Seq::new(len, |i: int| seq_bit(bytes, i))
}

/// The natural number denoted by a bit sequence, least significant bit first.
pub open spec fn bits_value(s: Seq<bool>) -> nat
    decreases s.len(),
{
    if s.len() == 0 {
        0
    } else {
        (if s[0] {
            1nat
        } else {
            0nat
        }) + 2 * bits_value(s.skip(1))
    }
}

/// The minimum number of bits that represent `v`: zero for zero, else the
/// position of the highest set bit plus one.
pub open spec fn min_bits(v: nat) -> nat
    decreases v,
{
    if v == 0 {
        0
    } else {
        1 + min_bits(v / 2)
    }
}

/// The canonical bit sequence of `v`, least significant bit first, with no
/// trailing false bits.
pub open spec fn bits_of_nat(v: nat) -> Seq<bool>
    decreases v,
{
    if v == 0 {
        Seq::empty()
    } else {
        seq![v % 2 == 1] + bits_of_nat(v / 2)
    }
}

/// A bit sequence is canonical when it is empty or its last (most
/// significant) bit is set; such a sequence is the shortest one denoting
/// its value.
pub open spec fn canonical(s: Seq<bool>) -> bool {
    s.len() == 0 || s.last()
}

/// `bits_of_nat(v)` has exactly `min_bits(v)` bits.
pub proof fn lemma_bits_of_nat_len(v: nat)
    ensures
        bits_of_nat(v).len() == min_bits(v),
    decreases v,
{
    if v != 0 {
        lemma_bits_of_nat_len(v / 2);
    }
}

/// `bits_of_nat(v)` denotes `v`.
pub proof fn lemma_bits_of_nat_value(v: nat)
    ensures
        bits_value(bits_of_nat(v)) == v,
    decreases v,
{
    if v == 0 {
    } else {
        lemma_bits_of_nat_value(v / 2);
        let s = bits_of_nat(v);
        assert(s.skip(1) =~= bits_of_nat(v / 2));
    }
}

/// `bits_of_nat(v)` is canonical.
pub proof fn lemma_bits_of_nat_canonical(v: nat)
    ensures
        canonical(bits_of_nat(v)),
    decreases v,
{
    if v != 0 {
        lemma_bits_of_nat_canonical(v / 2);
        lemma_bits_of_nat_len(v);
        let s = bits_of_nat(v);
        if v / 2 == 0 {
            assert(v % 2 == 1);
            assert(s.last());
        } else {
            assert(s.last() == bits_of_nat(v / 2).last());
        }
    }
}

/// A canonical bit sequence is `bits_of_nat` of its value.
pub proof fn lemma_canonical_bits_of_nat(s: Seq<bool>)
    requires
        canonical(s),
    ensures
        bits_of_nat(bits_value(s)) =~= s,
    decreases s.len(),
{
    if s.len() == 0 {
    } else {
        let v = bits_value(s);
        let rest = s.skip(1);
        if s.len() == 1 {
            assert(s[0] == s.last());
            assert(rest.len() == 0);
            assert(bits_value(rest) == 0);
            assert(v == 1);
            assert(bits_of_nat(0nat) =~= Seq::<bool>::empty());
            assert(bits_of_nat(1nat) =~= seq![true] + bits_of_nat(0nat));
            assert(bits_of_nat(v) =~= s);
        } else {
            assert(canonical(rest));
            lemma_canonical_bits_of_nat(rest);
            assert(v / 2 == bits_value(rest)) by {
                assert(v == (if s[0] {
                    1nat
                } else {
                    0nat
                }) + 2 * bits_value(rest));
            }
            assert(v != 0) by {
                assert(rest.last());
                lemma_bits_value_nonzero(rest);
            }
            assert(v % 2 == 1 <==> s[0]);
            assert(bits_of_nat(v) =~= seq![v % 2 == 1] + bits_of_nat(v / 2));
        }
    }
}

/// A bit sequence whose last bit is set denotes a nonzero value.
pub proof fn lemma_bits_value_nonzero(s: Seq<bool>)
    requires
        s.len() > 0,
        s.last(),
    ensures
        bits_value(s) > 0,
    decreases s.len(),
{
    if s.len() == 1 {
    } else {
        let rest = s.skip(1);
        assert(rest.last() == s.last());
        lemma_bits_value_nonzero(rest);
    }
}

/// `min_bits` is monotonic.
pub proof fn lemma_min_bits_monotonic(a: nat, b: nat)
    requires
        a <= b,
    ensures
        min_bits(a) <= min_bits(b),
    decreases b,
{
    if a != 0 {
        lemma_min_bits_monotonic(a / 2, b / 2);
    }
}

/// The natural number denoted by a little-endian byte sequence.
pub open spec fn bytes_value(bytes: Seq<u8>) -> nat
    decreases bytes.len(),
{
    if bytes.len() == 0 {
        0
    } else {
        (bytes[0] + 256 * bytes_value(bytes.skip(1))) as nat
    }
}

/// A little-endian byte sequence with its trailing zero bytes removed.
pub open spec fn stripped(bytes: Seq<u8>) -> Seq<u8>
    decreases bytes.len(),
{
    if bytes.len() == 0 {
        bytes
    } else if bytes.last() == 0 {
        stripped(bytes.drop_last())
    } else {
        bytes
    }
}

/// The length in bits of a little-endian byte sequence: eight bits for
/// every byte but the last, plus the bit width of the last byte.
pub open spec fn byte_len_bits(bytes: Seq<u8>) -> nat {
    if bytes.len() == 0 {
        0
    } else {
        (8 * (bytes.len() - 1) + min_bits(bytes.last() as nat)) as nat
    }
}

/// The canonical bit sequence denoted by a little-endian byte sequence:
/// its bits up to the highest set bit of its stripped form.
pub open spec fn canon_bits(bytes: Seq<u8>) -> Seq<bool> {
    bits_of(stripped(bytes), byte_len_bits(stripped(bytes)))
}

/// Appending a clear bit does not change the value a bit sequence denotes.
pub proof fn lemma_bits_value_push_false(s: Seq<bool>)
    ensures
        bits_value(s.push(false)) == bits_value(s),
    decreases s.len(),
{
    if s.len() == 0 {
        assert(s.push(false) =~= seq![false]);
        assert(bits_value(seq![false]) == 2 * bits_value(seq![false].skip(1)));
        assert(seq![false].skip(1) =~= Seq::<bool>::empty());
    } else {
        lemma_bits_value_push_false(s.skip(1));
        assert(s.push(false).skip(1) =~= s.skip(1).push(false));
    }
}

/// Appending a bit adds its weight at the top of the value.
pub proof fn lemma_bits_value_append(s: Seq<bool>, b: bool)
    ensures
        bits_value(s.push(b)) == bits_value(s) + (if b {
            vstd::arithmetic::power2::pow2(s.len())
        } else {
            0nat
        }),
{
    lemma_bits_value_concat(s, seq![b]);
    assert(s + seq![b] =~= s.push(b));
    assert(seq![b].skip(1) =~= Seq::<bool>::empty());
    assert(seq![b].len() == 1);
    assert(seq![b][0] == b);
    assert(bits_value(seq![b].skip(1)) == 0);
    assert(bits_value(seq![b]) == (if b {
        1nat
    } else {
        0nat
    }));
    let p = vstd::arithmetic::power2::pow2(s.len());
    if b {
        assert(p * 1nat == p) by {
            vstd::arithmetic::mul::lemma_mul_basics(p as int);
        }
    } else {
        assert(p * 0nat == 0nat) by {
            vstd::arithmetic::mul::lemma_mul_basics(p as int);
        }
    }
}

/// A prefix closed under trailing clear bits denotes the same value.
pub proof fn lemma_bits_value_trailing_false(s: Seq<bool>, n: nat)
    requires
        n <= s.len(),
        forall|i: int| n <= i < s.len() ==> !s[i],
    ensures
        bits_value(s) == bits_value(s.take(n as int)),
    decreases s.len() - n,
{
    if n < s.len() {
        lemma_bits_value_trailing_false(s, n + 1);
        assert(s.take(n as int + 1) =~= s.take(n as int).push(false));
        lemma_bits_value_push_false(s.take(n as int));
    } else {
        assert(s.take(n as int) =~= s);
    }
}

/// The value denoted by a bit sequence is below `2^len`.
pub proof fn lemma_bits_value_bound(s: Seq<bool>)
    ensures
        bits_value(s) < vstd::arithmetic::power2::pow2(s.len()),
    decreases s.len(),
{
    if s.len() == 0 {
        vstd::arithmetic::power2::lemma2_to64();
    } else {
        lemma_bits_value_bound(s.skip(1));
        vstd::arithmetic::power2::lemma_pow2_unfold(s.len());
    }
}

/// Bit `i` of a byte in arithmetic terms: the parity of `b / 2^i`.
pub proof fn lemma_byte_bit_arith(b: u8, i: int)
    requires
        0 <= i < 8,
    ensures
        byte_bit(b, i) == ((b as nat / vstd::arithmetic::power2::pow2(i as nat)) % 2 == 1),
{
    let sh = i as u8;
    vstd::bits::lemma_u8_shr_is_div(b, sh);
    let q = b >> sh;
    assert(q & 1 == q % 2) by {
        vstd::bits::lemma_u8_low_bits_mask_is_mod(q, 1);
        assert(vstd::bits::low_bits_mask(1) == 1) by {
            vstd::bits::lemma_low_bits_mask_values();
        }
        assert(vstd::arithmetic::power2::pow2(1) == 2) by {
            vstd::arithmetic::power2::lemma2_to64();
        }
    }
}

/// Bits of a byte at or above its bit width are clear.
pub proof fn lemma_byte_bit_above_min_bits(b: u8, i: int)
    requires
        min_bits(b as nat) <= i < 8,
    ensures
        !byte_bit(b, i),
{
    lemma_byte_bit_arith(b, i);
    lemma_min_bits_bound(b as nat);
    vstd::arithmetic::power2::lemma_pow2_pos(i as nat);
    assert(vstd::arithmetic::power2::pow2(min_bits(b as nat))
        <= vstd::arithmetic::power2::pow2(i as nat)) by {
        if min_bits(b as nat) < i {
            vstd::arithmetic::power2::lemma_pow2_strictly_increases(min_bits(b as nat), i as nat);
        }
    }
    assert(b as nat / vstd::arithmetic::power2::pow2(i as nat) == 0) by {
        vstd::arithmetic::div_mod::lemma_basic_div(
            b as int,
            vstd::arithmetic::power2::pow2(i as nat) as int,
        );
    }
}

/// The bit of a nonzero byte just below its bit width is set.
pub proof fn lemma_byte_bit_top(b: u8)
    requires
        b != 0,
    ensures
        byte_bit(b, min_bits(b as nat) - 1),
{
    let m = (min_bits(b as nat) - 1) as nat;
    assert(min_bits(b as nat) <= 8) by {
        vstd::arithmetic::power2::lemma2_to64();
        lemma_min_bits_le_u8(b);
    }
    lemma_byte_bit_arith(b, m as int);
    lemma_min_bits_bound(b as nat);
    vstd::arithmetic::power2::lemma_pow2_unfold(min_bits(b as nat));
    vstd::arithmetic::power2::lemma_pow2_pos(m);
    let p = vstd::arithmetic::power2::pow2(m);
    assert(p <= b < 2 * p);
    assert(b as nat / p == 1) by {
        vstd::arithmetic::div_mod::lemma_div_basics(p as int);
        assert((b as int) / (p as int) >= 1) by {
            vstd::arithmetic::div_mod::lemma_div_is_ordered(p as int, b as int, p as int);
        }
        assert((b as int) / (p as int) < 2) by {
            let q = (b as int) / (p as int);
            vstd::arithmetic::div_mod::lemma_fundamental_div_mod(b as int, p as int);
            vstd::arithmetic::div_mod::lemma_mod_division_less_than_divisor(b as int, p as int);
            if q >= 2 {
                vstd::arithmetic::mul::lemma_mul_inequality(2, q, p as int);
            }
        }
    }
}

/// The value of a bit-sequence concatenation.
pub proof fn lemma_bits_value_concat(s1: Seq<bool>, s2: Seq<bool>)
    ensures
        bits_value(s1 + s2) == bits_value(s1) + vstd::arithmetic::power2::pow2(s1.len())
            * bits_value(s2),
    decreases s1.len(),
{
    if s1.len() == 0 {
        assert(s1 + s2 =~= s2);
        vstd::arithmetic::power2::lemma2_to64();
    } else {
        lemma_bits_value_concat(s1.skip(1), s2);
        assert((s1 + s2).skip(1) =~= s1.skip(1) + s2);
        let p = vstd::arithmetic::power2::pow2((s1.len() - 1) as nat);
        vstd::arithmetic::power2::lemma_pow2_unfold(s1.len());
        assert(2 * (bits_value(s1.skip(1)) + p * bits_value(s2)) == 2 * bits_value(s1.skip(1)) + 2
            * p * bits_value(s2)) by {
            vstd::arithmetic::mul::lemma_mul_is_distributive_add(
                2,
                bits_value(s1.skip(1)) as int,
                (p * bits_value(s2)) as int,
            );
            vstd::arithmetic::mul::lemma_mul_is_associative(2, p as int, bits_value(s2) as int);
        }
    }
}

/// The value of the bits of a whole byte sequence is the value of the bytes.
pub proof fn lemma_bits_of_bytes_value(bytes: Seq<u8>)
    ensures
        bits_value(bits_of(bytes, (8 * bytes.len()) as nat)) == bytes_value(bytes),
    decreases bytes.len(),
{
    if bytes.len() == 0 {
        assert(bits_of(bytes, 0) =~= Seq::<bool>::empty());
    } else {
        let head_bits = byte_bits(bytes[0]);
        let rest = bytes.skip(1);
        let rest_bits = bits_of(rest, (8 * rest.len()) as nat);
        assert(bits_of(bytes, (8 * bytes.len()) as nat) =~= head_bits + rest_bits) by {
            assert forall|i: int| 0 <= i < 8 * bytes.len() implies bits_of(
                bytes,
                (8 * bytes.len()) as nat,
            )[i] == (head_bits + rest_bits)[i] by {
                if i < 8 {
                    assert(i / 8 == 0);
                    assert(i % 8 == i);
                } else {
                    assert(bytes[i / 8] == rest[(i - 8) / 8]);
                    assert(i % 8 == (i - 8) % 8);
                }
            }
        }
        lemma_bits_value_concat(head_bits, rest_bits);
        lemma_bits_of_bytes_value(rest);
        lemma_byte_bits_value(bytes[0]);
        assert(vstd::arithmetic::power2::pow2(8) == 256) by {
            vstd::arithmetic::power2::lemma2_to64();
        }
    }
}

/// The eight bits of a byte, least significant first.
pub open spec fn byte_bits(b: u8) -> Seq<bool> {
    Seq::new(8, |i: int| byte_bit(b, i))
}

/// The value of the eight bits of a byte is the byte itself.
pub proof fn lemma_byte_bits_value(b: u8)
    ensures
        bits_value(byte_bits(b)) == b,
{
    lemma_byte_bits_value_from(b, 0);
    assert(byte_bits(b).skip(0) =~= byte_bits(b));
    assert(vstd::arithmetic::power2::pow2(0) == 1) by {
        vstd::arithmetic::power2::lemma2_to64();
    }
    assert(b as nat / 1 == b) by {
        vstd::arithmetic::div_mod::lemma_div_basics(b as int);
    }
}

proof fn lemma_byte_bits_value_from(b: u8, k: int)
    requires
        0 <= k <= 8,
    ensures
        bits_value(byte_bits(b).skip(k)) == b as nat / vstd::arithmetic::power2::pow2(k as nat),
    decreases 8 - k,
{
    let s = byte_bits(b).skip(k);
    if k == 8 {
        assert(vstd::arithmetic::power2::pow2(8) == 256) by {
            vstd::arithmetic::power2::lemma2_to64();
        }
        assert(b as nat / 256 == 0) by {
            vstd::arithmetic::div_mod::lemma_basic_div(b as int, 256);
        }
        assert(s.len() == 0);
    } else {
        lemma_byte_bits_value_from(b, k + 1);
        assert(s.skip(1) =~= byte_bits(b).skip(k + 1));
        lemma_byte_bit_arith(b, k);
        let p = vstd::arithmetic::power2::pow2(k as nat);
        let q = b as nat / p;
        assert(b as nat / vstd::arithmetic::power2::pow2((k + 1) as nat) == q / 2) by {
            assert(vstd::arithmetic::power2::pow2((k + 1) as nat) == p * 2) by {
                vstd::arithmetic::power2::lemma_pow2_adds(k as nat, 1);
                vstd::arithmetic::power2::lemma2_to64();
            }
            vstd::arithmetic::power2::lemma_pow2_pos(k as nat);
            vstd::arithmetic::div_mod::lemma_div_denominator(b as int, p as int, 2);
        }
        assert(s[0] == byte_bit(b, k));
        assert(byte_bit(b, k) == (q % 2 == 1));
        assert(bits_value(s) == (if s[0] {
            1nat
        } else {
            0nat
        }) + 2 * bits_value(s.skip(1)));
        assert(q == q % 2 + 2 * (q / 2)) by {
            vstd::arithmetic::div_mod::lemma_fundamental_div_mod(q as int, 2);
        }
    }
}

/// The value of a byte sequence with one byte appended.
pub proof fn lemma_bytes_value_push(s: Seq<u8>, b: u8)
    ensures
        bytes_value(s.push(b)) == bytes_value(s) + b * vstd::arithmetic::power2::pow2(
            (8 * s.len()) as nat,
        ),
    decreases s.len(),
{
    if s.len() == 0 {
        assert(s.push(b).skip(1) =~= Seq::<u8>::empty());
        assert(s.push(b)[0] == b);
        assert(bytes_value(s.push(b).skip(1)) == 0);
        assert(bytes_value(s.push(b)) == b);
        assert(vstd::arithmetic::power2::pow2(0) == 1) by {
            vstd::arithmetic::power2::lemma2_to64();
        }
        assert(b * vstd::arithmetic::power2::pow2((8 * s.len()) as nat) == b) by {
            assert((8 * s.len()) as nat == 0);
        }
    } else {
        lemma_bytes_value_push(s.skip(1), b);
        assert(s.push(b).skip(1) =~= s.skip(1).push(b));
        let p = vstd::arithmetic::power2::pow2((8 * (s.len() - 1)) as nat);
        assert(vstd::arithmetic::power2::pow2((8 * s.len()) as nat) == 256 * p) by {
            vstd::arithmetic::power2::lemma_pow2_adds(8, (8 * (s.len() - 1)) as nat);
            vstd::arithmetic::power2::lemma2_to64();
        }
        assert(256 * (bytes_value(s.skip(1)) + b * p) == 256 * bytes_value(s.skip(1)) + 256 * (b
            * p)) by {
            vstd::arithmetic::mul::lemma_mul_is_distributive_add(
                256,
                bytes_value(s.skip(1)) as int,
                (b * p) as int,
            );
        }
        assert(256 * (b * p) == b * (256 * p)) by {
            vstd::arithmetic::mul::lemma_mul_is_associative(256, b as int, p as int);
            vstd::arithmetic::mul::lemma_mul_is_associative(b as int, 256, p as int);
            vstd::arithmetic::mul::lemma_mul_is_commutative(256, b as int);
        }
        assert(s.push(b)[0] == s[0]);
        assert(bytes_value(s.push(b)) == s[0] + 256 * bytes_value(s.skip(1).push(b)));
        assert(bytes_value(s.push(b)) == s[0] + 256 * bytes_value(s.skip(1)) + b * (256 * p));
        assert(bytes_value(s) == s[0] + 256 * bytes_value(s.skip(1)));
    }
}

/// The value of a byte sequence is below `256^len`.
pub proof fn lemma_bytes_value_bound(s: Seq<u8>)
    ensures
        bytes_value(s) < vstd::arithmetic::power2::pow2((8 * s.len()) as nat),
    decreases s.len(),
{
    if s.len() == 0 {
        vstd::arithmetic::power2::lemma2_to64();
    } else {
        lemma_bytes_value_bound(s.skip(1));
        let p = vstd::arithmetic::power2::pow2((8 * (s.len() - 1)) as nat);
        assert(vstd::arithmetic::power2::pow2((8 * s.len()) as nat) == 256 * p) by {
            vstd::arithmetic::power2::lemma_pow2_adds(8, (8 * (s.len() - 1)) as nat);
            vstd::arithmetic::power2::lemma2_to64();
        }
        assert(256 * bytes_value(s.skip(1)) <= 256 * (p - 1)) by {
            vstd::arithmetic::mul::lemma_mul_inequality(
                bytes_value(s.skip(1)) as int,
                p - 1,
                256,
            );
        }
        assert(256 * (p - 1) == 256 * p - 256) by {
            vstd::arithmetic::mul::lemma_mul_is_distributive_sub(256, p as int, 1);
        }
    }
}

/// Stripping trailing zero bytes does not change the value.
pub proof fn lemma_bytes_value_stripped(s: Seq<u8>)
    ensures
        bytes_value(stripped(s)) == bytes_value(s),
    decreases s.len(),
{
    if s.len() == 0 {
    } else if s.last() == 0 {
        lemma_bytes_value_stripped(s.drop_last());
        lemma_bytes_value_push(s.drop_last(), 0);
        assert(s.drop_last().push(0) =~= s);
    }
}

/// Setting bit `sh` of a byte leaves every other bit unchanged.
pub proof fn lemma_byte_set_bit(b: u8, sh: u8, j: u8)
    requires
        sh < 8,
        j < 8,
    ensures
        byte_bit(b | (1u8 << sh), j as int) == (j == sh || byte_bit(b, j as int)),
{
    assert(((b | (1u8 << sh)) >> j) & 1 == (if j == sh {
        1u8
    } else {
        (b >> j) & 1
    })) by (bit_vector)
        requires
            sh < 8 && j < 8,
    ;
    assert((b >> j) & 1 == 0 || (b >> j) & 1 == 1) by (bit_vector);
}

/// Clearing bit `sh` of a byte leaves every other bit unchanged.
pub proof fn lemma_byte_clear_bit(b: u8, sh: u8, j: u8)
    requires
        sh < 8,
        j < 8,
    ensures
        byte_bit(b & !(1u8 << sh), j as int) == (j != sh && byte_bit(b, j as int)),
{
    assert(((b & !(1u8 << sh)) >> j) & 1 == (if j == sh {
        0u8
    } else {
        (b >> j) & 1
    })) by (bit_vector)
        requires
            sh < 8 && j < 8,
    ;
    assert((b >> j) & 1 == 0 || (b >> j) & 1 == 1) by (bit_vector);
}

/// Two bytes that agree on each of their eight bits are equal.
pub proof fn lemma_byte_eq_from_bits(b1: u8, b2: u8)
    requires
        forall|j: int| 0 <= j < 8 ==> byte_bit(b1, j) == byte_bit(b2, j),
    ensures
        b1 == b2,
{
    assert(byte_bit(b1, 0) == byte_bit(b2, 0));
    assert(byte_bit(b1, 1) == byte_bit(b2, 1));
    assert(byte_bit(b1, 2) == byte_bit(b2, 2));
    assert(byte_bit(b1, 3) == byte_bit(b2, 3));
    assert(byte_bit(b1, 4) == byte_bit(b2, 4));
    assert(byte_bit(b1, 5) == byte_bit(b2, 5));
    assert(byte_bit(b1, 6) == byte_bit(b2, 6));
    assert(byte_bit(b1, 7) == byte_bit(b2, 7));
    assert(b1 == b2) by (bit_vector)
        requires
            ((b1 >> 0u8) & 1 == 1) == ((b2 >> 0u8) & 1 == 1),
            ((b1 >> 1u8) & 1 == 1) == ((b2 >> 1u8) & 1 == 1),
            ((b1 >> 2u8) & 1 == 1) == ((b2 >> 2u8) & 1 == 1),
            ((b1 >> 3u8) & 1 == 1) == ((b2 >> 3u8) & 1 == 1),
            ((b1 >> 4u8) & 1 == 1) == ((b2 >> 4u8) & 1 == 1),
            ((b1 >> 5u8) & 1 == 1) == ((b2 >> 5u8) & 1 == 1),
            ((b1 >> 6u8) & 1 == 1) == ((b2 >> 6u8) & 1 == 1),
            ((b1 >> 7u8) & 1 == 1) == ((b2 >> 7u8) & 1 == 1),
    ;
}

/// A byte whose highest set bit is at position `j` has bit width `j + 1`.
pub proof fn lemma_byte_top_bit_min_bits(b: u8, j: int)
    requires
        0 <= j < 8,
        byte_bit(b, j),
        forall|k: int| j < k < 8 ==> !byte_bit(b, k),
    ensures
        min_bits(b as nat) == j + 1,
        b != 0,
{
    lemma_byte_bits_value(b);
    let bb = byte_bits(b);
    let hd = bb.take(j + 1);
    lemma_bits_value_trailing_false(bb, (j + 1) as nat);
    assert(bits_value(hd) < vstd::arithmetic::power2::pow2((j + 1) as nat)) by {
        lemma_bits_value_bound(hd);
    }
    assert(bits_value(hd) >= vstd::arithmetic::power2::pow2(j as nat)) by {
        assert(hd =~= hd.drop_last().push(true));
        lemma_bits_value_append(hd.drop_last(), true);
    }
    let mb = min_bits(b as nat);
    lemma_min_bits_bound(b as nat);
    vstd::arithmetic::power2::lemma_pow2_pos(j as nat);
    if mb < j + 1 {
        assert(vstd::arithmetic::power2::pow2(mb) <= vstd::arithmetic::power2::pow2(j as nat))
            by {
            if mb < j {
                vstd::arithmetic::power2::lemma_pow2_strictly_increases(mb, j as nat);
            }
        }
    }
    if mb > j + 1 {
        assert(vstd::arithmetic::power2::pow2((j + 1) as nat) <= vstd::arithmetic::power2::pow2(
            (mb - 1) as nat,
        )) by {
            if j + 1 < mb - 1 {
                vstd::arithmetic::power2::lemma_pow2_strictly_increases(
                    (j + 1) as nat,
                    (mb - 1) as nat,
                );
            }
        }
    }
}

/// `min_bits` of a byte is at most eight.
pub proof fn lemma_min_bits_le_u8(b: u8)
    ensures
        min_bits(b as nat) <= 8,
{
    vstd::arithmetic::power2::lemma2_to64();
    lemma_min_bits_le(b as nat, 8);
}

/// `min_bits(v) <= n` whenever `v < 2^n`, by repeated halving.
pub proof fn lemma_min_bits_le(v: nat, n: nat)
    requires
        v < vstd::arithmetic::power2::pow2(n),
    ensures
        min_bits(v) <= n,
    decreases n,
{
    if v == 0 {
    } else {
        if n == 0 {
            assert(vstd::arithmetic::power2::pow2(0) == 1) by {
                vstd::arithmetic::power2::lemma2_to64();
            }
        } else {
            vstd::arithmetic::power2::lemma_pow2_unfold(n);
            lemma_min_bits_le(v / 2, (n - 1) as nat);
        }
    }
}

/// `min_bits` of a value below `2^n` is at most `n`; the converse bound.
pub proof fn lemma_min_bits_bound(v: nat)
    ensures
        v < vstd::arithmetic::power2::pow2(min_bits(v)),
        v > 0 ==> vstd::arithmetic::power2::pow2((min_bits(v) - 1) as nat) <= v,
    decreases v,
{
    vstd::arithmetic::power2::lemma2_to64();
    if v > 0 {
        lemma_min_bits_bound(v / 2);
        vstd::arithmetic::power2::lemma_pow2_unfold(min_bits(v));
        if v / 2 > 0 {
            vstd::arithmetic::power2::lemma_pow2_unfold((min_bits(v) - 1) as nat);
        }
    }
}

} // verus!
