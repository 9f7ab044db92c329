//! Noun serialization ("jam") and deserialization ("cue").
//!
//! The bitstream holds three kinds of entity, each introduced by a tag
//! read least-significant-bit first: `0` an atom, `10` a cell, `11` a
//! back-reference.  An atom is a length prefix followed by its bits; a
//! cell is its encoded head then its encoded tail; a back-reference is an
//! earlier bit position, encoded like an atom, at which the same noun was
//! first encoded.  A length `L` is written as `min_bits(L)` clear bits,
//! one set bit, then the bits of `L` least significant first with the
//! leading set bit omitted.
//!
//! The functions [`jam_s`] and [`cue_s`] are the mathematical models of
//! the encoder and decoder; the executable code is proved to follow them
//! exactly.

use crate::atom::{Atom, Builder};
use crate::bits::{bits_of_nat, bits_value, min_bits};
use crate::cell::Cell;
use crate::noun::{Noun, NounS};
use std::rc::Rc;
use vstd::prelude::*;

verus! {

/// Errors that occur when serializing or deserializing.
#[derive(Clone, Copy, Debug, PartialEq, Eq, Structural)]
pub enum Error {
    /// The bit stream ended while an atom's payload was being read.
    AtomBuilding,
    /// A back-reference names a position at which no noun was decoded.
    CacheMiss,
    /// A back-reference index is too wide for a 64-bit position.
    InvalidBackref,
    /// A length prefix is truncated or wider than the 64-bit length
    /// register.
    InvalidLen,
    /// The bit stream ended where a tag bit was expected.
    InvalidTag,
}

impl Error {
    /// A short description of this error.
    pub fn message(&self) -> (r: &'static str)
        ensures
            r@ == self.message_spec(),
    {
        match self {
            Error::AtomBuilding => "building an atom a bit at a time failed",
            Error::CacheMiss => "a key that was expected to be in the cache was missing from the cache",
            Error::InvalidBackref => "encountered an invalid backreference",
            Error::InvalidLen => "encountered an invalid length",
            Error::InvalidTag => "encountered an invalid tag",
        }
    }

    /// The description each variant carries.
    pub open spec fn message_spec(&self) -> Seq<char> {
        match self {
            Error::AtomBuilding => "building an atom a bit at a time failed"@,
            Error::CacheMiss => "a key that was expected to be in the cache was missing from the cache"@,
            Error::InvalidBackref => "encountered an invalid backreference"@,
            Error::InvalidLen => "encountered an invalid length"@,
            Error::InvalidTag => "encountered an invalid tag"@,
        }
    }
}

/// A sequence of `n` clear bits.
pub open spec fn zeros(n: nat) -> Seq<bool> {
    Seq::new(n, |i: int| false)
}

/// The encoding of a length `l`: a unary prefix of `min_bits(l)` clear
/// bits, one set bit, then the bits of `l` with the leading set bit
/// omitted.
pub open spec fn enc_len(l: nat) -> Seq<bool> {
    if l == 0 {
        seq![true]
    } else {
        zeros(min_bits(l)) + seq![true] + bits_of_nat(l).drop_last()
    }
}

/// The encoding of an atom's payload: its length, then its bits.
pub open spec fn enc_atom_tail(bits: Seq<bool>) -> Seq<bool> {
    enc_len(bits.len()) + bits
}

/// The number of clear bits at position `p`, up to the first set bit;
/// `InvalidLen` when the stream ends first.
pub open spec fn count_zeros(s: Seq<bool>, p: nat) -> Result<nat, Error>
    decreases s.len() - p,
{
    if p >= s.len() {
        Err(Error::InvalidLen)
    } else if s[p as int] {
        Ok(0)
    } else {
        match count_zeros(s, p + 1) {
            Ok(z) => Ok(z + 1),
            Err(e) => Err(e),
        }
    }
}

/// Decodes a length at position `p`: the decoded value and the position
/// after it.  A unary prefix of 64 or more names a length wider than the
/// 64-bit length register and is refused.
pub open spec fn dec_len(s: Seq<bool>, p: nat) -> Result<(nat, nat), Error> {
    match count_zeros(s, p) {
        Err(e) => Err(e),
        Ok(z) => if z >= 64 {
            Err(Error::InvalidLen)
        } else if z == 0 {
            Ok((0, p + 1))
        } else {
            let start = p + z + 1;
            let stop = (start + z - 1) as nat;
            if stop <= s.len() {
                Ok(
                    (
                        bits_value(s.subrange(start as int, stop as int))
                            + vstd::arithmetic::power2::pow2((z - 1) as nat),
                        stop,
                    ),
                )
            } else {
                Err(Error::InvalidLen)
            }
        },
    }
}

/// Decodes an atom's payload at position `p`: its bits and the position
/// after them.
pub open spec fn dec_atom_tail(s: Seq<bool>, p: nat) -> Result<(Seq<bool>, nat), Error> {
    match dec_len(s, p) {
        Err(e) => Err(e),
        Ok((l, p1)) => if p1 + l <= s.len() {
            Ok((s.subrange(p1 as int, (p1 + l) as int), (p1 + l) as nat))
        } else {
            Err(Error::AtomBuilding)
        },
    }
}

/// The mathematical model of the encoder.  Encodes `n` at bit position
/// `p` under the cache `c`, which maps each already-encoded noun to the
/// bit position of its tag; returns the emitted bits and the grown cache.
///
/// A cached atom is re-emitted inline when its own bits are no wider than
/// the bit width of the cached position, since the back-reference would
/// be no shorter; a cached cell always becomes a back-reference.
pub open spec fn jam_s(n: NounS, p: nat, c: Map<NounS, nat>) -> (Seq<bool>, Map<NounS, nat>)
    decreases n,
{
    if c.dom().contains(n) {
        let q = c[n];
        if n is Atom && n.bits_s().len() <= min_bits(q) {
            (seq![false] + enc_atom_tail(n.bits_s()), c)
        } else {
            (seq![true, true] + enc_atom_tail(bits_of_nat(q)), c)
        }
    } else {
        let c1 = c.insert(n, p);
        match n {
            NounS::Atom { bits } => (seq![false] + enc_atom_tail(bits), c1),
            NounS::Cell { head, tail } => {
                let (hb, c2) = jam_s(*head, p + 2, c1);
                let (tb, c3) = jam_s(*tail, p + 2 + hb.len(), c2);
                (seq![true, false] + hb + tb, c3)
            },
        }
    }
}

/// The bit stream the encoder produces for a whole noun.
pub open spec fn jam_spec(n: NounS) -> Seq<bool> {
    jam_s(n, 0, Map::empty()).0
}

/// The mathematical model of the decoder.  Decodes one noun at bit
/// position `p` under the cache `c`, which maps each bit position at
/// which a noun was decoded to that noun; returns the noun, the position
/// after it, and the grown cache.  `fuel` bounds the recursion depth and
/// is irrelevant once it exceeds the number of unread bits.
pub open spec fn cue_s(s: Seq<bool>, p: nat, c: Map<nat, NounS>, fuel: nat) -> Result<
    (NounS, nat, Map<nat, NounS>),
    Error,
>
    decreases fuel,
{
    if fuel == 0 {
        Err(Error::InvalidTag)
    } else if p >= s.len() {
        Err(Error::InvalidTag)
    } else if !s[p as int] {
        // Atom tag `0`.
        match dec_atom_tail(s, p + 1) {
            Err(e) => Err(e),
            Ok((bits, p2)) => {
                let a = NounS::Atom { bits };
                Ok((a, p2, c.insert(p, a)))
            },
        }
    } else if p + 1 >= s.len() {
        Err(Error::InvalidTag)
    } else if !s[p as int + 1] {
        // Cell tag `10`.
        let ph = (p + 2) as nat;
        match cue_s(s, ph, c, (fuel - 1) as nat) {
            Err(e) => Err(e),
            Ok((h, pt, c1)) => match cue_s(s, pt, c1.insert(ph, h), (fuel - 1) as nat) {
                Err(e) => Err(e),
                Ok((t, p3, c2)) => Ok(
                    (
                        NounS::Cell { head: Box::new(h), tail: Box::new(t) },
                        p3,
                        c2.insert(pt, t),
                    ),
                ),
            },
        }
    } else {
        // Back-reference tag `11`.
        match dec_atom_tail(s, p + 2) {
            Err(e) => Err(e),
            Ok((bits, p2)) => if bits.len() > 64 {
                Err(Error::InvalidBackref)
            } else {
                let q = bits_value(bits);
                if c.dom().contains(q) {
                    Ok((c[q], p2, c))
                } else {
                    Err(Error::CacheMiss)
                }
            },
        }
    }
}

/// The noun the decoder produces from a whole bit stream, or the error
/// it reports.
pub open spec fn cue_spec(s: Seq<bool>) -> Result<NounS, Error> {
    match cue_s(s, 0, Map::empty(), s.len() + 1) {
        Ok((n, p, c)) => Ok(n),
        Err(e) => Err(e),
    }
}

/// What a successful zero count says of the stream: the counted bits are
/// clear and the stop bit is set.
pub proof fn lemma_count_zeros_ok(s: Seq<bool>, p: nat)
    ensures
        match count_zeros(s, p) {
            Ok(z) => p + z < s.len() && s[(p + z) as int] && forall|i: int|
                p <= i < p + z ==> !s[i],
            Err(e) => e == Error::InvalidLen,
        },
    decreases s.len() - p,
{
    if p >= s.len() {
    } else if s[p as int] {
    } else {
        lemma_count_zeros_ok(s, p + 1);
    }
}

/// A successful length decode moves the position forward, within the
/// stream.
pub proof fn lemma_dec_len_bounds(s: Seq<bool>, p: nat)
    ensures
        match dec_len(s, p) {
            Ok((l, p1)) => p < p1 <= s.len(),
            Err(_) => true,
        },
{
    lemma_count_zeros_ok(s, p);
}

/// A successful atom-payload decode moves the position forward, within
/// the stream.
pub proof fn lemma_dec_atom_tail_bounds(s: Seq<bool>, p: nat)
    ensures
        match dec_atom_tail(s, p) {
            Ok((bits, p2)) => p < p2 <= s.len(),
            Err(_) => true,
        },
{
    lemma_dec_len_bounds(s, p);
}

/// A successful decode moves the position forward, within the stream,
/// and only grows the cache.
pub proof fn lemma_cue_s_bounds(s: Seq<bool>, p: nat, c: Map<nat, NounS>, fuel: nat)
    ensures
        match cue_s(s, p, c, fuel) {
            Ok((n, p2, c2)) => p < p2 <= s.len() && c.dom() <= c2.dom(),
            Err(_) => true,
        },
    decreases fuel,
{
    if fuel == 0 || p >= s.len() {
    } else if !s[p as int] {
        lemma_dec_atom_tail_bounds(s, p + 1);
    } else if p + 1 >= s.len() {
    } else if !s[p as int + 1] {
        let ph = (p + 2) as nat;
        lemma_cue_s_bounds(s, ph, c, (fuel - 1) as nat);
        match cue_s(s, ph, c, (fuel - 1) as nat) {
            Ok((h, pt, c1)) => {
                lemma_cue_s_bounds(s, pt, c1.insert(ph, h), (fuel - 1) as nat);
            },
            Err(_) => {},
        }
    } else {
        lemma_dec_atom_tail_bounds(s, p + 2);
    }
}

/// Once the fuel exceeds the number of unread bits, the decoder's result
/// no longer depends on it.
pub proof fn lemma_cue_s_fuel(s: Seq<bool>, p: nat, c: Map<nat, NounS>, f1: nat, f2: nat)
    requires
        f1 >= s.len() - p + 1,
        f2 >= f1,
    ensures
        cue_s(s, p, c, f2) == cue_s(s, p, c, f1),
    decreases f1,
{
    if p >= s.len() {
    } else if !s[p as int] {
    } else if p + 1 >= s.len() {
    } else if !s[p as int + 1] {
        let ph = (p + 2) as nat;
        lemma_cue_s_fuel(s, ph, c, (f1 - 1) as nat, (f2 - 1) as nat);
        match cue_s(s, ph, c, (f1 - 1) as nat) {
            Ok((h, pt, c1)) => {
                lemma_cue_s_bounds(s, ph, c, (f1 - 1) as nat);
                lemma_cue_s_fuel(s, pt, c1.insert(ph, h), (f1 - 1) as nat, (f2 - 1) as nat);
            },
            Err(_) => {},
        }
    } else {
    }
}

/// The length of an encoded length: one bit for zero, else twice the bit
/// width of the value.
pub proof fn lemma_enc_len_len(l: nat)
    ensures
        enc_len(l).len() == (if l == 0 {
            1int
        } else {
            2 * min_bits(l) as int
        }),
        l > 0 ==> min_bits(l) >= 1,
{
    if l > 0 {
        crate::bits::lemma_bits_of_nat_len(l);
    }
}

/// The encoder's cache: structurally equal nouns share one entry, keyed
/// by the bit position of the first occurrence's tag.
struct JCache {
    entries: Vec<(Rc<Noun>, u64)>,
}

/// The map a sequence of encoder cache entries denotes; later entries
/// shadow earlier ones.
spec fn jcache_map(s: Seq<(Rc<Noun>, u64)>) -> Map<NounS, nat>
    decreases s.len(),
{
    if s.len() == 0 {
        Map::empty()
    } else {
        jcache_map(s.drop_last()).insert(s.last().0@, s.last().1 as nat)
    }
}

impl JCache {
    spec fn wf(&self) -> bool {
        forall|i: int| 0 <= i < self.entries@.len() ==> (*#[trigger] self.entries@[i].0).wf()
    }

    spec fn view(&self) -> Map<NounS, nat> {
        jcache_map(self.entries@)
    }

    fn new() -> (r: JCache)
        ensures
            r.wf(),
            r.view() == Map::<NounS, nat>::empty(),
    {
        let r = JCache { entries: Vec::new() };
        proof {
            assert(r.entries@.len() == 0);
        }
        r
    }

    fn lookup(&self, n: &Noun) -> (r: Option<u64>)
        requires
            self.wf(),
            n.wf(),
        ensures
            match r {
                Some(q) => self.view().dom().contains(n@) && q as nat == self.view()[n@],
                None => !self.view().dom().contains(n@),
            },
    {
        let mut i = self.entries.len();
        while i > 0
            invariant
                self.wf(),
                n.wf(),
                i <= self.entries@.len(),
                forall|j: int| i <= j < self.entries@.len() ==> #[trigger] self.entries@[j].0@ != n@,
            decreases i,
        {
            i = i - 1;
            let hit = crate::noun::noun_eq(n, &self.entries[i].0);
            proof {
                crate::noun::lemma_noun_eq_is_model_eq(n, &*self.entries@[i as int].0);
            }
            if hit {
                proof {
                    lemma_jcache_suffix(self.entries@, n@, i as int + 1);
                    assert(self.entries@.take(i as int + 1).last() == self.entries@[i as int]);
                    assert(self.entries@.take(i as int + 1).drop_last() =~= self.entries@.take(
                        i as int,
                    ));
                }
                return Some(self.entries[i].1);
            }
        }
        proof {
            lemma_jcache_suffix(self.entries@, n@, 0);
            assert(self.entries@.take(0) =~= Seq::<(Rc<Noun>, u64)>::empty());
        }
        None
    }

    fn insert(&mut self, n: Rc<Noun>, q: u64)
        requires
            old(self).wf(),
            (*n).wf(),
        ensures
            final(self).wf(),
            final(self).view() == old(self).view().insert(n@, q as nat),
    {
        self.entries.push((n, q));
        proof {
            assert(self.entries@.drop_last() =~= old(self).entries@);
        }
    }
}

/// Looking a key up in an encoder cache map ignores entries that do not
/// hold that key.
proof fn lemma_jcache_suffix(s: Seq<(Rc<Noun>, u64)>, k: NounS, i: int)
    requires
        0 <= i <= s.len(),
        forall|j: int| i <= j < s.len() ==> #[trigger] s[j].0@ != k,
    ensures
        jcache_map(s).dom().contains(k) == jcache_map(s.take(i)).dom().contains(k),
        jcache_map(s).dom().contains(k) ==> jcache_map(s)[k] == jcache_map(s.take(i))[k],
    decreases s.len() - i,
{
    if i == s.len() {
        assert(s.take(i) =~= s);
    } else {
        assert(s.last().0@ != k);
        lemma_jcache_suffix(s.drop_last(), k, i);
        assert(s.drop_last().take(i) =~= s.take(i));
    }
}

/// The decoder's cache, keyed by the bit position of each decoded noun's
/// tag.
struct DCache {
    entries: Vec<(u64, Rc<Noun>)>,
}

/// The map a sequence of decoder cache entries denotes; later entries
/// shadow earlier ones.
spec fn dcache_map(s: Seq<(u64, Rc<Noun>)>) -> Map<nat, NounS>
    decreases s.len(),
{
    if s.len() == 0 {
        Map::empty()
    } else {
        dcache_map(s.drop_last()).insert(s.last().0 as nat, s.last().1@)
    }
}

impl DCache {
    spec fn wf(&self) -> bool {
        forall|i: int| 0 <= i < self.entries@.len() ==> (*#[trigger] self.entries@[i].1).wf()
    }

    spec fn view(&self) -> Map<nat, NounS> {
        dcache_map(self.entries@)
    }

    fn new() -> (r: DCache)
        ensures
            r.wf(),
            r.view() == Map::<nat, NounS>::empty(),
    {
        let r = DCache { entries: Vec::new() };
        proof {
            assert(r.entries@.len() == 0);
        }
        r
    }

    fn lookup(&self, q: u64) -> (r: Option<Rc<Noun>>)
        requires
            self.wf(),
        ensures
            match r {
                Some(n) => self.view().dom().contains(q as nat) && n@ == self.view()[q as nat]
                    && (*n).wf(),
                None => !self.view().dom().contains(q as nat),
            },
    {
        let mut i = self.entries.len();
        while i > 0
            invariant
                self.wf(),
                i <= self.entries@.len(),
                forall|j: int|
                    i <= j < self.entries@.len() ==> #[trigger] self.entries@[j].0 != q,
            decreases i,
        {
            i = i - 1;
            if self.entries[i].0 == q {
                proof {
                    lemma_dcache_suffix(self.entries@, q as nat, i as int + 1);
                    assert(self.entries@.take(i as int + 1).last() == self.entries@[i as int]);
                    assert(self.entries@.take(i as int + 1).drop_last() =~= self.entries@.take(
                        i as int,
                    ));
                }
                return Some(Rc::clone(&self.entries[i].1));
            }
        }
        proof {
            lemma_dcache_suffix(self.entries@, q as nat, 0);
            assert(self.entries@.take(0) =~= Seq::<(u64, Rc<Noun>)>::empty());
        }
        None
    }

    fn insert(&mut self, q: u64, n: Rc<Noun>)
        requires
            old(self).wf(),
            (*n).wf(),
        ensures
            final(self).wf(),
            final(self).view() == old(self).view().insert(q as nat, n@),
    {
        self.entries.push((q, n));
        proof {
            assert(self.entries@.drop_last() =~= old(self).entries@);
        }
    }
}

/// The minimum number of bits representing a 64-bit value.
fn u64_min_bits(v: u64) -> (r: usize)
    ensures
        r == min_bits(v as nat),
        r <= 64,
{
    proof {
        vstd::arithmetic::power2::lemma2_to64();
        crate::bits::lemma_min_bits_le(v as nat, 64);
    }
    let mut x: u64 = v;
    let mut r: usize = 0;
    while x != 0
        invariant
            min_bits(v as nat) == r + min_bits(x as nat),
            min_bits(v as nat) <= 64,
        decreases x,
    {
        proof {
            assert(min_bits(x as nat) == 1 + min_bits((x as nat) / 2));
            assert((x as nat) / 2 == (x / 2) as nat);
        }
        x = x / 2;
        r = r + 1;
    }
    r
}

/// Writes the encoding of a length into the builder.
fn encode_len(len: u64, bits: &mut Builder)
    requires
        old(bits).wf(),
        old(bits)@.len() + 130 <= usize::MAX - 8,
    ensures
        final(bits).wf(),
        final(bits)@ == old(bits)@ + enc_len(len as nat),
{
    proof {
        lemma_enc_len_len(len as nat);
        crate::bits::lemma_bits_of_nat_len(len as nat);
        crate::bits::lemma_bits_of_nat_canonical(len as nat);
    }
    let ghost start = bits@;
    let mb = u64_min_bits(len);
    // The unary prefix: one clear bit per bit of the length.
    let mut i: usize = 0;
    while i < mb
        invariant
            bits.wf(),
            i <= mb,
            mb == min_bits(len as nat) <= 64,
            bits@ == start + zeros(i as nat),
            bits@.len() == start.len() + i,
            start.len() + 130 <= usize::MAX - 8,
        decreases mb - i,
    {
        bits.push_bit(false);
        i = i + 1;
        proof {
            assert(bits@ =~= start + zeros(i as nat));
        }
    }
    // The stop bit.
    bits.push_bit(true);
    if len == 0 {
        proof {
            assert(zeros(0) =~= Seq::<bool>::empty());
            assert(bits@ =~= start + enc_len(len as nat));
        }
        return ;
    }
    let ghost mid = bits@;
    // The bits of the length, least significant first, leading set bit
    // omitted.
    let mut m: u64 = len;
    while m != 1
        invariant
            bits.wf(),
            m >= 1,
            mid.len() <= bits@.len(),
            bits@.take(mid.len() as int) == mid,
            bits_of_nat(len as nat) == bits@.skip(mid.len() as int) + bits_of_nat(m as nat),
            bits_of_nat(len as nat).len() <= 64,
            bits@.len() <= mid.len() + 64,
            mid.len() <= start.len() + 65,
            start.len() + 130 <= usize::MAX - 8,
            mid == start + zeros(min_bits(len as nat)) + seq![true],
        decreases m,
    {
        let b = m % 2 == 1;
        let ghost before = bits@;
        proof {
            assert(bits_of_nat(m as nat) == seq![m as nat % 2 == 1] + bits_of_nat((m as nat) / 2));
            assert((m as nat) / 2 == (m / 2) as nat);
            assert(bits@.skip(mid.len() as int).len() < bits_of_nat(len as nat).len());
        }
        bits.push_bit(b);
        m = m / 2;
        proof {
            assert(bits@.take(mid.len() as int) =~= mid);
            assert(bits@.skip(mid.len() as int) =~= before.skip(mid.len() as int).push(b));
            assert(before.skip(mid.len() as int).push(b) + bits_of_nat(m as nat) =~= before.skip(
                mid.len() as int,
            ) + (seq![b] + bits_of_nat(m as nat)));
        }
    }
    proof {
        let pushed = bits@.skip(mid.len() as int);
        assert(bits_of_nat(1nat) =~= seq![true] + bits_of_nat(0nat));
        assert(bits_of_nat(1nat) =~= seq![true]);
        assert(bits_of_nat(len as nat) == pushed + seq![true]);
        assert(pushed =~= bits_of_nat(len as nat).drop_last());
        assert(bits@ =~= mid + pushed);
        assert(bits@ =~= start + enc_len(len as nat));
    }
}

/// Writes an atom's payload — its length, then its bits — into the
/// builder.
fn encode_atom_body(a: &Atom, bits: &mut Builder)
    requires
        a.wf(),
        old(bits).wf(),
        old(bits)@.len() + 130 + a@.len() <= usize::MAX - 8,
    ensures
        final(bits).wf(),
        final(bits)@ == old(bits)@ + enc_atom_tail(a@),
{
    let ghost start = bits@;
    proof {
        lemma_enc_len_len(a@.len());
        vstd::arithmetic::power2::lemma2_to64();
        crate::bits::lemma_min_bits_le(a@.len(), 64);
    }
    let len = a.bit_len();
    encode_len(len as u64, bits);
    let ghost mid = bits@;
    let mut i: usize = 0;
    while i < len
        invariant
            a.wf(),
            bits.wf(),
            i <= len,
            len == a@.len(),
            bits@ == mid + a@.take(i as int),
            mid == start + enc_len(a@.len()),
            mid.len() + a@.len() <= usize::MAX - 8,
        decreases len - i,
    {
        let b = a.bit(i);
        bits.push_bit(b);
        i = i + 1;
        proof {
            assert(bits@ =~= mid + a@.take(i as int));
        }
    }
    proof {
        assert(a@.take(len as int) =~= a@);
        assert(bits@ =~= start + enc_atom_tail(a@));
    }
}

/// Encodes one noun into the builder, deduplicating already-encoded
/// subtrees through the cache, exactly as [`jam_s`] describes.
fn encode(noun: &Rc<Noun>, bits: &mut Builder, cache: &mut JCache)
    requires
        (**noun).wf(),
        old(bits).wf(),
        old(cache).wf(),
        old(bits)@.len() + jam_s(noun@, old(bits)@.len() as nat, old(cache).view()).0.len() + 140
            <= usize::MAX,
    ensures
        final(bits).wf(),
        final(cache).wf(),
        final(bits)@ == old(bits)@ + jam_s(noun@, old(bits)@.len() as nat, old(cache).view()).0,
        final(cache).view() == jam_s(noun@, old(bits)@.len() as nat, old(cache).view()).1,
    decreases **noun,
{
    let ghost p = bits@.len() as nat;
    let ghost c0 = cache.view();
    let ghost enc = jam_s(noun@, p, c0);
    let pos = bits.pos();
    let cached = cache.lookup(&**noun);
    match cached {
        Some(idx) => {
            let ghost q = c0[noun@];
            proof {
                lemma_enc_len_len(min_bits(q));
                crate::bits::lemma_bits_of_nat_len(q);
                vstd::arithmetic::power2::lemma2_to64();
                crate::bits::lemma_min_bits_le(q, 64);
            }
            if let Noun::Atom(atom) = &**noun {
                let abl = atom.bit_len();
                let ibl = u64_min_bits(idx);
                if abl <= ibl {
                    // The inline encoding is no longer than the
                    // back-reference would be.
                    proof {
                        lemma_enc_len_len(atom@.len());
                    }
                    bits.push_bit(false);
                    encode_atom_body(atom, bits);
                    proof {
                        assert(bits@ =~= old(bits)@ + (seq![false] + enc_atom_tail(atom@)));
                        assert(noun@.bits_s() == atom@);
                        assert(enc.0 == seq![false] + enc_atom_tail(atom@));
                    }
                    return ;
                }
            }
            bits.push_bit(true);
            bits.push_bit(true);
            let idx_atom = Atom::from_u64(idx);
            encode_atom_body(&idx_atom, bits);
            proof {
                assert(idx_atom@ == bits_of_nat(q));
                assert(bits@ =~= old(bits)@ + (seq![true, true] + enc_atom_tail(bits_of_nat(q))));
                assert(enc.0 == seq![true, true] + enc_atom_tail(bits_of_nat(q)));
            }
        },
        None => {
            cache.insert(Rc::clone(noun), pos as u64);
            let ghost c1 = c0.insert(noun@, p);
            proof {
                assert(cache.view() == c1);
            }
            match &**noun {
                Noun::Atom(atom) => {
                    proof {
                        lemma_enc_len_len(atom@.len());
                        assert(enc.0 == seq![false] + enc_atom_tail(atom@));
                    }
                    bits.push_bit(false);
                    encode_atom_body(atom, bits);
                    proof {
                        assert(bits@ =~= old(bits)@ + (seq![false] + enc_atom_tail(atom@)));
                    }
                },
                Noun::Cell(cell) => {
                    proof {
                        assert(noun@ == (NounS::Cell {
                            head: Box::new(cell.head@),
                            tail: Box::new(cell.tail@),
                        }));
                    }
                    let ghost henc = jam_s(cell.head@, p + 2, c1);
                    let ghost tenc = jam_s(cell.tail@, p + 2 + henc.0.len(), henc.1);
                    proof {
                        assert(enc.0 == seq![true, false] + henc.0 + tenc.0);
                        assert(enc.1 == tenc.1);
                    }
                    bits.push_bit(true);
                    bits.push_bit(false);
                    encode(&cell.head, bits, cache);
                    proof {
                        assert(bits@ =~= old(bits)@ + seq![true, false] + henc.0);
                    }
                    encode(&cell.tail, bits, cache);
                    proof {
                        assert(bits@ =~= old(bits)@ + (seq![true, false] + henc.0 + tenc.0));
                    }
                },
            }
        },
    }
}

/// Reads a length prefix from the atom's bits, returning the length and
/// the position after it, exactly as [`dec_len`] describes.
fn decode_len(a: &Atom, pos: usize) -> (r: Result<(u64, usize), Error>)
    requires
        a.wf(),
        pos <= a@.len(),
    ensures
        match r {
            Ok((l, p1)) => dec_len(a@, pos as nat) == Ok::<(nat, nat), Error>(
                (l as nat, p1 as nat),
            ) && pos < p1 <= a@.len(),
            Err(e) => dec_len(a@, pos as nat) == Err::<(nat, nat), Error>(e),
        },
{
    let len = a.bit_len();
    // Count the unary prefix of clear bits.
    let mut p = pos;
    let mut z: usize = 0;
    while p < len && !a.bit(p)
        invariant
            a.wf(),
            pos <= p <= len,
            len == a@.len(),
            z == p - pos,
            count_zeros(a@, pos as nat) == (match count_zeros(a@, p as nat) {
                Ok(k) => Ok((k + z) as nat),
                Err(e) => Err::<nat, Error>(e),
            }),
        decreases len - p,
    {
        p = p + 1;
        z = z + 1;
    }
    if p == len {
        return Err(Error::InvalidLen);
    }
    proof {
        assert(count_zeros(a@, pos as nat) == Ok::<nat, Error>(z as nat));
    }
    if z >= 64 {
        return Err(Error::InvalidLen);
    }
    let start = p + 1;
    if z == 0 {
        return Ok((0, start));
    }
    if len - start < z - 1 {
        return Err(Error::InvalidLen);
    }
    proof {
        vstd::arithmetic::power2::lemma2_to64();
        vstd::arithmetic::power2::lemma2_to64_rest();
    }
    let mut low: u64 = 0;
    let mut pw: u64 = 1;
    let mut i: usize = 0;
    while i < z - 1
        invariant
            a.wf(),
            len == a@.len(),
            1 <= z < 64,
            i <= z - 1,
            start + z - 1 <= len,
            low as nat == bits_value(a@.subrange(start as int, start as int + i as int)),
            pw as nat == vstd::arithmetic::power2::pow2(i as nat),
            pw <= 0x4000000000000000u64,
        decreases z - 1 - i,
    {
        let ghost sub = a@.subrange(start as int, start as int + i as int);
        proof {
            crate::bits::lemma_bits_value_bound(sub);
            vstd::arithmetic::power2::lemma2_to64();
            vstd::arithmetic::power2::lemma2_to64_rest();
        }
        let b = a.bit(start + i);
        if b {
            low = low + pw;
        }
        proof {
            assert(a@.subrange(start as int, start as int + i as int + 1) =~= sub.push(
                a@[start as int + i as int],
            ));
            crate::bits::lemma_bits_value_append(sub, b);
            vstd::arithmetic::power2::lemma_pow2_unfold((i + 1) as nat);
            assert(vstd::arithmetic::power2::pow2((i + 1) as nat)
                <= vstd::arithmetic::power2::pow2(62)) by {
                if i + 1 < 62 {
                    vstd::arithmetic::power2::lemma_pow2_strictly_increases((i + 1) as nat, 62);
                }
            }
        }
        pw = pw * 2;
        i = i + 1;
    }
    proof {
        crate::bits::lemma_bits_value_bound(
            a@.subrange(start as int, start as int + (z - 1) as int),
        );
    }
    let l = low + pw;
    Ok((l, start + (z - 1)))
}

/// Reads an atom — length prefix, then payload — from the stream,
/// exactly as [`dec_atom_tail`] describes.  The produced atom's bit
/// length is the decoded length, whatever its final bits are.
fn decode_atom_body(a: &Atom, pos: usize) -> (r: Result<(Atom, usize), Error>)
    requires
        a.wf(),
        pos <= a@.len(),
        a@.len() < usize::MAX - 8,
    ensures
        match r {
            Ok((at, p2)) => dec_atom_tail(a@, pos as nat) == Ok::<(Seq<bool>, nat), Error>(
                (at@, p2 as nat),
            ) && at.wf() && pos < p2 <= a@.len(),
            Err(e) => dec_atom_tail(a@, pos as nat) == Err::<(Seq<bool>, nat), Error>(e),
        },
{
    match decode_len(a, pos) {
        Err(e) => Err(e),
        Ok((l, p1)) => {
            let len = a.bit_len();
            if l > ((len - p1) as u64) {
                return Err(Error::AtomBuilding);
            }
            let l_us = l as usize;
            let mut bld = Builder::new();
            let mut i: usize = 0;
            proof {
                assert(bld@ =~= a@.subrange(p1 as int, p1 as int));
            }
            while i < l_us
                invariant
                    a.wf(),
                    bld.wf(),
                    i <= l_us,
                    p1 + l_us <= a@.len(),
                    a@.len() < usize::MAX - 8,
                    bld@ == a@.subrange(p1 as int, p1 as int + i as int),
                decreases l_us - i,
            {
                let b = a.bit(p1 + i);
                bld.push_bit(b);
                i = i + 1;
                proof {
                    assert(bld@ =~= a@.subrange(p1 as int, p1 as int + i as int));
                }
            }
            let at = bld.into_atom();
            Ok((at, p1 + l_us))
        },
    }
}

/// Decodes one noun at the given position, resolving back-references
/// through the cache, exactly as [`cue_s`] describes under any
/// sufficiently large fuel.
fn decode(a: &Atom, pos: usize, cache: &mut DCache) -> (r: Result<(Rc<Noun>, usize), Error>)
    requires
        a.wf(),
        pos <= a@.len(),
        a@.len() < usize::MAX - 8,
        old(cache).wf(),
    ensures
        final(cache).wf(),
        ({
            let res = cue_s(
                a@,
                pos as nat,
                old(cache).view(),
                (a@.len() - pos + 1) as nat,
            );
            match r {
                Ok((n, p2)) => res == Ok::<(NounS, nat, Map<nat, NounS>), Error>(
                    (n@, p2 as nat, final(cache).view()),
                ) && (*n).wf() && pos < p2 <= a@.len(),
                Err(e) => res == Err::<(NounS, nat, Map<nat, NounS>), Error>(e),
            }
        }),
    decreases a@.len() - pos,
{
    let ghost fuel = (a@.len() - pos + 1) as nat;
    let ghost c0 = cache.view();
    let len = a.bit_len();
    if pos == len {
        return Err(Error::InvalidTag);
    }
    if !a.bit(pos) {
        // Atom tag `0`.
        match decode_atom_body(a, pos + 1) {
            Err(e) => Err(e),
            Ok((at, p2)) => {
                let n = Rc::new(Noun::Atom(at));
                cache.insert(pos as u64, Rc::clone(&n));
                Ok((n, p2))
            },
        }
    } else {
        if pos + 1 == len {
            return Err(Error::InvalidTag);
        }
        if !a.bit(pos + 1) {
            // Cell tag `10`.
            let ph = pos + 2;
            match decode(a, ph, cache) {
                Err(e) => {
                    proof {
                        lemma_cue_s_fuel(a@, ph as nat, c0, (a@.len() - ph + 1) as nat, (
                        fuel - 1) as nat);
                    }
                    Err(e)
                },
                Ok((h, pt)) => {
                    proof {
                        lemma_cue_s_fuel(a@, ph as nat, c0, (a@.len() - ph + 1) as nat, (
                        fuel - 1) as nat);
                    }
                    cache.insert(ph as u64, Rc::clone(&h));
                    let ghost c1 = cache.view();
                    match decode(a, pt, cache) {
                        Err(e) => {
                            proof {
                                lemma_cue_s_fuel(
                                    a@,
                                    pt as nat,
                                    c1,
                                    (a@.len() - pt + 1) as nat,
                                    (fuel - 1) as nat,
                                );
                            }
                            Err(e)
                        },
                        Ok((t, p3)) => {
                            proof {
                                lemma_cue_s_fuel(
                                    a@,
                                    pt as nat,
                                    c1,
                                    (a@.len() - pt + 1) as nat,
                                    (fuel - 1) as nat,
                                );
                            }
                            cache.insert(pt as u64, Rc::clone(&t));
                            let cell = Cell::new(h, t);
                            Ok((cell.into_noun_ptr(), p3))
                        },
                    }
                },
            }
        } else {
            // Back-reference tag `11`.
            match decode_atom_body(a, pos + 2) {
                Err(e) => Err(e),
                Ok((idx_atom, p2)) => {
                    match idx_atom.as_u64() {
                        None => {
                            proof {
                                lemma_backref_width(&idx_atom);
                            }
                            Err(Error::InvalidBackref)
                        },
                        Some(q) => {
                            proof {
                                lemma_backref_width(&idx_atom);
                            }
                            match cache.lookup(q) {
                                Some(n) => Ok((n, p2)),
                                None => Err(Error::CacheMiss),
                            }
                        },
                    }
                },
            }
        }
    }
}

/// A well-formed atom is at most eight bytes long exactly when it is at
/// most 64 bits long.
proof fn lemma_backref_width(a: &Atom)
    requires
        a.wf(),
    ensures
        (a.bytes_view().len() <= 8) == (a@.len() <= 64),
{
}

impl Noun {
    /// Serializes ("jams") this noun, returning the bitstream as an atom.
    ///
    /// The one bound is the machine's: the encoded stream must fit in an
    /// addressable byte buffer.
    pub fn jam(self) -> (r: Atom)
        requires
            self.wf(),
            jam_spec(self@).len() + 140 <= usize::MAX,
        ensures
            r.wf(),
            r@ == jam_spec(self@),
    {
        let noun = Rc::new(self);
        let mut bits = Builder::new();
        let mut cache = JCache::new();
        encode(&noun, &mut bits, &mut cache);
        bits.into_atom()
    }
}

impl Noun {
    /// Deserializes ("cues") a jammed noun — a bitstream represented as
    /// an atom — returning the noun it encodes, or the error that makes
    /// the stream malformed.
    pub fn cue(jammed_noun: Atom) -> (r: Result<Noun, Error>)
        requires
            jammed_noun.wf(),
            jammed_noun@.len() < usize::MAX - 8,
        ensures
            match r {
                Ok(n) => n.wf() && cue_spec(jammed_noun@) == Ok::<NounS, Error>(n@),
                Err(e) => cue_spec(jammed_noun@) == Err::<NounS, Error>(e),
            },
    {
        let mut cache = DCache::new();
        match decode(&jammed_noun, 0, &mut cache) {
            Err(e) => Err(e),
            Ok((n, _p)) => match Rc::try_unwrap(n) {
                Ok(noun) => Ok(noun),
                Err(rc) => Ok((*rc).clone()),
            },
        }
    }
}

/// Looking a key up in a decoder cache map ignores entries that do not
/// hold that key.
proof fn lemma_dcache_suffix(s: Seq<(u64, Rc<Noun>)>, k: nat, i: int)
    requires
        0 <= i <= s.len(),
        forall|j: int| i <= j < s.len() ==> #[trigger] s[j].0 as nat != k,
    ensures
        dcache_map(s).dom().contains(k) == dcache_map(s.take(i)).dom().contains(k),
        dcache_map(s).dom().contains(k) ==> dcache_map(s)[k] == dcache_map(s.take(i))[k],
    decreases s.len() - i,
{
    if i == s.len() {
        assert(s.take(i) =~= s);
    } else {
        assert(s.last().0 as nat != k);
        lemma_dcache_suffix(s.drop_last(), k, i);
        assert(s.drop_last().take(i) =~= s.take(i));
    }
}

} // verus!
