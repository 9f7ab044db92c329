//! The laws of the codec: the length codec inverts itself, the decoder
//! inverts the encoder, structural equality matches the share-free
//! encoding, and the encoder's back-reference policy never loses bits.

use crate::bits::{bits_of_nat, bits_value, min_bits};
use crate::noun::{size_s, NounS};
use crate::serdes::{
    count_zeros, cue_s, cue_spec, dec_atom_tail, dec_len, enc_atom_tail, enc_len, jam_s, jam_spec,
    zeros, Error,
};
use vstd::prelude::*;

verus! {

/// `sub` occurs strictly inside `sup`.
pub open spec fn strict_sub(sub: NounS, sup: NounS) -> bool
    decreases sup,
{
    match sup {
        NounS::Atom { .. } => false,
        NounS::Cell { head, tail } => sub == *head || sub == *tail || strict_sub(sub, *head)
            || strict_sub(sub, *tail),
    }
}

/// A strict subterm is strictly smaller, so nothing is a strict subterm
/// of itself.
pub proof fn lemma_strict_sub_size(sub: NounS, sup: NounS)
    requires
        strict_sub(sub, sup),
    ensures
        size_s(sub) < size_s(sup),
        sub != sup,
    decreases sup,
{
    match sup {
        NounS::Atom { .. } => {},
        NounS::Cell { head, tail } => {
            if sub == *head || sub == *tail {
            } else if strict_sub(sub, *head) {
                lemma_strict_sub_size(sub, *head);
            } else {
                lemma_strict_sub_size(sub, *tail);
            }
        },
    }
}

/// The strict-subterm relation is transitive.
pub proof fn lemma_strict_sub_trans(a: NounS, b: NounS, c: NounS)
    requires
        strict_sub(a, b),
        strict_sub(b, c),
    ensures
        strict_sub(a, c),
    decreases c,
{
    match c {
        NounS::Atom { .. } => {},
        NounS::Cell { head, tail } => {
            if b == *head {
            } else if b == *tail {
            } else if strict_sub(b, *head) {
                lemma_strict_sub_trans(a, b, *head);
            } else {
                lemma_strict_sub_trans(a, b, *tail);
            }
        },
    }
}

/// Every atom of the noun fits the 64-bit length register: its bit
/// length is below `2^63`.
pub open spec fn sizes_ok(n: NounS) -> bool
    decreases n,
{
    match n {
        NounS::Atom { bits } => bits.len() < vstd::arithmetic::power2::pow2(63),
        NounS::Cell { head, tail } => sizes_ok(*head) && sizes_ok(*tail),
    }
}

/// A stream that begins with `z` clear bits and then a set bit counts
/// exactly `z` zeros.
pub proof fn lemma_count_zeros_intro(s: Seq<bool>, p: nat, z: nat)
    requires
        p + z < s.len(),
        forall|i: int| p <= i < p + z ==> !s[i],
        s[(p + z) as int],
    ensures
        count_zeros(s, p) == Ok::<nat, Error>(z),
    decreases z,
{
    if z == 0 {
    } else {
        lemma_count_zeros_intro(s, p + 1, (z - 1) as nat);
    }
}

/// Decoding a stream window that holds an encoded length yields that
/// length and stops right after it: the length codec inverts itself.
pub proof fn lemma_dec_enc_len(s: Seq<bool>, p: nat, l: nat)
    requires
        min_bits(l) < 64,
        p + enc_len(l).len() <= s.len(),
        forall|i: int| 0 <= i < enc_len(l).len() ==> s[p + i] == enc_len(l)[i],
    ensures
        dec_len(s, p) == Ok::<(nat, nat), Error>((l, p + enc_len(l).len())),
{
    let mb = min_bits(l);
    crate::serdes::lemma_enc_len_len(l);
    crate::bits::lemma_bits_of_nat_len(l);
    if l == 0 {
        assert(s[p as int] == enc_len(0)[0]);
        assert(enc_len(0)[0]);
        lemma_count_zeros_intro(s, p, 0);
    } else {
        let e = enc_len(l);
        assert(forall|i: int| 0 <= i < mb ==> e[i] == zeros(mb)[i]);
        assert(e[mb as int] == (zeros(mb) + seq![true])[mb as int]);
        assert(e[mb as int]);
        assert(forall|i: int| p <= i < p + mb ==> !s[i]) by {
            assert(forall|i: int| p <= i < p + mb ==> s[i] == e[i - p]);
        }
        assert(s[(p + mb) as int]);
        lemma_count_zeros_intro(s, p, mb);
        let start = p + mb + 1;
        let stop = (start + mb - 1) as nat;
        assert(stop == p + e.len());
        let low = bits_of_nat(l).drop_last();
        assert(s.subrange(start as int, stop as int) =~= low) by {
            assert(forall|i: int|
                0 <= i < mb - 1 ==> s[start + i] == e[mb + 1 + i] && e[mb + 1 + i] == low[i]);
        }
        crate::bits::lemma_bits_of_nat_canonical(l);
        crate::bits::lemma_bits_of_nat_value(l);
        assert(bits_of_nat(l) =~= low.push(true));
        crate::bits::lemma_bits_value_append(low, true);
        assert(bits_value(low) + vstd::arithmetic::power2::pow2((mb - 1) as nat) == l);
    }
}

/// Decoding a stream window that holds an encoded atom payload yields
/// exactly the atom's bits and stops right after them.
pub proof fn lemma_dec_enc_atom_tail(s: Seq<bool>, p: nat, bits: Seq<bool>)
    requires
        bits.len() < vstd::arithmetic::power2::pow2(63),
        p + enc_atom_tail(bits).len() <= s.len(),
        forall|i: int| 0 <= i < enc_atom_tail(bits).len() ==> s[p + i] == enc_atom_tail(bits)[i],
    ensures
        dec_atom_tail(s, p) == Ok::<(Seq<bool>, nat), Error>(
            (bits, p + enc_atom_tail(bits).len()),
        ),
{
    let l = bits.len();
    let e = enc_len(l);
    let ea = enc_atom_tail(bits);
    assert(min_bits(l) < 64) by {
        vstd::arithmetic::power2::lemma2_to64();
        vstd::arithmetic::power2::lemma_pow2_adds(63, 1);
        crate::bits::lemma_min_bits_le(l, 63);
    }
    assert(forall|i: int| 0 <= i < e.len() ==> s[p + i] == ea[i] && ea[i] == e[i]);
    lemma_dec_enc_len(s, p, l);
    let p1 = p + e.len();
    assert(s.subrange(p1 as int, (p1 + l) as int) =~= bits) by {
        assert(forall|i: int|
            0 <= i < l ==> s[p1 + i] == ea[e.len() + i] && ea[e.len() + i] == bits[i]);
    }
}

/// Whatever the encoder emits is at least one bit long.
pub proof fn lemma_jam_s_len_pos(n: NounS, p: nat, c: Map<NounS, nat>)
    ensures
        jam_s(n, p, c).0.len() >= 1,
{
    if c.dom().contains(n) {
    } else {
        match n {
            NounS::Atom { .. } => {},
            NounS::Cell { .. } => {},
        }
    }
}

/// The encoder's cache only grows, and keeps its entries.
pub proof fn lemma_jam_s_cache_mono(n: NounS, p: nat, c: Map<NounS, nat>)
    ensures
        forall|m: NounS| #[trigger] c.dom().contains(m) ==> jam_s(n, p, c).1.dom().contains(m)
            && jam_s(n, p, c).1[m] == c[m],
    decreases n,
{
    if c.dom().contains(n) {
    } else {
        let c1 = c.insert(n, p);
        match n {
            NounS::Atom { .. } => {},
            NounS::Cell { head, tail } => {
                let henc = jam_s(*head, p + 2, c1);
                lemma_jam_s_cache_mono(*head, p + 2, c1);
                lemma_jam_s_cache_mono(*tail, p + 2 + henc.0.len(), henc.1);
                assert forall|m: NounS| #[trigger] c.dom().contains(m) implies jam_s(
                    n,
                    p,
                    c,
                ).1.dom().contains(m) && jam_s(n, p, c).1[m] == c[m] by {
                    assert(c1.dom().contains(m) && c1[m] == c[m]);
                    assert(henc.1.dom().contains(m) && henc.1[m] == c[m]);
                    let tenc = jam_s(*tail, p + 2 + henc.0.len(), henc.1);
                    assert(tenc.1.dom().contains(m) && tenc.1[m] == c[m]);
                }
            },
        }
    }
}

/// The decoder inverts the encoder.  If a window of the stream holds the
/// encoding of `n` under the encoder cache `ce`, and the decoder cache
/// `cd` holds, at each cached position, the noun the encoder first wrote
/// there — except for the nouns in `open`, whose encodings are still
/// being written around this window — then decoding that window yields
/// `n` back, and the caches stay in step.
#[verifier::rlimit(100)]
pub proof fn lemma_cue_inverts_jam(
    n: NounS,
    p: nat,
    ce: Map<NounS, nat>,
    cd: Map<nat, NounS>,
    s: Seq<bool>,
    open: Map<NounS, nat>,
    fuel: nat,
) -> (cdo: Map<nat, NounS>)
    requires
        sizes_ok(n),
        s.len() <= vstd::arithmetic::power2::pow2(64),
        forall|m: NounS| #[trigger] ce.dom().contains(m) ==> ce[m] < s.len(),
        p + jam_s(n, p, ce).0.len() <= s.len(),
        forall|i: int|
            0 <= i < jam_s(n, p, ce).0.len() ==> s[p + i] == #[trigger] jam_s(n, p, ce).0[i],
        fuel >= s.len() - p + 1,
        forall|k: nat| #[trigger] cd.dom().contains(k) ==> k < p,
        forall|m: NounS| #[trigger] open.dom().contains(m) ==> strict_sub(n, m),
        forall|m: NounS| #[trigger] open.dom().contains(m) ==> ce.dom().contains(m) && ce[m]
            == open[m],
        forall|m: NounS| #[trigger] ce.dom().contains(m) ==> (open.dom().contains(m) && open[m]
            == ce[m]) || (cd.dom().contains(ce[m]) && cd[ce[m]] == m),
    ensures
        cue_s(s, p, cd, fuel) == Ok::<(NounS, nat, Map<nat, NounS>), Error>(
            (n, p + jam_s(n, p, ce).0.len(), cdo),
        ),
        forall|k: nat| #[trigger] cd.dom().contains(k) ==> cdo.dom().contains(k) && cdo[k]
            == cd[k],
        forall|k: nat| #[trigger] cdo.dom().contains(k) ==> cd.dom().contains(k) || (p <= k < p
            + jam_s(n, p, ce).0.len()),
        cdo.dom().contains(p) ==> cdo[p] == n,
        forall|m: NounS| #[trigger] jam_s(n, p, ce).1.dom().contains(m) ==> {
            let q = jam_s(n, p, ce).1[m];
            (open.dom().contains(m) && open[m] == q) || (cdo.dom().contains(q) && cdo[q] == m)
                || (m == n && q == p && !ce.dom().contains(n))
        },
        forall|m: NounS| #[trigger] jam_s(n, p, ce).1.dom().contains(m) ==> jam_s(n, p, ce).1[m]
            < s.len(),
    decreases size_s(n),
{
    let enc = jam_s(n, p, ce);
    let bl = enc.0.len();
    lemma_jam_s_len_pos(n, p, ce);
    assert(p < s.len());
    assert(fuel >= 1);
    if ce.dom().contains(n) {
        let q = ce[n];
        assert(!open.dom().contains(n)) by {
            if open.dom().contains(n) {
                lemma_strict_sub_size(n, n);
            }
        }
        assert(cd.dom().contains(q) && cd[q] == n);
        if n is Atom && n.bits_s().len() <= min_bits(q) {
            // The cached atom was re-emitted inline.
            let bits = n.bits_s();
            let eat = enc_atom_tail(bits);
            assert(enc.0 == seq![false] + eat);
            assert(!s[p as int]) by {
                assert(s[p as int + 0] == enc.0[0]);
            }
            assert(forall|i: int| 0 <= i < eat.len() ==> s[p + 1 + i] == eat[i]) by {
                assert(forall|i: int|
                    0 <= i < eat.len() ==> s[p + (1 + i)] == enc.0[1 + i] && enc.0[1 + i]
                        == eat[i]);
            }
            lemma_dec_enc_atom_tail(s, p + 1, bits);
            let cdo = cd.insert(p, n);
            assert(n == (NounS::Atom { bits }));
            assert(cue_s(s, p, cd, fuel) == Ok::<(NounS, nat, Map<nat, NounS>), Error>(
                (n, p + bl, cdo),
            ));
            cdo
        } else {
            // The cached noun became a back-reference.
            let qb = bits_of_nat(q);
            let eat = enc_atom_tail(qb);
            assert(enc.0 == seq![true, true] + eat);
            assert(s[p as int] && s[p as int + 1]) by {
                assert(s[p as int + 0] == enc.0[0]);
                assert(s[p as int + 1] == enc.0[1]);
            }
            assert(qb.len() <= 64) by {
                crate::bits::lemma_bits_of_nat_len(q);
                vstd::arithmetic::power2::lemma2_to64();
                crate::bits::lemma_min_bits_le(q, 64);
            }
            assert(qb.len() < vstd::arithmetic::power2::pow2(63)) by {
                vstd::arithmetic::power2::lemma2_to64();
                vstd::arithmetic::power2::lemma_pow2_adds(32, 31);
            }
            assert(forall|i: int| 0 <= i < eat.len() ==> s[p + 2 + i] == eat[i]) by {
                assert(forall|i: int|
                    0 <= i < eat.len() ==> s[p + (2 + i)] == enc.0[2 + i] && enc.0[2 + i]
                        == eat[i]);
            }
            lemma_dec_enc_atom_tail(s, p + 2, qb);
            crate::bits::lemma_bits_of_nat_value(q);
            assert(cue_s(s, p, cd, fuel) == Ok::<(NounS, nat, Map<nat, NounS>), Error>(
                (n, p + bl, cd),
            ));
            cd
        }
    } else {
        let ce1 = ce.insert(n, p);
        match n {
            NounS::Atom { bits } => {
                let eat = enc_atom_tail(bits);
                assert(enc.0 == seq![false] + eat);
                assert(!s[p as int]) by {
                    assert(s[p as int + 0] == enc.0[0]);
                }
                assert(forall|i: int| 0 <= i < eat.len() ==> s[p + 1 + i] == eat[i]) by {
                    assert(forall|i: int|
                        0 <= i < eat.len() ==> s[p + (1 + i)] == enc.0[1 + i] && enc.0[1 + i]
                            == eat[i]);
                }
                lemma_dec_enc_atom_tail(s, p + 1, bits);
                let cdo = cd.insert(p, n);
                assert(cue_s(s, p, cd, fuel) == Ok::<(NounS, nat, Map<nat, NounS>), Error>(
                    (n, p + bl, cdo),
                ));
                cdo
            },
            NounS::Cell { head, tail } => {
                let henc = jam_s(*head, p + 2, ce1);
                let hl = henc.0.len();
                let tenc = jam_s(*tail, p + 2 + hl, henc.1);
                let tl = tenc.0.len();
                assert(enc.0 == seq![true, false] + henc.0 + tenc.0);
                assert(enc.1 == tenc.1);
                assert(bl == 2 + hl + tl);
                assert(s[p as int] && !s[p as int + 1]) by {
                    assert(s[p as int + 0] == enc.0[0]);
                    assert(s[p as int + 1] == enc.0[1]);
                }
                let ph = p + 2;
                let pt = ph + hl;
                let open1 = open.insert(n, p);
                assert(strict_sub(*head, n));
                assert(strict_sub(*tail, n));
                lemma_strict_sub_size(*head, n);
                lemma_strict_sub_size(*tail, n);
                // The head's window.
                assert(forall|i: int| 0 <= i < hl ==> s[ph + i] == henc.0[i]) by {
                    assert(forall|i: int|
                        0 <= i < hl ==> s[p + (2 + i)] == enc.0[2 + i] && enc.0[2 + i]
                            == henc.0[i]);
                }
                // Requirements of the head's call.
                assert(forall|m: NounS| #[trigger] ce1.dom().contains(m) ==> ce1[m] < s.len());
                assert(forall|m: NounS| #[trigger] open1.dom().contains(m) ==> strict_sub(
                    *head,
                    m,
                )) by {
                    assert forall|m: NounS| #[trigger] open1.dom().contains(m) implies strict_sub(
                        *head,
                        m,
                    ) by {
                        if m != n {
                            lemma_strict_sub_trans(*head, n, m);
                        }
                    }
                }
                let cdo1 = lemma_cue_inverts_jam(
                    *head,
                    ph,
                    ce1,
                    cd,
                    s,
                    open1,
                    (fuel - 1) as nat,
                );
                let cd1 = cdo1.insert(ph, *head);
                assert(forall|k: nat| #[trigger] cdo1.dom().contains(k) ==> cd1.dom().contains(k)
                    && cd1[k] == cdo1[k]) by {
                    assert(cdo1.dom().contains(ph) ==> cdo1[ph] == *head);
                }
                // The tail's window.
                assert(forall|i: int| 0 <= i < tl ==> s[pt + i] == tenc.0[i]) by {
                    assert(forall|i: int|
                        0 <= i < tl ==> s[p + (2 + hl + i)] == enc.0[2 + hl + i] && enc.0[2 + hl
                            + i] == tenc.0[i]);
                }
                // Requirements of the tail's call.
                lemma_jam_s_len_pos(*head, ph, ce1);
                assert(forall|k: nat| #[trigger] cd1.dom().contains(k) ==> k < pt);
                assert(forall|m: NounS| #[trigger] open1.dom().contains(m) ==> strict_sub(
                    *tail,
                    m,
                )) by {
                    assert forall|m: NounS| #[trigger] open1.dom().contains(m) implies strict_sub(
                        *tail,
                        m,
                    ) by {
                        if m != n {
                            lemma_strict_sub_trans(*tail, n, m);
                        }
                    }
                }
                assert(forall|m: NounS| #[trigger] henc.1.dom().contains(m) ==> (
                open1.dom().contains(m) && open1[m] == henc.1[m]) || (cd1.dom().contains(
                    henc.1[m],
                ) && cd1[henc.1[m]] == m)) by {
                    assert forall|m: NounS| #[trigger] henc.1.dom().contains(m) implies (
                    open1.dom().contains(m) && open1[m] == henc.1[m]) || (cd1.dom().contains(
                        henc.1[m],
                    ) && cd1[henc.1[m]] == m) by {
                        let q = henc.1[m];
                        if open1.dom().contains(m) && open1[m] == q {
                        } else if cdo1.dom().contains(q) && cdo1[q] == m {
                            assert(cd1.dom().contains(q) && cd1[q] == m);
                        } else {
                            assert(m == *head && q == ph && !ce1.dom().contains(*head));
                            assert(cd1[ph] == *head);
                        }
                    }
                }
                lemma_jam_s_cache_mono(*head, ph, ce1);
                assert(forall|m: NounS| #[trigger] open1.dom().contains(m)
                    ==> henc.1.dom().contains(m) && henc.1[m] == open1[m]) by {
                    assert(forall|m: NounS| #[trigger] open1.dom().contains(m)
                        ==> ce1.dom().contains(m) && ce1[m] == open1[m]);
                }
                let cdo2 = lemma_cue_inverts_jam(
                    *tail,
                    pt,
                    henc.1,
                    cd1,
                    s,
                    open1,
                    (fuel - 1) as nat,
                );
                let cdo = cdo2.insert(pt, *tail);
                assert(forall|k: nat| #[trigger] cdo2.dom().contains(k) ==> cdo.dom().contains(k)
                    && cdo[k] == cdo2[k]) by {
                    assert(cdo2.dom().contains(pt) ==> cdo2[pt] == *tail);
                }
                // The decoder's run on this window is the cell branch
                // with exactly these sub-runs.
                assert(cue_s(s, ph, cd, (fuel - 1) as nat) == Ok::<
                    (NounS, nat, Map<nat, NounS>),
                    Error,
                >((*head, pt, cdo1)));
                assert(cue_s(s, pt, cd1, (fuel - 1) as nat) == Ok::<
                    (NounS, nat, Map<nat, NounS>),
                    Error,
                >((*tail, p + bl, cdo2)));
                assert(cue_s(s, p, cd, fuel) == Ok::<(NounS, nat, Map<nat, NounS>), Error>(
                    (n, p + bl, cdo),
                ));
                // The caches stay in step.
                assert forall|m: NounS| #[trigger] enc.1.dom().contains(m) implies {
                    let q = enc.1[m];
                    (open.dom().contains(m) && open[m] == q) || (cdo.dom().contains(q) && cdo[q]
                        == m) || (m == n && q == p && !ce.dom().contains(n))
                } by {
                    let q = enc.1[m];
                    if open1.dom().contains(m) && open1[m] == q {
                        if m == n {
                            assert(q == p);
                        }
                    } else if cdo2.dom().contains(q) && cdo2[q] == m {
                        assert(cdo.dom().contains(q) && cdo[q] == m);
                    } else {
                        assert(m == *tail && q == pt);
                        assert(cdo[pt] == *tail);
                    }
                }
                cdo
            },
        }
    }
}

/// Round trip: decoding an encoded noun yields the noun back.  This
/// holds of every noun whose atoms fit the 64-bit length register and
/// whose encoding's bit positions fit 64 bits.
pub proof fn theorem_roundtrip(n: NounS)
    requires
        sizes_ok(n),
        jam_spec(n).len() <= vstd::arithmetic::power2::pow2(64),
    ensures
        cue_spec(jam_spec(n)) == Ok::<NounS, Error>(n),
{
    let s = jam_spec(n);
    let cdo = lemma_cue_inverts_jam(
        n,
        0,
        Map::empty(),
        Map::empty(),
        s,
        Map::empty(),
        s.len() + 1,
    );
}

/// The share-free encoding of a noun: back-references are never used, so
/// the stream depends on the tree alone.
pub open spec fn jam_flat(n: NounS) -> Seq<bool>
    decreases n,
{
    match n {
        NounS::Atom { bits } => seq![false] + enc_atom_tail(bits),
        NounS::Cell { head, tail } => seq![true, false] + jam_flat(*head) + jam_flat(*tail),
    }
}

/// The share-free encoding is prefix-unambiguous: two encodings that
/// agree as prefixes of one stream come from equal nouns.
pub proof fn lemma_jam_flat_inj(a: NounS, b: NounS, ra: Seq<bool>, rb: Seq<bool>)
    requires
        sizes_ok(a),
        sizes_ok(b),
        jam_flat(a) + ra == jam_flat(b) + rb,
    ensures
        a == b,
        ra == rb,
    decreases a,
{
    let s = jam_flat(a) + ra;
    lemma_jam_flat_len_pos(a);
    lemma_jam_flat_len_pos(b);
    match (a, b) {
        (NounS::Atom { bits: x }, NounS::Atom { bits: y }) => {
            let ex = enc_atom_tail(x);
            let ey = enc_atom_tail(y);
            assert forall|i: int| 0 <= i < ex.len() implies s[1 + i] == ex[i] by {
                assert(s[1 + i] == jam_flat(a)[1 + i]);
            }
            assert forall|i: int| 0 <= i < ey.len() implies s[1 + i] == ey[i] by {
                assert(s[1 + i] == (jam_flat(b) + rb)[1 + i]);
                assert((jam_flat(b) + rb)[1 + i] == jam_flat(b)[1 + i]);
            }
            lemma_dec_enc_atom_tail(s, 1, x);
            lemma_dec_enc_atom_tail(s, 1, y);
            assert(x == y);
            assert(ra =~= rb) by {
                assert(jam_flat(a).len() == jam_flat(b).len());
                assert forall|i: int| 0 <= i < ra.len() implies ra[i] == rb[i] by {
                    assert(ra[i] == s[jam_flat(a).len() + i]);
                    assert(rb[i] == (jam_flat(b) + rb)[jam_flat(b).len() + i]);
                }
            }
        },
        (NounS::Cell { head: ha, tail: ta }, NounS::Cell { head: hb, tail: tb }) => {
            let sa = jam_flat(*ha) + (jam_flat(*ta) + ra);
            let sb = jam_flat(*hb) + (jam_flat(*tb) + rb);
            assert(sa =~= sb) by {
                assert(sa =~= (jam_flat(a) + ra).skip(2));
                assert(sb =~= (jam_flat(b) + rb).skip(2));
            }
            lemma_jam_flat_inj(*ha, *hb, jam_flat(*ta) + ra, jam_flat(*tb) + rb);
            lemma_jam_flat_inj(*ta, *tb, ra, rb);
        },
        (NounS::Atom { .. }, NounS::Cell { .. }) => {
            assert(s[0] == jam_flat(a)[0] && !jam_flat(a)[0]);
            assert((jam_flat(b) + rb)[0] == jam_flat(b)[0] && jam_flat(b)[0]);
        },
        (NounS::Cell { .. }, NounS::Atom { .. }) => {
            assert(s[0] == jam_flat(a)[0] && jam_flat(a)[0]);
            assert((jam_flat(b) + rb)[0] == jam_flat(b)[0] && !jam_flat(b)[0]);
        },
    }
}

/// The share-free encoding is at least one bit long.
pub proof fn lemma_jam_flat_len_pos(n: NounS)
    ensures
        jam_flat(n).len() >= 1,
{
    match n {
        NounS::Atom { .. } => {},
        NounS::Cell { .. } => {},
    }
}

/// The decoder also inverts the share-free encoding: a stream holding
/// `jam_flat(n)` in a window decodes to `n`, whatever the decoder cache
/// holds, since the window holds no back-reference.
pub proof fn lemma_cue_inverts_jam_flat(
    n: NounS,
    p: nat,
    cd: Map<nat, NounS>,
    s: Seq<bool>,
    fuel: nat,
) -> (cdo: Map<nat, NounS>)
    requires
        sizes_ok(n),
        p + jam_flat(n).len() <= s.len(),
        forall|i: int| 0 <= i < jam_flat(n).len() ==> s[p + i] == #[trigger] jam_flat(n)[i],
        fuel >= s.len() - p + 1,
    ensures
        cue_s(s, p, cd, fuel) == Ok::<(NounS, nat, Map<nat, NounS>), Error>(
            (n, p + jam_flat(n).len(), cdo),
        ),
    decreases n,
{
    let enc = jam_flat(n);
    let bl = enc.len();
    lemma_jam_flat_len_pos(n);
    match n {
        NounS::Atom { bits } => {
            let eat = enc_atom_tail(bits);
            assert(!s[p as int]) by {
                assert(s[p as int + 0] == enc[0]);
            }
            assert(forall|i: int| 0 <= i < eat.len() ==> s[p + 1 + i] == eat[i]) by {
                assert(forall|i: int|
                    0 <= i < eat.len() ==> s[p + (1 + i)] == enc[1 + i] && enc[1 + i] == eat[i]);
            }
            lemma_dec_enc_atom_tail(s, p + 1, bits);
            cd.insert(p, n)
        },
        NounS::Cell { head, tail } => {
            let hl = jam_flat(*head).len();
            let tl = jam_flat(*tail).len();
            assert(s[p as int] && !s[p as int + 1]) by {
                assert(s[p as int + 0] == enc[0]);
                assert(s[p as int + 1] == enc[1]);
            }
            let ph = p + 2;
            let pt = ph + hl;
            assert(forall|i: int| 0 <= i < hl ==> s[ph + i] == #[trigger] jam_flat(*head)[i]) by {
                assert(forall|i: int|
                    0 <= i < hl ==> s[p + (2 + i)] == enc[2 + i] && enc[2 + i] == jam_flat(
                        *head,
                    )[i]);
            }
            let cdo1 = lemma_cue_inverts_jam_flat(*head, ph, cd, s, (fuel - 1) as nat);
            let cd1 = cdo1.insert(ph, *head);
            assert(forall|i: int| 0 <= i < tl ==> s[pt + i] == #[trigger] jam_flat(*tail)[i]) by {
                assert(forall|i: int|
                    0 <= i < tl ==> s[p + (2 + hl + i)] == enc[2 + hl + i] && enc[2 + hl + i]
                        == jam_flat(*tail)[i]);
            }
            lemma_jam_flat_len_pos(*head);
            let cdo2 = lemma_cue_inverts_jam_flat(*tail, pt, cd1, s, (fuel - 1) as nat);
            assert(cue_s(s, ph, cd, (fuel - 1) as nat) == Ok::<
                (NounS, nat, Map<nat, NounS>),
                Error,
            >((*head, pt, cdo1)));
            assert(cue_s(s, pt, cd1, (fuel - 1) as nat) == Ok::<
                (NounS, nat, Map<nat, NounS>),
                Error,
            >((*tail, p + bl, cdo2)));
            cdo2.insert(pt, *tail)
        },
    }
}

/// The share-free stream of a noun decodes back to the noun.
pub proof fn theorem_flat_roundtrip(n: NounS)
    requires
        sizes_ok(n),
    ensures
        cue_spec(jam_flat(n)) == Ok::<NounS, Error>(n),
{
    let s = jam_flat(n);
    let cdo = lemma_cue_inverts_jam_flat(n, 0, Map::empty(), s, s.len() + 1);
}

/// Structural equality matches the share-free encoding: two nouns are
/// equal exactly when their streams encoded without sharing are equal.
pub proof fn theorem_structural_equality(a: NounS, b: NounS)
    requires
        sizes_ok(a),
        sizes_ok(b),
    ensures
        (a == b) == (jam_flat(a) == jam_flat(b)),
{
    if jam_flat(a) == jam_flat(b) {
        let e = Seq::<bool>::empty();
        assert(jam_flat(a) + e =~= jam_flat(b) + e);
        lemma_jam_flat_inj(a, b, e, e);
    }
}

/// The back-reference size policy: when an atom is met again, the
/// encoder emits whichever of the inline form and the back-reference is
/// not longer than the other.
pub proof fn theorem_backref_policy(n: NounS, p: nat, c: Map<NounS, nat>)
    requires
        n is Atom,
        c.dom().contains(n),
    ensures
        ({
            let q = c[n];
            let inline_len = (seq![false] + enc_atom_tail(n.bits_s())).len();
            let backref_len = (seq![true, true] + enc_atom_tail(bits_of_nat(q))).len();
            jam_s(n, p, c).0.len() <= inline_len && jam_s(n, p, c).0.len() <= backref_len
        }),
{
    let q = c[n];
    let b = n.bits_s().len();
    let mq = min_bits(q);
    crate::serdes::lemma_enc_len_len(b);
    crate::serdes::lemma_enc_len_len(mq);
    crate::bits::lemma_bits_of_nat_len(q);
    if b <= mq {
        // Inline was chosen; it is no longer than the back-reference.
        if b > 0 {
            crate::bits::lemma_min_bits_monotonic(b, mq);
        }
    } else {
        // The back-reference was chosen; it is no longer than inlining.
        crate::bits::lemma_min_bits_monotonic(mq, b);
    }
}

/// The length codec inverts itself for every length that fits the
/// 64-bit length register.
pub proof fn theorem_length_roundtrip(l: nat)
    requires
        l < vstd::arithmetic::power2::pow2(63),
    ensures
        dec_len(enc_len(l), 0) == Ok::<(nat, nat), Error>((l, enc_len(l).len())),
{
    assert(min_bits(l) < 64) by {
        vstd::arithmetic::power2::lemma2_to64();
        vstd::arithmetic::power2::lemma_pow2_adds(63, 1);
        crate::bits::lemma_min_bits_le(l, 63);
    }
    lemma_dec_enc_len(enc_len(l), 0, l);
}

/// The atom zero encodes to the two-bit stream `10` — a clear tag bit,
/// then a set stop bit; the atom `2` — and that stream decodes back to
/// the atom zero.
pub proof fn theorem_atom_zero()
    ensures
        jam_spec(NounS::Atom { bits: Seq::empty() }) == seq![false, true],
        bits_value(seq![false, true]) == 2,
        cue_spec(seq![false, true]) == Ok::<NounS, Error>(NounS::Atom { bits: Seq::empty() }),
{
    let z = NounS::Atom { bits: Seq::<bool>::empty() };
    assert(jam_spec(z) =~= seq![false, true]);
    assert(seq![false, true].skip(1) =~= seq![true]);
    assert(seq![true].skip(1) =~= Seq::<bool>::empty());
    assert(bits_value(seq![true].skip(1)) == 0);
    assert(seq![true][0]);
    assert(bits_value(seq![true]) == 1);
    assert(bits_value(seq![false, true].skip(1)) == 1);
    assert(!seq![false, true][0]);
    assert(bits_value(seq![false, true]) == 2);
    assert(sizes_ok(z)) by {
        vstd::arithmetic::power2::lemma_pow2_pos(63);
    }
    assert(jam_spec(z).len() <= vstd::arithmetic::power2::pow2(64)) by {
        vstd::arithmetic::power2::lemma2_to64();
    }
    theorem_roundtrip(z);
}

/// Axis equivalence: below a cell, an even axis is the axis halved
/// within the head, and an odd axis above one is the axis halved within
/// the tail.
pub proof fn theorem_axis_equivalence(c: NounS, n: nat)
    requires
        c is Cell,
        n >= 2,
    ensures
        n % 2 == 0 ==> crate::noun::axis_s(c, n) == crate::noun::axis_s(c.head_s(), n / 2),
        n % 2 == 1 ==> crate::noun::axis_s(c, n) == crate::noun::axis_s(c.tail_s(), n / 2),
{
}

/// Canonicalization is idempotent: rebuilding a canonical atom from its
/// bytes yields the same atom, and its bit length is the minimum bit
/// count representing its value.
pub proof fn theorem_canonical_atom(a: &crate::atom::Atom)
    requires
        a.wf(),
        crate::bits::canonical(a@),
    ensures
        crate::bits::stripped(a.bytes_view()) == a.bytes_view(),
        crate::bits::canon_bits(a.bytes_view()) == a@,
        a@.len() == min_bits(bits_value(a@)),
{
    let bs = a.bytes_view();
    let bl = a@.len();
    crate::bits::lemma_canonical_bits_of_nat(a@);
    crate::bits::lemma_bits_of_nat_len(bits_value(a@));
    if bl == 0 {
        assert(bs.len() == 0);
        assert(crate::bits::canon_bits(bs) =~= a@);
    } else {
        let len = bs.len() as int;
        assert(8 * (len - 1) <= bl - 1 < 8 * len);
        let j = (bl - 1) as int - 8 * (len - 1);
        assert((bl - 1) as int / 8 == len - 1 && (bl - 1) as int % 8 == j) by {
            vstd::arithmetic::div_mod::lemma_fundamental_div_mod_converse(
                (bl - 1) as int,
                8,
                len - 1,
                j,
            );
        }
        let b = bs[len - 1];
        assert(crate::bits::byte_bit(b, j)) by {
            assert(a@.last() == crate::bits::seq_bit(bs, (bl - 1) as int));
        }
        assert(forall|k: int| j < k < 8 ==> !crate::bits::byte_bit(b, k)) by {
            assert forall|k: int| j < k < 8 implies !crate::bits::byte_bit(b, k) by {
                let i = 8 * (len - 1) + k;
                assert(i / 8 == len - 1 && i % 8 == k) by {
                    vstd::arithmetic::div_mod::lemma_fundamental_div_mod_converse(
                        i,
                        8,
                        len - 1,
                        k,
                    );
                }
                assert(bl <= i < 8 * len);
                assert(!crate::bits::seq_bit(bs, i));
            }
        }
        crate::bits::lemma_byte_top_bit_min_bits(b, j);
        assert(crate::bits::stripped(bs) == bs);
        assert(crate::bits::byte_len_bits(bs) == bl);
        assert(crate::bits::canon_bits(bs) =~= a@);
    }
}

} // verus!

