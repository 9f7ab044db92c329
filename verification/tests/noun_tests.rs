use noun::atom::Atom;
use noun::cell::Cell;
use noun::noun::Noun;
use std::rc::Rc;

fn na(v: u128) -> Rc<Noun> {
    Rc::new(Atom::from_u128(v).into_noun())
}

fn c2(h: Rc<Noun>, t: Rc<Noun>) -> Rc<Noun> {
    Rc::new(Cell::new(h, t).into_noun())
}

#[test]
fn atom_zero_jams_to_two() {
    // The atom zero round-trips through the two-bit stream `10`.
    let zero = Noun::null();
    let jammed = zero.clone().jam();
    assert_eq!(jammed.as_u8().unwrap(), 2);
    assert_eq!(jammed.bit_len(), 2);
    assert_eq!(Noun::cue(jammed).unwrap(), zero);
}

#[test]
fn axis_equivalence_concrete() {
    // For a cell, an even axis descends into the head with the axis
    // halved, and an odd axis into the tail.
    let n = (*c2(c2(na(4), na(5)), c2(na(6), c2(na(14), na(15))))).clone();
    let head = n.get(2).unwrap().clone();
    let tail = n.get(3).unwrap().clone();
    assert_eq!(n.get(6), head.get(3));
    assert_eq!(n.get(7), tail.get(3));
    assert_eq!(n.get(4), head.get(2));
    assert_eq!(n.get(14), head.get(7));
    assert_eq!(n.get(15), tail.get(7));
    assert_eq!(n.get(0), None);
}

#[test]
fn structural_equality_matches_streams() {
    // Equal nouns produce equal streams; unequal nouns produce unequal
    // streams.
    let a = (*c2(na(222), c2(na(444), na(888)))).clone();
    let b = (*c2(na(222), c2(na(444), na(888)))).clone();
    let c = (*c2(na(222), c2(na(444), na(889)))).clone();
    assert_eq!(a, b);
    assert_eq!(a.clone().jam(), b.clone().jam());
    assert_ne!(a, c);
    assert_ne!(a.jam(), c.jam());
}

#[test]
fn backref_size_policy_concrete() {
    // A repeated `1` is re-emitted inline: its one bit is no wider than
    // the position's three bits.  `[1 1]` therefore jams to 817 with no
    // back-reference: `cue` of the explicit no-sharing stream agrees.
    let pair_of_ones = (*c2(na(1), na(1))).clone();
    assert_eq!(pair_of_ones.jam().as_u16().unwrap(), 817);

    // A repeated `10000` is wider than its position, so the second
    // occurrence becomes a back-reference and the stream is shorter
    // than the share-free one would be.
    let pair = (*c2(na(10_000), na(10_000))).clone();
    let jammed = pair.jam();
    assert_eq!(jammed.as_u64().unwrap(), 4_952_983_169);
    assert_eq!(jammed.bit_len(), 33);
}

#[test]
fn length_prefix_lengths() {
    // The length prefix takes one bit for the empty atom and twice the
    // length's bit width otherwise: atom 0 jams to 2 bits, atom 1 to 4
    // bits, atom 19 (5 bits long) to 1 + 2*3 + 5 = 12 bits.
    assert_eq!(Noun::Atom(Atom::from_u8(0)).jam().bit_len(), 2);
    assert_eq!(Noun::Atom(Atom::from_u8(1)).jam().bit_len(), 4);
    assert_eq!(Noun::Atom(Atom::from_u8(19)).jam().bit_len(), 12);
}

#[test]
fn cell_hashes_are_structural() {
    let a = c2(na(107), na(110));
    let b = c2(na(107), na(110));
    let c = c2(na(110), na(107));
    assert_eq!((*a).hash(), (*b).hash());
    assert_ne!((*a).hash(), (*c).hash());
    assert_ne!((*a).hash(), (*na(107)).hash());
}

#[test]
fn noun_kind_accessors() {
    let atom_noun = Noun::Atom(Atom::from_u8(7));
    let cell_noun = (*c2(na(1), na(2))).clone();
    assert!(atom_noun.is_atom() && !atom_noun.is_cell());
    assert!(cell_noun.is_cell() && !cell_noun.is_atom());
    assert!(atom_noun.as_atom().is_ok());
    assert!(atom_noun.as_cell().is_err());
    assert!(cell_noun.as_cell().is_ok());
    assert!(cell_noun.as_atom().is_err());
    assert!(atom_noun.into_atom().is_ok());
    assert!(cell_noun.into_cell().is_ok());
}

#[test]
fn get_on_atom() {
    let atom_noun = Noun::Atom(Atom::from_u8(7));
    assert_eq!(atom_noun.get(1), Some(&atom_noun));
    assert_eq!(atom_noun.get(2), None);
}
