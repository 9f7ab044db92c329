//! Nouns: finite binary trees of atoms.
//!
//! A noun is either an atom or a cell.  The mathematical model of a noun
//! is [`NounS`], a finite binary tree whose leaves are bit sequences; all
//! contracts of the codec speak of that model.

use crate::atom::Atom;
use crate::cell::Cell;
use std::rc::Rc;
use vstd::prelude::*;

verus! {

/// The mathematical model of a noun: a finite binary tree whose leaves
/// are bit sequences (least-significant-bit first).
pub enum NounS {
    /// An atom, abstracted to its bit sequence.
    Atom { bits: Seq<bool> },
    /// A cell, an ordered pair of nouns.
    Cell { head: Box<NounS>, tail: Box<NounS> },
}

impl NounS {
    /// The head of a cell model.
    pub open spec fn head_s(self) -> NounS
        recommends
            self is Cell,
    {
        *self->Cell_head
    }

    /// The tail of a cell model.
    pub open spec fn tail_s(self) -> NounS
        recommends
            self is Cell,
    {
        *self->Cell_tail
    }

    /// The bit sequence of an atom model.
    pub open spec fn bits_s(self) -> Seq<bool>
        recommends
            self is Atom,
    {
        self->Atom_bits
    }
}

/// A noun: an atom or a cell.
#[derive(Debug)]
pub enum Noun {
    /// An arbitrary-precision unsigned integer.
    Atom(Atom),
    /// An ordered pair of nouns.
    Cell(Cell),
}

/// The mathematical model of a noun.
pub open spec fn noun_model(n: Noun) -> NounS
    decreases n,
{
    match n {
        Noun::Atom(a) => NounS::Atom { bits: a@ },
        Noun::Cell(c) => NounS::Cell {
            head: Box::new(noun_model(*c.head)),
            tail: Box::new(noun_model(*c.tail)),
        },
    }
}

/// The representation invariant of a noun, inherited from every atom in
/// the tree.
pub open spec fn noun_wf(n: Noun) -> bool
    decreases n,
{
    match n {
        Noun::Atom(a) => a.wf(),
        Noun::Cell(c) => noun_wf(*c.head) && noun_wf(*c.tail),
    }
}

impl View for Noun {
    type V = NounS;

    open spec fn view(&self) -> NounS {
        noun_model(*self)
    }
}

impl Noun {
    /// The representation invariant, inherited from every atom in the tree.
    pub open spec fn wf(&self) -> bool {
        noun_wf(*self)
    }

    /// Returns `true` iff this noun is an atom.
    pub fn is_atom(&self) -> (r: bool)
        ensures
            r == (self@ is Atom),
    {
        match self {
            Noun::Atom(_) => true,
            Noun::Cell(_) => false,
        }
    }

    /// Returns `true` iff this noun is a cell.
    pub fn is_cell(&self) -> (r: bool)
        ensures
            r == (self@ is Cell),
    {
        match self {
            Noun::Atom(_) => false,
            Noun::Cell(_) => true,
        }
    }

    /// Creates the noun that is the atom `0`.
    pub fn null() -> (r: Noun)
        ensures
            r.wf(),
            r@ == (NounS::Atom { bits: Seq::<bool>::empty() }),
    {
        Noun::Atom(Atom::null())
    }

    /// Returns `true` iff this noun is the atom `0`.
    pub fn is_null(&self) -> (r: bool)
        ensures
            r == (self@ is Atom && self@.bits_s().len() == 0),
    {
        match self {
            Noun::Atom(a) => a.is_null(),
            Noun::Cell(_) => false,
        }
    }

    /// Returns this noun's atom, or `UnexpectedCell` if it is a cell.
    pub fn as_atom(&self) -> (r: Result<&Atom, crate::convert::Error>)
        ensures
            match r {
                Ok(a) => self@ is Atom && a@ == self@.bits_s() && (self.wf() ==> a.wf()),
                Err(e) => self@ is Cell && e == crate::convert::Error::UnexpectedCell,
            },
    {
        match self {
            Noun::Atom(a) => Ok(a),
            Noun::Cell(_) => Err(crate::convert::Error::UnexpectedCell),
        }
    }

    /// Returns this noun's cell, or `UnexpectedAtom` if it is an atom.
    pub fn as_cell(&self) -> (r: Result<&Cell, crate::convert::Error>)
        ensures
            match r {
                Ok(c) => self@ is Cell && c@ == self@ && (self.wf() ==> c.wf()),
                Err(e) => self@ is Atom && e == crate::convert::Error::UnexpectedAtom,
            },
    {
        match self {
            Noun::Atom(_) => Err(crate::convert::Error::UnexpectedAtom),
            Noun::Cell(c) => Ok(c),
        }
    }

    /// Converts this noun into its atom, consuming the noun, or
    /// `UnexpectedCell` if it is a cell.
    pub fn into_atom(self) -> (r: Result<Atom, crate::convert::Error>)
        ensures
            match r {
                Ok(a) => self@ is Atom && a@ == self@.bits_s() && (self.wf() ==> a.wf()),
                Err(e) => self@ is Cell && e == crate::convert::Error::UnexpectedCell,
            },
    {
        match self {
            Noun::Atom(a) => Ok(a),
            Noun::Cell(_) => Err(crate::convert::Error::UnexpectedCell),
        }
    }

    /// Converts this noun into its cell, consuming the noun, or
    /// `UnexpectedAtom` if it is an atom.
    pub fn into_cell(self) -> (r: Result<Cell, crate::convert::Error>)
        ensures
            match r {
                Ok(c) => self@ is Cell && c@ == self@ && (self.wf() ==> c.wf()),
                Err(e) => self@ is Atom && e == crate::convert::Error::UnexpectedAtom,
            },
    {
        match self {
            Noun::Atom(_) => Err(crate::convert::Error::UnexpectedAtom),
            Noun::Cell(c) => Ok(c),
        }
    }

    /// Returns the noun at the given axis, or `None` when the axis names
    /// no position in this noun.
    pub fn get(&self, axis: usize) -> (r: Option<&Noun>)
        ensures
            match r {
                Some(m) => axis_s(self@, axis as nat) == Some(m@) && (self.wf() ==> m.wf()),
                None => axis_s(self@, axis as nat) is None,
            },
        decreases axis,
    {
        if axis == 0 {
            None
        } else if axis == 1 {
            Some(self)
        } else {
            match self {
                Noun::Atom(_) => None,
                Noun::Cell(c) => if axis % 2 == 0 {
                    (&*c.head).get(axis / 2)
                } else {
                    (&*c.tail).get(axis / 2)
                },
            }
        }
    }
}

/// The position a positive integer axis names within a noun: `1` is the
/// whole noun; below a cell, even axes descend into the head and odd axes
/// into the tail, halving the axis at each step.
pub open spec fn axis_s(n: NounS, axis: nat) -> Option<NounS>
    decreases axis,
{
    if axis == 0 {
        None
    } else if axis == 1 {
        Some(n)
    } else {
        match n {
            NounS::Atom { .. } => None,
            NounS::Cell { head, tail } => axis_s(
                if axis % 2 == 0 {
                    *head
                } else {
                    *tail
                },
                axis / 2,
            ),
        }
    }
}

/// The number of nodes of a noun model.
pub open spec fn size_s(n: NounS) -> nat
    decreases n,
{
    match n {
        NounS::Atom { .. } => 1,
        NounS::Cell { head, tail } => 1 + size_s(*head) + size_s(*tail),
    }
}

/// The elements a noun unpacks into along its right spine: the heads of
/// each cell, then the final atom.
pub open spec fn unpacked(n: NounS) -> Seq<NounS>
    decreases n,
{
    match n {
        NounS::Atom { .. } => seq![n],
        NounS::Cell { head, tail } => seq![*head] + unpacked(*tail),
    }
}

/// The right-nested noun a nonempty element sequence packs into:
/// `[a1 a2 ... aN]` is `(a1, (a2, (..., aN)))`.
pub open spec fn nested(s: Seq<NounS>) -> NounS
    recommends
        s.len() >= 1,
    decreases s.len(),
{
    if s.len() <= 1 {
        s[0]
    } else {
        NounS::Cell { head: Box::new(s[0]), tail: Box::new(nested(s.skip(1))) }
    }
}

/// The first `k` positions a noun unpacks into: the heads of the first
/// `k - 1` cells along the right spine, then whatever noun sits at the
/// deepest tail position; nothing when the spine is too short.
pub open spec fn unpack_n(n: NounS, k: nat) -> Option<Seq<NounS>>
    recommends
        k >= 1,
    decreases k,
{
    if k <= 1 {
        Some(seq![n])
    } else {
        match n {
            NounS::Atom { .. } => None,
            NounS::Cell { head, tail } => match unpack_n(*tail, (k - 1) as nat) {
                Some(rest) => Some(seq![*head] + rest),
                None => None,
            },
        }
    }
}

/// The models of a sequence of shared noun references.
pub open spec fn views_of(s: Seq<Rc<Noun>>) -> Seq<NounS> {
    Seq::new(s.len(), |i: int| s[i]@)
}

/// Every reference in the sequence points at a well-formed noun.
pub open spec fn all_wf(s: Seq<Rc<Noun>>) -> bool {
    forall|i: int| 0 <= i < s.len() ==> (*#[trigger] s[i]).wf()
}

/// Structural equality of the representations: atoms agree on bit length
/// and bytes, cells agree componentwise.  For well-formed nouns this is
/// exactly equality of the models.
pub open spec fn noun_fields_eq(a: Noun, b: Noun) -> bool
    decreases a,
{
    match (a, b) {
        (Noun::Atom(x), Noun::Atom(y)) => x.bit_len == y.bit_len && x.bytes@ == y.bytes@,
        (Noun::Cell(x), Noun::Cell(y)) => noun_fields_eq(*x.head, *y.head) && noun_fields_eq(
            *x.tail,
            *y.tail,
        ),
        _ => false,
    }
}

/// Compares two nouns structurally.
pub fn noun_eq(a: &Noun, b: &Noun) -> (r: bool)
    ensures
        r == noun_fields_eq(*a, *b),
    decreases *a,
{
    match (a, b) {
        (Noun::Atom(x), Noun::Atom(y)) => atom_fields_eq(x, y),
        (Noun::Cell(x), Noun::Cell(y)) => noun_eq(&*x.head, &*y.head) && noun_eq(
            &*x.tail,
            &*y.tail,
        ),
        _ => false,
    }
}

/// Compares two atoms by their fields.
fn atom_fields_eq(x: &Atom, y: &Atom) -> (r: bool)
    ensures
        r == (x.bit_len == y.bit_len && x.bytes@ == y.bytes@),
{
    x.bit_len == y.bit_len && crate::atom::eq_bytes(x.bytes.as_slice(), y.bytes.as_slice())
}

/// For well-formed nouns, structural equality of the representations
/// coincides with equality of the models.
pub proof fn lemma_noun_eq_is_model_eq(a: &Noun, b: &Noun)
    requires
        a.wf(),
        b.wf(),
    ensures
        noun_fields_eq(*a, *b) == (a@ == b@),
    decreases *a,
{
    match (a, b) {
        (Noun::Atom(x), Noun::Atom(y)) => {
            crate::atom::lemma_atom_eq_is_view_eq(x, y);
        },
        (Noun::Cell(x), Noun::Cell(y)) => {
            lemma_noun_eq_is_model_eq(&*x.head, &*y.head);
            lemma_noun_eq_is_model_eq(&*x.tail, &*y.tail);
        },
        _ => {},
    }
}

/// Folds the eight little-endian bytes of a 64-bit value into a hash
/// state, least significant byte first.
pub open spec fn fnv1a_word(h: u64, v: u64, k: nat) -> u64
    decreases k,
{
    if k == 0 {
        h
    } else {
        fnv1a_word(crate::atom::fnv1a_step(h, (v % 256) as u8), v / 256, (k - 1) as nat)
    }
}

/// The content hash of a noun: an atom hashes its bytes; a cell hashes
/// the hashes of its head and tail.
pub open spec fn noun_hash_spec(n: Noun) -> u64
    decreases n,
{
    match n {
        Noun::Atom(a) => crate::atom::hash_bytes_spec(a.bytes_view()),
        Noun::Cell(c) => fnv1a_word(
            fnv1a_word(0xcbf29ce484222325, noun_hash_spec(*c.head), 8),
            noun_hash_spec(*c.tail),
            8,
        ),
    }
}

/// Folds the eight little-endian bytes of a 64-bit value into a hash
/// state.
fn hash_word(h0: u64, v: u64) -> (r: u64)
    ensures
        r == fnv1a_word(h0, v, 8),
{
    let mut h = h0;
    let mut x = v;
    let mut k: usize = 0;
    while k < 8
        invariant
            k <= 8,
            fnv1a_word(h0, v, 8) == fnv1a_word(h, x, (8 - k) as nat),
        decreases 8 - k,
    {
        h = (h ^ ((x % 256) as u8) as u64).wrapping_mul(0x100000001b3);
        x = x / 256;
        k = k + 1;
    }
    h
}

impl Noun {
    /// Computes the content hash of this noun, structurally: equal nouns
    /// hash equally.
    pub fn hash(&self) -> (r: u64)
        ensures
            r == noun_hash_spec(*self),
        decreases *self,
    {
        match self {
            Noun::Atom(a) => a.hash(),
            Noun::Cell(c) => c.hash(),
        }
    }
}

impl Cell {
    /// Computes the content hash of this cell from the hashes of its
    /// head and tail.
    pub fn hash(&self) -> (r: u64)
        ensures
            r == noun_hash_spec(Noun::Cell(*self)),
        decreases *self,
    {
        let hh = (*self.head).hash();
        let th = (*self.tail).hash();
        hash_word(hash_word(0xcbf29ce484222325, hh), th)
    }
}

impl Clone for Noun {
    /// Copies this noun: an atom's bytes are copied, a cell's referents
    /// are shared.
    fn clone(&self) -> (r: Self)
        ensures
            r@ == self@,
            r.wf() == self.wf(),
    {
        match self {
            Noun::Atom(a) => Noun::Atom(a.clone()),
            Noun::Cell(c) => Noun::Cell(c.clone()),
        }
    }
}

impl PartialEq for Noun {
    /// Structural equality; see [`noun_fields_eq`].
    fn eq(&self, other: &Self) -> (r: bool) {
        noun_eq(self, other)
    }
}

impl Eq for Noun {

}

impl vstd::std_specs::cmp::PartialEqSpecImpl for Noun {
    open spec fn obeys_eq_spec() -> bool {
        true
    }

    open spec fn eq_spec(&self, other: &Noun) -> bool {
        noun_fields_eq(*self, *other)
    }
}

impl Atom {
    /// Wraps this atom into a noun.
    pub fn into_noun(self) -> (r: Noun)
        ensures
            r@ == (NounS::Atom { bits: self@ }),
            r.wf() == self.wf(),
    {
        Noun::Atom(self)
    }

    /// Wraps this atom into a shared noun reference.
    pub fn into_noun_ptr(self) -> (r: Rc<Noun>)
        ensures
            r@ == (NounS::Atom { bits: self@ }),
            (*r).wf() == self.wf(),
    {
        Rc::new(Noun::Atom(self))
    }
}

impl Cell {
    /// Wraps this cell into a noun.
    pub fn into_noun(self) -> (r: Noun)
        ensures
            r@ == self@,
            r.wf() == self.wf(),
    {
        Noun::Cell(self)
    }

    /// Wraps this cell into a shared noun reference.
    pub fn into_noun_ptr(self) -> (r: Rc<Noun>)
        ensures
            r@ == self@,
            (*r).wf() == self.wf(),
    {
        Rc::new(Noun::Cell(self))
    }
}

} // verus!
