//! Conversions between nouns and plain values.
//!
//! A list-shaped noun is `[e1 e2 ... eN 0]`: right-nested cells terminated
//! by the atom zero.  The functions here walk and build such nouns; their
//! errors are the taxonomy shared by every conversion in this crate.

use crate::atom::Atom;
use crate::cell::Cell;
use crate::noun::{Noun, NounS};
use std::rc::Rc;
use vstd::prelude::*;

verus! {

/// Errors that occur when converting from a noun.
#[derive(Clone, Copy, Debug, PartialEq, Eq, Structural)]
pub enum Error {
    /// An atom could not be converted into an unsigned integer.
    AtomToUint,
    /// An atom could not be converted into a string.
    AtomToStr,
    /// A null atom was expected.
    ExpectedNull,
    /// An error specific to the implementing type occurred.
    ImplType,
    /// No value exists at a particular axis of a cell.
    MissingValue,
    /// Encountered an atom when a cell was expected.
    UnexpectedAtom,
    /// Encountered a cell when an atom was expected.
    UnexpectedCell,
}

impl Error {
    /// A short description of this error.
    pub fn message(&self) -> (r: &'static str)
        ensures
            r@ == self.message_spec(),
    {
        match self {
            Error::AtomToUint => "the atom is too large to fit in the unsigned integer type",
            Error::AtomToStr => "the atom is not composed of valid UTF-8 bytes",
            Error::ExpectedNull => "a null atom was expected",
            Error::ImplType => "an error specific to the implementing type occurred",
            Error::MissingValue => "the noun does not have a value at this axis",
            Error::UnexpectedAtom => "an atom was encountered when a cell was expected",
            Error::UnexpectedCell => "a cell was encountered when an atom was expected",
        }
    }

    /// The description each variant carries.
    pub open spec fn message_spec(&self) -> Seq<char> {
        match self {
            Error::AtomToUint => "the atom is too large to fit in the unsigned integer type"@,
            Error::AtomToStr => "the atom is not composed of valid UTF-8 bytes"@,
            Error::ExpectedNull => "a null atom was expected"@,
            Error::ImplType => "an error specific to the implementing type occurred"@,
            Error::MissingValue => "the noun does not have a value at this axis"@,
            Error::UnexpectedAtom => "an atom was encountered when a cell was expected"@,
            Error::UnexpectedCell => "a cell was encountered when an atom was expected"@,
        }
    }
}

/// The models of a sequence of atoms.
pub open spec fn atom_views(s: Seq<Atom>) -> Seq<Seq<bool>> {
    Seq::new(s.len(), |i: int| s[i]@)
}

/// The list-shaped noun holding the given atoms: right-nested cells
/// terminated by the atom zero.
pub open spec fn list_s(elems: Seq<Seq<bool>>) -> NounS
    decreases elems.len(),
{
    if elems.len() == 0 {
        NounS::Atom { bits: Seq::empty() }
    } else {
        NounS::Cell {
            head: Box::new(NounS::Atom { bits: elems[0] }),
            tail: Box::new(list_s(elems.skip(1))),
        }
    }
}

/// Reads a list-shaped noun of atoms back into its elements: the heads
/// along the right spine, which must all be atoms, up to the terminating
/// atom zero.
pub open spec fn parse_list(n: NounS) -> Result<Seq<Seq<bool>>, Error>
    decreases n,
{
    match n {
        NounS::Atom { bits } => if bits.len() == 0 {
            Ok(Seq::empty())
        } else {
            Err(Error::ExpectedNull)
        },
        NounS::Cell { head, tail } => match *head {
            NounS::Atom { bits } => match parse_list(*tail) {
                Ok(rest) => Ok(seq![bits] + rest),
                Err(e) => Err(e),
            },
            NounS::Cell { .. } => Err(Error::UnexpectedCell),
        },
    }
}

/// Builds the null-terminated list noun `[e1 e2 ... eN 0]` from a
/// vector of atoms.
pub fn atoms_to_list(elems: Vec<Atom>) -> (r: Noun)
    requires
        forall|i: int| 0 <= i < elems@.len() ==> (#[trigger] elems@[i]).wf(),
    ensures
        r.wf(),
        r@ == list_s(atom_views(elems@)),
{
    let mut acc = Rc::new(Noun::null());
    let mut i = elems.len();
    proof {
        assert(atom_views(elems@).skip(i as int) =~= Seq::<Seq<bool>>::empty());
    }
    while i > 0
        invariant
            i <= elems@.len(),
            forall|j: int| 0 <= j < elems@.len() ==> (#[trigger] elems@[j]).wf(),
            (*acc).wf(),
            acc@ == list_s(atom_views(elems@).skip(i as int)),
        decreases i,
    {
        i = i - 1;
        let a = elems[i].clone();
        let cell = Cell::new(a.into_noun_ptr(), acc);
        acc = cell.into_noun_ptr();
        proof {
            assert(atom_views(elems@).skip(i as int)[0] == elems@[i as int]@);
            assert(atom_views(elems@).skip(i as int).skip(1) =~= atom_views(elems@).skip(
                i as int + 1,
            ));
            assert(acc@ == list_s(atom_views(elems@).skip(i as int)));
        }
    }
    proof {
        assert(atom_views(elems@).skip(0) =~= atom_views(elems@));
    }
    match Rc::try_unwrap(acc) {
        Ok(n) => n,
        Err(rc) => (*rc).clone(),
    }
}

/// Reads a list-shaped noun `[e1 e2 ... eN 0]` of atoms into a vector
/// of its elements, or reports why the noun is not such a list.
pub fn list_to_atoms(noun: &Noun) -> (r: Result<Vec<Atom>, Error>)
    requires
        noun.wf(),
    ensures
        match r {
            Ok(elems) => parse_list(noun@) == Ok::<Seq<Seq<bool>>, Error>(atom_views(elems@))
                && forall|i: int| 0 <= i < elems@.len() ==> (#[trigger] elems@[i]).wf(),
            Err(e) => parse_list(noun@) == Err::<Seq<Seq<bool>>, Error>(e),
        },
    decreases crate::noun::size_s(noun@),
{
    match noun {
        Noun::Atom(a) => {
            if a.is_null() {
                let r = Vec::new();
                proof {
                    assert(atom_views(Seq::<Atom>::empty()) =~= Seq::<Seq<bool>>::empty());
                    assert(atom_views(r@) =~= Seq::<Seq<bool>>::empty());
                }
                Ok(r)
            } else {
                Err(Error::ExpectedNull)
            }
        },
        Noun::Cell(c) => {
            match &*c.head_ref() {
                Noun::Cell(_) => Err(Error::UnexpectedCell),
                Noun::Atom(a) => {
                    let first = a.clone();
                    match list_to_atoms(c.tail_ref()) {
                        Err(e) => Err(e),
                        Ok(rest) => {
                            let mut elems = Vec::new();
                            elems.push(first);
                            let mut rest = rest;
                            let ghost rest0 = rest@;
                            elems.append(&mut rest);
                            proof {
                                assert(atom_views(elems@) =~= seq![a@] + atom_views(
                                    rest0,
                                ));
                            }
                            Ok(elems)
                        },
                    }
                },
            }
        },
    }
}

} // verus!
