//! Marker traits for atom-like, cell-like and noun-like types.

use crate::atom::Atom;
use crate::cell::Cell;
use crate::noun::Noun;
use vstd::prelude::*;

verus! {

/// Atom-like types.
pub trait Atomish {

}

/// Cell-like types.
pub trait Cellish {

}

/// Noun-like types.
pub trait Nounish {

}

impl Atomish for Atom {

}

impl Cellish for Cell {

}

impl Nounish for Atom {

}

impl Nounish for Cell {

}

impl Nounish for Noun {

}

} // verus!
