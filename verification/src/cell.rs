//! Ordered pairs of nouns.
//!
//! A cell is a pair of reference-counted nouns.  Cells are immutable once
//! constructed; their referents may be shared with any number of other
//! cells, so nouns form a directed acyclic graph in memory while their
//! abstract view is a finite binary tree.

use crate::noun::{noun_model, noun_wf, Noun, NounS};
use std::rc::Rc;
use vstd::prelude::*;

verus! {

/// A pair of reference-counted nouns.
///
/// The fields are exposed so that specifications can speak of the tree
/// structure directly; this library never mutates a cell after
/// construction.
#[derive(Debug)]
pub struct Cell {
    /// The first component of the pair.
    pub head: Rc<Noun>,
    /// The second component of the pair.
    pub tail: Rc<Noun>,
}

impl View for Cell {
    type V = NounS;

    open spec fn view(&self) -> NounS {
        NounS::Cell {
            head: Box::new(noun_model(*self.head)),
            tail: Box::new(noun_model(*self.tail)),
        }
    }
}

impl Clone for Cell {
    /// Copies this cell; the clone shares both referents.
    fn clone(&self) -> (r: Self)
        ensures
            r@ == self@,
            r.head == self.head,
            r.tail == self.tail,
            r.wf() == self.wf(),
    {
        Cell { head: Rc::clone(&self.head), tail: Rc::clone(&self.tail) }
    }
}

impl Cell {
    /// The representation invariant, inherited from the two referents.
    pub open spec fn wf(&self) -> bool {
        noun_wf(*self.head) && noun_wf(*self.tail)
    }

    /// Constructs a new cell from shared references to its head and tail.
    pub fn new(head: Rc<Noun>, tail: Rc<Noun>) -> (r: Cell)
        ensures
            r@ == (NounS::Cell { head: Box::new(head@), tail: Box::new(tail@) }),
            r.wf() == ((*head).wf() && (*tail).wf()),
    {
        Cell { head, tail }
    }

    /// Returns the head of this cell as a new shared reference.
    pub fn head(&self) -> (r: Rc<Noun>)
        ensures
            r == self.head,
            r@ == self@.head_s(),
            self.wf() ==> (*r).wf(),
    {
        Rc::clone(&self.head)
    }

    /// Returns the tail of this cell as a new shared reference.
    pub fn tail(&self) -> (r: Rc<Noun>)
        ensures
            r == self.tail,
            r@ == self@.tail_s(),
            self.wf() ==> (*r).wf(),
    {
        Rc::clone(&self.tail)
    }

    /// Returns the head of this cell as a plain reference.
    pub fn head_ref(&self) -> (r: &Noun)
        ensures
            r@ == self@.head_s(),
            self.wf() ==> r.wf(),
    {
        &self.head
    }

    /// Returns the tail of this cell as a plain reference.
    pub fn tail_ref(&self) -> (r: &Noun)
        ensures
            r@ == self@.tail_s(),
            self.wf() ==> r.wf(),
    {
        &self.tail
    }

    /// Unpacks this cell into a vector: the heads along the right spine,
    /// then the final atom.
    pub fn to_vec(&self) -> (r: Vec<Rc<Noun>>)
        requires
            self.wf(),
        ensures
            crate::noun::views_of(r@) == crate::noun::unpacked(self@),
            crate::noun::all_wf(r@),
            r@.len() >= 2,
    {
        let mut nouns: Vec<Rc<Noun>> = Vec::new();
        nouns.push(self.head());
        let mut noun = self.tail();
        proof {
            assert(crate::noun::views_of(nouns@) =~= seq![(*self.head)@]);
            assert(crate::noun::views_of(nouns@) + crate::noun::unpacked(noun@) =~= crate
                ::noun::unpacked(self@));
        }
        loop
            invariant
                (*noun).wf(),
                crate::noun::all_wf(nouns@),
                nouns@.len() >= 1,
                crate::noun::views_of(nouns@) + crate::noun::unpacked(noun@) == crate
                    ::noun::unpacked(self@),
            ensures
                crate::noun::views_of(nouns@) + crate::noun::unpacked(noun@) == crate
                    ::noun::unpacked(self@),
                noun@ is Atom,
                (*noun).wf(),
                crate::noun::all_wf(nouns@),
                nouns@.len() >= 1,
            decreases crate::noun::size_s(noun@),
        {
            match &*noun {
                Noun::Cell(c) => {
                    let ghost before = nouns@;
                    nouns.push(c.head());
                    let t = c.tail();
                    proof {
                        assert(crate::noun::views_of(nouns@) =~= crate::noun::views_of(
                            before,
                        ).push((*c.head)@));
                        assert(crate::noun::views_of(nouns@) + crate::noun::unpacked(t@)
                            =~= crate::noun::views_of(before) + crate::noun::unpacked(noun@));
                    }
                    noun = t;
                },
                Noun::Atom(_) => {
                    break ;
                },
            }
        }
        let ghost before = nouns@;
        nouns.push(noun);
        proof {
            assert(crate::noun::views_of(nouns@) =~= crate::noun::views_of(before).push(
                nouns@.last()@,
            ));
            assert(crate::noun::views_of(nouns@) =~= crate::noun::unpacked(self@));
        }
        nouns
    }

    /// Unpacks this cell into exactly `n` nouns: the heads of the first
    /// `n - 1` cells along the right spine, then the noun at the deepest
    /// tail position; `None` when the cell does not have that depth.
    pub fn to_array(&self, n: usize) -> (r: Option<Vec<Rc<Noun>>>)
        requires
            self.wf(),
            n >= 2,
        ensures
            match r {
                Some(v) => Some(crate::noun::views_of(v@)) == crate::noun::unpack_n(
                    self@,
                    n as nat,
                ) && crate::noun::all_wf(v@) && v@.len() == n,
                None => crate::noun::unpack_n(self@, n as nat) is None,
            },
    {
        let mut nouns: Vec<Rc<Noun>> = Vec::new();
        nouns.push(self.head());
        let mut noun = self.tail();
        proof {
            assert(crate::noun::views_of(nouns@) =~= seq![(*self.head)@]);
            assert(crate::noun::unpack_n(self@, n as nat) == (match crate::noun::unpack_n(
                noun@,
                (n - 1) as nat,
            ) {
                Some(rest) => Some(seq![(*self.head)@] + rest),
                None => None::<Seq<NounS>>,
            }));
        }
        let mut k: usize = n - 1;
        while k > 1
            invariant
                1 <= k <= n - 1,
                (*noun).wf(),
                crate::noun::all_wf(nouns@),
                nouns@.len() == n - 1 - k + 1,
                crate::noun::unpack_n(self@, n as nat) == (match crate::noun::unpack_n(
                    noun@,
                    k as nat,
                ) {
                    Some(rest) => Some(crate::noun::views_of(nouns@) + rest),
                    None => None::<Seq<NounS>>,
                }),
            decreases k,
        {
            match &*noun {
                Noun::Atom(_) => {
                    return None;
                },
                Noun::Cell(c) => {
                    let ghost before = nouns@;
                    nouns.push(c.head());
                    let t = c.tail();
                    proof {
                        assert(crate::noun::views_of(nouns@) =~= crate::noun::views_of(
                            before,
                        ).push((*c.head)@));
                        if let Some(rest) = crate::noun::unpack_n(t@, (k - 1) as nat) {
                            assert(crate::noun::views_of(before) + (seq![(*c.head)@] + rest)
                                =~= crate::noun::views_of(nouns@) + rest);
                        }
                    }
                    noun = t;
                    k = k - 1;
                },
            }
        }
        let ghost before = nouns@;
        nouns.push(noun);
        proof {
            assert(crate::noun::views_of(nouns@) =~= crate::noun::views_of(before).push(
                nouns@.last()@,
            ));
            assert(crate::noun::views_of(before) + seq![nouns@.last()@] =~= crate
                ::noun::views_of(nouns@));
        }
        Some(nouns)
    }

    /// Packs a sequence of at least two nouns into the right-nested cell
    /// `[a1 a2 ... aN]`.
    pub fn from_vec(nouns: Vec<Rc<Noun>>) -> (r: Cell)
        requires
            nouns@.len() >= 2,
            crate::noun::all_wf(nouns@),
        ensures
            r@ == crate::noun::nested(crate::noun::views_of(nouns@)),
            r.wf(),
    {
        let n = nouns.len();
        let mut acc: Rc<Noun> = Rc::clone(&nouns[n - 1]);
        let mut i = n - 1;
        proof {
            assert(crate::noun::views_of(nouns@).skip(i as int) =~= seq![acc@]);
        }
        while i > 1
            invariant
                1 <= i <= n - 1,
                n == nouns@.len(),
                crate::noun::all_wf(nouns@),
                (*acc).wf(),
                acc@ == crate::noun::nested(crate::noun::views_of(nouns@).skip(i as int)),
            decreases i,
        {
            i = i - 1;
            let ghost prev = acc@;
            acc = Cell::new(Rc::clone(&nouns[i]), acc).into_noun_ptr();
            proof {
                let vs = crate::noun::views_of(nouns@);
                assert(vs.skip(i as int).skip(1) =~= vs.skip(i as int + 1));
                assert(vs.skip(i as int)[0] == nouns@[i as int]@);
                assert(acc@ == crate::noun::nested(vs.skip(i as int)));
            }
        }
        let r = Cell::new(Rc::clone(&nouns[0]), acc);
        proof {
            let vs = crate::noun::views_of(nouns@);
            assert(vs.skip(1)[0] == nouns@[1]@);
            assert(vs.skip(0) =~= vs);
            assert(vs.skip(0).skip(1) =~= vs.skip(1));
            assert(vs[0] == nouns@[0]@);
            assert(r@ == crate::noun::nested(vs));
        }
        r
    }

    /// Converts this cell into its head and tail, consuming the cell.
    pub fn into_parts(self) -> (r: (Rc<Noun>, Rc<Noun>))
        ensures
            r.0@ == self@.head_s(),
            r.1@ == self@.tail_s(),
            self.wf() ==> (*r.0).wf() && (*r.1).wf(),
    {
        (self.head, self.tail)
    }
}

} // verus!
