//! Operations that callers may implement for their own noun-backed
//! types.

use vstd::prelude::*;

verus! {

/// Unifying equality: equality that may consult a context, for callers
/// whose types compare nouns under an environment of their own.
pub trait UnifyEq<C>: Sized {
    /// Compares two values under the given context.
    fn eq(&self, other: &Self, ctx: C) -> bool;
}

} // verus!
