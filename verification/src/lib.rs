//! A small verified checker for ownership and borrowing rules.
//!
//! The library consumes an ordered trace of binding, move, borrow, use and
//! scope events and decides whether the trace respects four rules: move
//! semantics (a moved-from binding is unusable), single exclusive borrow,
//! exclusivity between shared and exclusive borrows, and containment of a
//! reference's lifetime in the scope that created it.  The verdict is either
//! `Ok` or the first violation together with the index of the offending event.

use vstd::prelude::*;

pub mod checker;
pub mod events;
pub mod laws;
pub mod model;

verus! {

/// Returning an owned value out of a function is always safe: ownership of
/// the freshly allocated box transfers to the caller, so no reference to a
/// local is ever created.  This is the well-behaved counterpart of the
/// dangling-reference traces that the checker rejects.
pub fn a_func() -> (r: Box<u8>)
    ensures
        *r == 10,
{
    let x = Box::new(10u8);
    x
}

} // verus!
