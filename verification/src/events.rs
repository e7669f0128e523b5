//! The event vocabulary of a checked trace and the verdict types.
//!
//! A trace is an ordered sequence of events over plain identifiers: names of
//! bindings and references, and scope ids, all carried as integers.  The
//! checker never looks ahead; a violation is reported at the first event that
//! breaks a rule, with its index in the trace.

use vstd::prelude::*;

verus! {

/// One event of a trace handed to the checker.
///
/// Names and scope ids are opaque integer tokens chosen by the caller.
/// A `Bind` introduces (or shadows) a binding in a scope; `Move` transfers
/// ownership from `source` to a fresh `dest` binding; the two borrow events
/// create a reference to `target`, with the reference's lifetime bounded by
/// `scope`; `Use` touches a binding or reference by name; `Return` marks a
/// reference as escaping to the caller; `EndScope` closes a scope, destroying
/// the bindings declared in it and expiring the references created in it.
#[derive(Clone, Copy, PartialEq, Eq, Structural, Debug)]
pub enum Event {
    Bind { name: u64, scope: u64 },
    Move { source: u64, dest: u64 },
    BorrowShared { reference: u64, target: u64, scope: u64 },
    BorrowExclusive { reference: u64, target: u64, scope: u64 },
    Use { name: u64 },
    Return { reference: u64 },
    EndScope { scope: u64 },
}

/// The kind of a detected violation.
///
/// - `UseAfterMove`: a moved-from binding was used, moved again, or borrowed.
/// - `BorrowedWhileMoving`: a binding was moved while shared references to it
///   were still active.
/// - `ConflictingBorrow`: a borrow was requested while an incompatible
///   reference to the same binding was active (any active reference blocks an
///   exclusive borrow; an active exclusive reference blocks any borrow).
/// - `DanglingReference`: a name was used after the binding or reference it
///   denotes ended: the reference's scope was closed, or the binding behind
///   it was destroyed or moved away.
/// - `EscapingReference`: a scope ended while a reference created in it had
///   been marked as returned to the caller.
#[derive(Clone, Copy, PartialEq, Eq, Structural, Debug)]
pub enum ViolationKind {
    UseAfterMove,
    BorrowedWhileMoving,
    ConflictingBorrow,
    DanglingReference,
    EscapingReference,
}

/// A verdict against a trace: the kind of the first rule broken and the index
/// of the event that broke it.
#[derive(Clone, Copy, PartialEq, Eq, Structural, Debug)]
pub struct Violation {
    pub kind: ViolationKind,
    pub event_index: usize,
}

} // verus!
