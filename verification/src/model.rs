//! The mathematical model of the checker.
//!
//! A checker state is a pair of sequences: the bindings and the references
//! seen so far, each carrying the flags the rules depend on.  Entries are
//! never removed; a binding that ends with its scope is marked dead and a
//! reference whose scope ends is marked expired, so that a later use of the
//! name can still be recognized and reported.  A name introduced twice
//! shadows its earlier entry: lookups always find the latest entry.
//!
//! `step` gives the transition relation for one event, `run` folds a whole
//! trace, and `check_spec` is the verdict the executable checker is proved
//! to return.

use crate::events::{Event, Violation, ViolationKind};
use vstd::prelude::*;

verus! {

/// A binding the checker has seen: its name, the scope it was declared in,
/// whether its value has been moved away, and whether its scope is still open.
#[derive(Clone, Copy)]
pub struct BindingEntry {
    pub name: u64,
    pub scope: u64,
    pub moved: bool,
    pub live: bool,
}

/// A reference the checker has seen: its name, the name of the binding it
/// borrows, whether the borrow is exclusive, the scope bounding its lifetime,
/// whether that scope has ended, and whether it was marked as returned.
#[derive(Clone, Copy)]
pub struct RefEntry {
    pub name: u64,
    pub target: u64,
    pub exclusive: bool,
    pub scope: u64,
    pub expired: bool,
    pub returned: bool,
}

/// The abstract checker state: every binding and reference seen so far.
#[verifier::ext_equal]
pub struct StateModel {
    pub bindings: Seq<BindingEntry>,
    pub refs: Seq<RefEntry>,
}

/// The state before any event: nothing has been seen.
pub open spec fn init_state() -> StateModel {
    StateModel { bindings: Seq::empty(), refs: Seq::empty() }
}

/// The index of the latest binding entry named `name`, or `-1` if there is
/// none.  The latest entry decides: a re-bound name shadows older entries.
pub open spec fn find_binding(bs: Seq<BindingEntry>, name: u64) -> int
    decreases bs.len(),
{
    if bs.len() == 0 {
        -1
    } else if bs.last().name == name {
        bs.len() - 1
    } else {
        find_binding(bs.drop_last(), name)
    }
}

/// The index of the latest reference entry named `name`, or `-1`.
pub open spec fn find_ref(rs: Seq<RefEntry>, name: u64) -> int
    decreases rs.len(),
{
    if rs.len() == 0 {
        -1
    } else if rs.last().name == name {
        rs.len() - 1
    } else {
        find_ref(rs.drop_last(), name)
    }
}

/// The binding named `name` exists, its scope is open, and it has not been
/// moved away: every rule that touches a binding asks for this first.
pub open spec fn binding_usable(st: StateModel, name: u64) -> bool {
    let i = find_binding(st.bindings, name);
    i >= 0 && st.bindings[i].live && !st.bindings[i].moved
}

/// The scope of the latest binding named `name`.
pub open spec fn binding_scope(st: StateModel, name: u64) -> u64
    recommends
        find_binding(st.bindings, name) >= 0,
{
    st.bindings[find_binding(st.bindings, name)].scope
}

/// Entry `i` is an active (unexpired) reference to `target`.
pub open spec fn active_ref_at(rs: Seq<RefEntry>, i: int, target: u64) -> bool {
    0 <= i < rs.len() && rs[i].target == target && !rs[i].expired
}

/// Some active exclusive reference to `target` exists.
pub open spec fn has_active_exclusive(rs: Seq<RefEntry>, target: u64) -> bool {
    exists|i: int| active_ref_at(rs, i, target) && rs[i].exclusive
}

/// Some active shared reference to `target` exists.
pub open spec fn has_active_shared(rs: Seq<RefEntry>, target: u64) -> bool {
    exists|i: int| active_ref_at(rs, i, target) && !rs[i].exclusive
}

/// Entry `i` is an active reference created in `scope` and marked returned:
/// closing `scope` now would let it escape.
pub open spec fn escaping_at(rs: Seq<RefEntry>, i: int, scope: u64) -> bool {
    0 <= i < rs.len() && rs[i].scope == scope && !rs[i].expired && rs[i].returned
}

/// Some reference created in `scope` is active and marked returned.
pub open spec fn has_escaping(rs: Seq<RefEntry>, scope: u64) -> bool {
    exists|i: int| escaping_at(rs, i, scope)
}

/// What closing `scope` does to a binding: one declared in that scope dies.
pub open spec fn close_binding(e: BindingEntry, scope: u64) -> BindingEntry {
    if e.scope == scope {
        BindingEntry { name: e.name, scope: e.scope, moved: e.moved, live: false }
    } else {
        e
    }
}

/// What closing `scope` does to a reference: one created in that scope
/// expires.
pub open spec fn expire_ref(e: RefEntry, scope: u64) -> RefEntry {
    if e.scope == scope {
        RefEntry {
            name: e.name,
            target: e.target,
            exclusive: e.exclusive,
            scope: e.scope,
            expired: true,
            returned: e.returned,
        }
    } else {
        e
    }
}

/// A reference is dangling when its own scope has ended, or the binding it
/// borrows is gone: destroyed with its scope, or moved away.
pub open spec fn ref_dangling(st: StateModel, r: RefEntry) -> bool {
    ||| r.expired
    ||| {
        let t = find_binding(st.bindings, r.target);
        t < 0 || !st.bindings[t].live || st.bindings[t].moved
    }
}

/// Transition for `Move { source, dest }`.
///
/// A move of a name the checker has never seen is ignored.  A moved-from
/// source is a use after move; a source whose scope has ended is a dangling
/// access; an active exclusive reference to the source makes the move a use
/// after move, and active shared references make it a move while borrowed.
/// Otherwise the source is marked moved and `dest` becomes a fresh usable
/// binding in the source's scope.
pub open spec fn step_move(st: StateModel, source: u64, dest: u64) -> Result<
    StateModel,
    ViolationKind,
> {
    let i = find_binding(st.bindings, source);
    if i < 0 {
        Ok(st)
    } else if st.bindings[i].moved {
        Err(ViolationKind::UseAfterMove)
    } else if !st.bindings[i].live {
        Err(ViolationKind::DanglingReference)
    } else if has_active_exclusive(st.refs, source) {
        Err(ViolationKind::UseAfterMove)
    } else if has_active_shared(st.refs, source) {
        Err(ViolationKind::BorrowedWhileMoving)
    } else {
        let src = st.bindings[i];
        let moved_src = BindingEntry { name: src.name, scope: src.scope, moved: true, live: src.live };
        let fresh = BindingEntry { name: dest, scope: src.scope, moved: false, live: true };
        Ok(StateModel { bindings: st.bindings.update(i, moved_src).push(fresh), refs: st.refs })
    }
}

/// Transition for the two borrow events.
///
/// A borrow of an unknown target is ignored; a moved target is a use after
/// move and a dead one a dangling access.  An active exclusive reference to
/// the target blocks any borrow, and any active reference blocks an
/// exclusive borrow.  Otherwise a fresh active reference is recorded.
pub open spec fn step_borrow(
    st: StateModel,
    reference: u64,
    target: u64,
    scope: u64,
    exclusive: bool,
) -> Result<StateModel, ViolationKind> {
    let i = find_binding(st.bindings, target);
    if i < 0 {
        Ok(st)
    } else if st.bindings[i].moved {
        Err(ViolationKind::UseAfterMove)
    } else if !st.bindings[i].live {
        Err(ViolationKind::DanglingReference)
    } else if has_active_exclusive(st.refs, target) || (exclusive && has_active_shared(
        st.refs,
        target,
    )) {
        Err(ViolationKind::ConflictingBorrow)
    } else {
        let fresh = RefEntry {
            name: reference,
            target,
            exclusive,
            scope,
            expired: false,
            returned: false,
        };
        Ok(StateModel { bindings: st.bindings, refs: st.refs.push(fresh) })
    }
}

/// Transition for `Use { name }`.
///
/// A name naming a binding: using it after a move is a use after move, after
/// its scope ended a dangling access.  Otherwise, a name naming a reference:
/// using a dangling reference is a dangling access.  An unknown name is
/// ignored.  A successful use changes nothing.
pub open spec fn step_use(st: StateModel, name: u64) -> Result<StateModel, ViolationKind> {
    let i = find_binding(st.bindings, name);
    if i >= 0 {
        if st.bindings[i].moved {
            Err(ViolationKind::UseAfterMove)
        } else if !st.bindings[i].live {
            Err(ViolationKind::DanglingReference)
        } else {
            Ok(st)
        }
    } else {
        let j = find_ref(st.refs, name);
        if j < 0 {
            Ok(st)
        } else if ref_dangling(st, st.refs[j]) {
            Err(ViolationKind::DanglingReference)
        } else {
            Ok(st)
        }
    }
}

/// Transition for `Return { reference }`: the latest reference of that name
/// is marked as handed out of the current function.  Unknown names are
/// ignored; the violation, if any, surfaces when the reference's scope ends.
pub open spec fn step_return(st: StateModel, reference: u64) -> Result<
    StateModel,
    ViolationKind,
> {
    let j = find_ref(st.refs, reference);
    if j < 0 {
        Ok(st)
    } else {
        let r = st.refs[j];
        let marked = RefEntry {
            name: r.name,
            target: r.target,
            exclusive: r.exclusive,
            scope: r.scope,
            expired: r.expired,
            returned: true,
        };
        Ok(StateModel { bindings: st.bindings, refs: st.refs.update(j, marked) })
    }
}

/// Transition for `EndScope { scope }`.
///
/// If a reference created in the scope is active and marked returned, it
/// escapes its lifetime bound.  Otherwise every binding declared in the scope
/// dies and every reference created in it expires.
pub open spec fn step_end_scope(st: StateModel, scope: u64) -> Result<StateModel, ViolationKind> {
    if has_escaping(st.refs, scope) {
        Err(ViolationKind::EscapingReference)
    } else {
        Ok(
            StateModel {
                bindings: Seq::new(
                    st.bindings.len(),
                    |i: int| close_binding(st.bindings[i], scope),
                ),
                refs: Seq::new(st.refs.len(), |i: int| expire_ref(st.refs[i], scope)),
            },
        )
    }
}

/// The transition relation of the checker: the state after one event, or the
/// kind of rule the event breaks.
pub open spec fn step(st: StateModel, ev: Event) -> Result<StateModel, ViolationKind> {
    match ev {
        Event::Bind { name, scope } => Ok(
            StateModel {
                bindings: st.bindings.push(
                    BindingEntry { name, scope, moved: false, live: true },
                ),
                refs: st.refs,
            },
        ),
        Event::Move { source, dest } => step_move(st, source, dest),
        Event::BorrowShared { reference, target, scope } => step_borrow(
            st,
            reference,
            target,
            scope,
            false,
        ),
        Event::BorrowExclusive { reference, target, scope } => step_borrow(
            st,
            reference,
            target,
            scope,
            true,
        ),
        Event::Use { name } => step_use(st, name),
        Event::Return { reference } => step_return(st, reference),
        Event::EndScope { scope } => step_end_scope(st, scope),
    }
}

/// Folding the transition relation over a whole trace: the final state, or
/// the first violation with the index of the event that caused it.
pub open spec fn run(events: Seq<Event>) -> Result<StateModel, Violation>
    decreases events.len(),
{
    if events.len() == 0 {
        Ok(init_state())
    } else {
        match run(events.drop_last()) {
            Ok(st) => match step(st, events.last()) {
                Ok(st2) => Ok(st2),
                Err(kind) => Err(Violation { kind, event_index: (events.len() - 1) as usize }),
            },
            Err(v) => Err(v),
        }
    }
}

/// The verdict on a trace: `Ok` when every event respects the rules, else
/// the first violation.  This is what the executable checker returns.
pub open spec fn check_spec(events: Seq<Event>) -> Result<(), Violation> {
    match run(events) {
        Ok(_) => Ok(()),
        Err(v) => Err(v),
    }
}

/// The first `n` events break no rule.
pub open spec fn prefix_ok(events: Seq<Event>, n: int) -> bool {
    run(events.take(n)) is Ok
}

/// The state after the first `n` events of a trace that is violation-free up
/// to there.
pub open spec fn state_at(events: Seq<Event>, n: int) -> StateModel
    recommends
        prefix_ok(events, n),
{
    run(events.take(n))->Ok_0
}

/// `find_binding` returns `-1` or the greatest index carrying the name: the
/// entry it points at has the name, and no later entry does.
pub proof fn lemma_find_binding_props(bs: Seq<BindingEntry>, name: u64)
    ensures
        find_binding(bs, name) == -1 || (0 <= find_binding(bs, name) < bs.len() && bs[find_binding(
            bs,
            name,
        )].name == name),
        forall|k: int| find_binding(bs, name) < k < bs.len() ==> bs[k].name != name,
    decreases bs.len(),
{
    if bs.len() == 0 {
    } else if bs.last().name == name {
    } else {
        lemma_find_binding_props(bs.drop_last(), name);
        assert forall|k: int| find_binding(bs, name) < k < bs.len() implies bs[k].name
            != name by {
            if k < bs.len() - 1 {
                assert(bs.drop_last()[k] == bs[k]);
            }
        }
    }
}

/// `find_ref` returns `-1` or the greatest index carrying the name.
pub proof fn lemma_find_ref_props(rs: Seq<RefEntry>, name: u64)
    ensures
        find_ref(rs, name) == -1 || (0 <= find_ref(rs, name) < rs.len() && rs[find_ref(
            rs,
            name,
        )].name == name),
        forall|k: int| find_ref(rs, name) < k < rs.len() ==> rs[k].name != name,
    decreases rs.len(),
{
    if rs.len() == 0 {
    } else if rs.last().name == name {
    } else {
        lemma_find_ref_props(rs.drop_last(), name);
        assert forall|k: int| find_ref(rs, name) < k < rs.len() implies rs[k].name != name by {
            if k < rs.len() - 1 {
                assert(rs.drop_last()[k] == rs[k]);
            }
        }
    }
}

/// Appending an entry moves the lookup to it when the names match and leaves
/// the lookup unchanged otherwise.
pub proof fn lemma_find_binding_push(bs: Seq<BindingEntry>, e: BindingEntry, name: u64)
    ensures
        find_binding(bs.push(e), name) == if e.name == name {
            bs.len() as int
        } else {
            find_binding(bs, name)
        },
{
    assert(bs.push(e).drop_last() =~= bs);
    assert(bs.push(e).last() == e);
}

/// Appending a reference entry moves or keeps the lookup the same way.
pub proof fn lemma_find_ref_push(rs: Seq<RefEntry>, e: RefEntry, name: u64)
    ensures
        find_ref(rs.push(e), name) == if e.name == name {
            rs.len() as int
        } else {
            find_ref(rs, name)
        },
{
    assert(rs.push(e).drop_last() =~= rs);
    assert(rs.push(e).last() == e);
}

/// Two binding sequences of the same length and the same names in the same
/// places agree on every lookup.
pub proof fn lemma_find_binding_same_names(bs1: Seq<BindingEntry>, bs2: Seq<BindingEntry>, name: u64)
    requires
        bs1.len() == bs2.len(),
        forall|i: int| 0 <= i < bs1.len() ==> bs1[i].name == #[trigger] bs2[i].name,
    ensures
        find_binding(bs1, name) == find_binding(bs2, name),
    decreases bs1.len(),
{
    if bs1.len() > 0 {
        assert(bs1.last().name == bs2.last().name);
        if bs1.last().name != name {
            assert(forall|i: int|
                0 <= i < bs1.drop_last().len() ==> bs1.drop_last()[i].name
                    == #[trigger] bs2.drop_last()[i].name);
            lemma_find_binding_same_names(bs1.drop_last(), bs2.drop_last(), name);
        }
    }
}

/// Two reference sequences of the same length and the same names in the same
/// places agree on every lookup.
pub proof fn lemma_find_ref_same_names(rs1: Seq<RefEntry>, rs2: Seq<RefEntry>, name: u64)
    requires
        rs1.len() == rs2.len(),
        forall|i: int| 0 <= i < rs1.len() ==> rs1[i].name == #[trigger] rs2[i].name,
    ensures
        find_ref(rs1, name) == find_ref(rs2, name),
    decreases rs1.len(),
{
    if rs1.len() > 0 {
        assert(rs1.last().name == rs2.last().name);
        if rs1.last().name != name {
            assert(forall|i: int|
                0 <= i < rs1.drop_last().len() ==> rs1.drop_last()[i].name
                    == #[trigger] rs2.drop_last()[i].name);
            lemma_find_ref_same_names(rs1.drop_last(), rs2.drop_last(), name);
        }
    }
}

/// Unfolding `run` one event at a time: the outcome on a prefix of `n + 1`
/// events is the outcome on the first `n` followed by one `step`.
pub proof fn lemma_run_unfold(events: Seq<Event>, n: int)
    requires
        0 <= n < events.len(),
    ensures
        run(events.take(n + 1)) == (match run(events.take(n)) {
            Ok(st) => match step(st, events[n]) {
                Ok(st2) => Ok::<StateModel, Violation>(st2),
                Err(kind) => Err(Violation { kind, event_index: n as usize }),
            },
            Err(v) => Err(v),
        }),
{
    let p = events.take(n + 1);
    assert(p.drop_last() =~= events.take(n));
    assert(p.last() == events[n]);
    assert(p.len() == n + 1);
}

/// Once a prefix has a violation, every longer prefix reports that same
/// violation: the checker stops at the first broken rule.
pub proof fn lemma_run_err_persists(events: Seq<Event>, m: int, n: int)
    requires
        0 <= m <= n <= events.len(),
        run(events.take(m)) is Err,
    ensures
        run(events.take(n)) == run(events.take(m)),
    decreases n - m,
{
    if n > m {
        lemma_run_err_persists(events, m, n - 1);
        lemma_run_unfold(events, n - 1);
    }
}

/// A violation-free prefix stays violation-free when shortened.
pub proof fn lemma_prefix_ok_mono(events: Seq<Event>, m: int, n: int)
    requires
        0 <= m <= n <= events.len(),
        prefix_ok(events, n),
    ensures
        prefix_ok(events, m),
{
    if !(run(events.take(m)) is Ok) {
        lemma_run_err_persists(events, m, n);
    }
}

/// When the first `n` events break no rule and event `n` does, the verdict
/// on the whole trace is exactly that violation at index `n`.
pub proof fn lemma_first_violation(events: Seq<Event>, n: int, kind: ViolationKind)
    requires
        0 <= n < events.len(),
        events.len() <= usize::MAX,
        prefix_ok(events, n),
        step(state_at(events, n), events[n]) == Err::<StateModel, ViolationKind>(kind),
    ensures
        check_spec(events) == Err::<(), Violation>(
            Violation { kind, event_index: n as usize },
        ),
{
    lemma_run_unfold(events, n);
    lemma_run_err_persists(events, n + 1, events.len() as int);
    assert(events.take(events.len() as int) =~= events);
}

} // verus!
