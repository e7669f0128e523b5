//! The executable checker, proved to return exactly the verdict of the
//! mathematical model in `model`.

use crate::events::{Event, Violation, ViolationKind};
use crate::model::{
    active_ref_at, check_spec, close_binding, escaping_at, expire_ref, find_binding, find_ref,
    has_active_exclusive, has_active_shared, has_escaping, init_state, lemma_find_binding_props,
    lemma_find_ref_props, lemma_run_unfold, ref_dangling, run, step, BindingEntry, RefEntry,
    StateModel,
};
use vstd::pervasive::VecAdditionalExecFns;
use vstd::prelude::*;

verus! {

/// The index of the latest binding entry named `name`, if any.
fn find_binding_index(bindings: &Vec<BindingEntry>, name: u64) -> (r: Option<usize>)
    ensures
        match r {
            Some(i) => i < bindings@.len() && find_binding(bindings@, name) == i as int,
            None => find_binding(bindings@, name) == -1,
        },
{
    let mut i: usize = bindings.len();
    while i > 0
        invariant
            i <= bindings@.len(),
            forall|k: int| i <= k < bindings@.len() ==> bindings@[k].name != name,
        decreases i,
    {
        i = i - 1;
        if bindings[i].name == name {
            proof {
                lemma_find_binding_props(bindings@, name);
            }
            return Some(i);
        }
    }
    proof {
        lemma_find_binding_props(bindings@, name);
    }
    None
}

/// The index of the latest reference entry named `name`, if any.
fn find_ref_index(refs: &Vec<RefEntry>, name: u64) -> (r: Option<usize>)
    ensures
        match r {
            Some(i) => i < refs@.len() && find_ref(refs@, name) == i as int,
            None => find_ref(refs@, name) == -1,
        },
{
    let mut i: usize = refs.len();
    while i > 0
        invariant
            i <= refs@.len(),
            forall|k: int| i <= k < refs@.len() ==> refs@[k].name != name,
        decreases i,
    {
        i = i - 1;
        if refs[i].name == name {
            proof {
                lemma_find_ref_props(refs@, name);
            }
            return Some(i);
        }
    }
    proof {
        lemma_find_ref_props(refs@, name);
    }
    None
}

/// Whether some active exclusive reference to `target` exists.
fn scan_active_exclusive(refs: &Vec<RefEntry>, target: u64) -> (r: bool)
    ensures
        r == has_active_exclusive(refs@, target),
{
    let mut i: usize = 0;
    while i < refs.len()
        invariant
            i <= refs@.len(),
            forall|k: int|
                0 <= k < i ==> !(active_ref_at(refs@, k, target) && refs@[k].exclusive),
        decreases refs@.len() - i,
    {
        let e = refs[i];
        if e.target == target && e.exclusive && !e.expired {
            assert(active_ref_at(refs@, i as int, target) && refs@[i as int].exclusive);
            return true;
        }
        i = i + 1;
    }
    false
}

/// Whether some active shared reference to `target` exists.
fn scan_active_shared(refs: &Vec<RefEntry>, target: u64) -> (r: bool)
    ensures
        r == has_active_shared(refs@, target),
{
    let mut i: usize = 0;
    while i < refs.len()
        invariant
            i <= refs@.len(),
            forall|k: int|
                0 <= k < i ==> !(active_ref_at(refs@, k, target) && !refs@[k].exclusive),
        decreases refs@.len() - i,
    {
        let e = refs[i];
        if e.target == target && !e.exclusive && !e.expired {
            assert(active_ref_at(refs@, i as int, target) && !refs@[i as int].exclusive);
            return true;
        }
        i = i + 1;
    }
    false
}

/// Whether some active reference created in `scope` is marked returned.
fn scan_escaping(refs: &Vec<RefEntry>, scope: u64) -> (r: bool)
    ensures
        r == has_escaping(refs@, scope),
{
    let mut i: usize = 0;
    while i < refs.len()
        invariant
            i <= refs@.len(),
            forall|k: int| 0 <= k < i ==> !escaping_at(refs@, k, scope),
        decreases refs@.len() - i,
    {
        let e = refs[i];
        if e.scope == scope && !e.expired && e.returned {
            assert(escaping_at(refs@, i as int, scope));
            return true;
        }
        i = i + 1;
    }
    false
}

/// The running state of a check: the bindings and references seen so far.
/// Its view is the abstract `StateModel` the transition relation speaks of.
pub struct Checker {
    bindings: Vec<BindingEntry>,
    refs: Vec<RefEntry>,
}

impl View for Checker {
    type V = StateModel;

    closed spec fn view(&self) -> StateModel {
        StateModel { bindings: self.bindings@, refs: self.refs@ }
    }
}

impl Checker {
    /// A checker that has seen no events yet.
    pub fn new() -> (r: Checker)
        ensures
            r@ == init_state(),
    {
        let c = Checker { bindings: Vec::new(), refs: Vec::new() };
        proof {
            assert(c@ =~= init_state());
        }
        c
    }

    /// Feed one event to the checker.
    ///
    /// The state advances exactly as the transition relation `step` of the
    /// model says; on a violation the state is left unchanged and the kind
    /// of the broken rule is returned.
    pub fn process(&mut self, ev: &Event) -> (r: Result<(), ViolationKind>)
        ensures
            match r {
                Ok(()) => step(old(self)@, *ev) == Ok::<StateModel, ViolationKind>(final(self)@),
                Err(kind) => step(old(self)@, *ev) == Err::<StateModel, ViolationKind>(kind)
                    && final(self)@ == old(self)@,
            },
    {
        match *ev {
            Event::Bind { name, scope } => {
                self.bindings.push(BindingEntry { name, scope, moved: false, live: true });
                Ok(())
            },
            Event::Move { source, dest } => {
                match find_binding_index(&self.bindings, source) {
                    None => Ok(()),
                    Some(i) => {
                        let entry = self.bindings[i];
                        if entry.moved {
                            Err(ViolationKind::UseAfterMove)
                        } else if !entry.live {
                            Err(ViolationKind::DanglingReference)
                        } else if scan_active_exclusive(&self.refs, source) {
                            Err(ViolationKind::UseAfterMove)
                        } else if scan_active_shared(&self.refs, source) {
                            Err(ViolationKind::BorrowedWhileMoving)
                        } else {
                            self.bindings.set(
                                i,
                                BindingEntry {
                                    name: entry.name,
                                    scope: entry.scope,
                                    moved: true,
                                    live: entry.live,
                                },
                            );
                            self.bindings.push(
                                BindingEntry { name: dest, scope: entry.scope, moved: false, live: true },
                            );
                            Ok(())
                        }
                    },
                }
            },
            Event::BorrowShared { reference, target, scope } => {
                self.borrow(reference, target, scope, false)
            },
            Event::BorrowExclusive { reference, target, scope } => {
                self.borrow(reference, target, scope, true)
            },
            Event::Use { name } => {
                match find_binding_index(&self.bindings, name) {
                    Some(i) => {
                        let entry = self.bindings[i];
                        if entry.moved {
                            Err(ViolationKind::UseAfterMove)
                        } else if !entry.live {
                            Err(ViolationKind::DanglingReference)
                        } else {
                            Ok(())
                        }
                    },
                    None => {
                        match find_ref_index(&self.refs, name) {
                            None => Ok(()),
                            Some(j) => {
                                let r = self.refs[j];
                                if r.expired {
                                    Err(ViolationKind::DanglingReference)
                                } else {
                                    match find_binding_index(&self.bindings, r.target) {
                                        None => Err(ViolationKind::DanglingReference),
                                        Some(t) => {
                                            let tb = self.bindings[t];
                                            if !tb.live || tb.moved {
                                                Err(ViolationKind::DanglingReference)
                                            } else {
                                                assert(!ref_dangling(self@, self@.refs[j as int]));
                                                Ok(())
                                            }
                                        },
                                    }
                                }
                            },
                        }
                    },
                }
            },
            Event::Return { reference } => {
                match find_ref_index(&self.refs, reference) {
                    None => Ok(()),
                    Some(j) => {
                        let r = self.refs[j];
                        self.refs.set(
                            j,
                            RefEntry {
                                name: r.name,
                                target: r.target,
                                exclusive: r.exclusive,
                                scope: r.scope,
                                expired: r.expired,
                                returned: true,
                            },
                        );
                        Ok(())
                    },
                }
            },
            Event::EndScope { scope } => {
                if scan_escaping(&self.refs, scope) {
                    Err(ViolationKind::EscapingReference)
                } else {
                    let ghost old_b = self.bindings@;
                    let ghost old_r = self.refs@;
                    let mut i: usize = 0;
                    while i < self.bindings.len()
                        invariant
                            i <= self.bindings@.len(),
                            self.bindings@.len() == old_b.len(),
                            self.refs@ == old_r,
                            forall|k: int|
                                0 <= k < i ==> self.bindings@[k] == close_binding(
                                    old_b[k],
                                    scope,
                                ),
                            forall|k: int| i <= k < old_b.len() ==> self.bindings@[k] == old_b[k],
                        decreases old_b.len() - i,
                    {
                        let e = self.bindings[i];
                        if e.scope == scope {
                            self.bindings.set(
                                i,
                                BindingEntry {
                                    name: e.name,
                                    scope: e.scope,
                                    moved: e.moved,
                                    live: false,
                                },
                            );
                        }
                        i = i + 1;
                    }
                    let mut j: usize = 0;
                    while j < self.refs.len()
                        invariant
                            j <= self.refs@.len(),
                            self.refs@.len() == old_r.len(),
                            self.bindings@.len() == old_b.len(),
                            forall|k: int|
                                0 <= k < old_b.len() ==> self.bindings@[k] == close_binding(
                                    old_b[k],
                                    scope,
                                ),
                            forall|k: int|
                                0 <= k < j ==> self.refs@[k] == expire_ref(old_r[k], scope),
                            forall|k: int| j <= k < old_r.len() ==> self.refs@[k] == old_r[k],
                        decreases old_r.len() - j,
                    {
                        let e = self.refs[j];
                        if e.scope == scope {
                            self.refs.set(
                                j,
                                RefEntry {
                                    name: e.name,
                                    target: e.target,
                                    exclusive: e.exclusive,
                                    scope: e.scope,
                                    expired: true,
                                    returned: e.returned,
                                },
                            );
                        }
                        j = j + 1;
                    }
                    proof {
                        assert(self.bindings@ =~= Seq::new(
                            old_b.len(),
                            |k: int| close_binding(old_b[k], scope),
                        ));
                        assert(self.refs@ =~= Seq::new(
                            old_r.len(),
                            |k: int| expire_ref(old_r[k], scope),
                        ));
                    }
                    Ok(())
                }
            },
        }
    }

    /// Feed a borrow event: the two borrow kinds share their logic.
    fn borrow(&mut self, reference: u64, target: u64, scope: u64, exclusive: bool) -> (r: Result<
        (),
        ViolationKind,
    >)
        ensures
            match r {
                Ok(()) => crate::model::step_borrow(old(self)@, reference, target, scope, exclusive)
                    == Ok::<StateModel, ViolationKind>(final(self)@),
                Err(kind) => crate::model::step_borrow(
                    old(self)@,
                    reference,
                    target,
                    scope,
                    exclusive,
                ) == Err::<StateModel, ViolationKind>(kind) && final(self)@ == old(self)@,
            },
    {
        match find_binding_index(&self.bindings, target) {
            None => Ok(()),
            Some(i) => {
                let entry = self.bindings[i];
                if entry.moved {
                    Err(ViolationKind::UseAfterMove)
                } else if !entry.live {
                    Err(ViolationKind::DanglingReference)
                } else if scan_active_exclusive(&self.refs, target) {
                    Err(ViolationKind::ConflictingBorrow)
                } else if exclusive && scan_active_shared(&self.refs, target) {
                    Err(ViolationKind::ConflictingBorrow)
                } else {
                    self.refs.push(
                        RefEntry {
                            name: reference,
                            target,
                            exclusive,
                            scope,
                            expired: false,
                            returned: false,
                        },
                    );
                    Ok(())
                }
            },
        }
    }
}

/// Check a whole trace: `Ok` when every event respects the ownership and
/// borrowing rules, otherwise the first violation with the index of the
/// offending event.  The verdict equals `check_spec` on the trace, so it is
/// a pure function of the events alone.
pub fn check(events: &Vec<Event>) -> (r: Result<(), Violation>)
    ensures
        r == check_spec(events@),
{
    let mut state = Checker::new();
    proof {
        assert(events@.take(0) =~= Seq::<Event>::empty());
    }
    let mut idx: usize = 0;
    while idx < events.len()
        invariant
            idx <= events@.len(),
            run(events@.take(idx as int)) == Ok::<StateModel, Violation>(state@),
        decreases events@.len() - idx,
    {
        let ev = events[idx];
        match state.process(&ev) {
            Ok(()) => {
                proof {
                    lemma_run_unfold(events@, idx as int);
                }
            },
            Err(kind) => {
                proof {
                    lemma_run_unfold(events@, idx as int);
                    crate::model::lemma_run_err_persists(
                        events@,
                        idx as int + 1,
                        events@.len() as int,
                    );
                    assert(events@.take(events@.len() as int) =~= events@);
                }
                return Err(Violation { kind, event_index: idx });
            },
        }
        idx = idx + 1;
    }
    proof {
        assert(events@.take(events@.len() as int) =~= events@);
    }
    Ok(())
}

} // verus!
