//! The laws of the checker, stated over the mathematical model and proved.
//!
//! Each public proof function states one guarantee of the checker for every
//! trace: a moved-from binding can never be used or moved again without the
//! verdict saying so, incompatible borrows are always reported, a reference
//! used after its scope ended is always reported, and the verdict is a pure
//! function of the trace.

use crate::events::{Event, Violation, ViolationKind};
use crate::model::{
    active_ref_at, binding_scope, binding_usable, check_spec, find_binding, find_ref,
    has_active_exclusive, has_active_shared, lemma_find_binding_props, lemma_find_binding_push,
    lemma_find_binding_same_names, lemma_find_ref_props, lemma_find_ref_push,
    lemma_find_ref_same_names, lemma_first_violation, lemma_prefix_ok_mono, lemma_run_unfold,
    prefix_ok, state_at, step, BindingEntry, RefEntry, StateModel,
};
use vstd::prelude::*;

verus! {

/// The event introduces a binding named `name`: a fresh `Bind`, or a `Move`
/// whose destination is `name`.  Such an event shadows the entry the laws
/// below track.
pub open spec fn rebinds(ev: Event, name: u64) -> bool {
    ||| ev matches Event::Bind { name: n, .. } && n == name
    ||| ev matches Event::Move { dest, .. } && dest == name
}

/// The event moves the binding named `name` away.
pub open spec fn moves_source(ev: Event, name: u64) -> bool {
    ev matches Event::Move { source, .. } && source == name
}

/// The event closes the scope `s`.
pub open spec fn ends_scope(ev: Event, s: u64) -> bool {
    ev matches Event::EndScope { scope } && scope == s
}

/// The event creates a reference named `name`, shadowing an older one.
pub open spec fn borrows_as(ev: Event, name: u64) -> bool {
    ||| ev matches Event::BorrowShared { reference, .. } && reference == name
    ||| ev matches Event::BorrowExclusive { reference, .. } && reference == name
}

/// The borrow event of the given kind: exclusive or shared.
pub open spec fn borrow_event(reference: u64, target: u64, scope: u64, exclusive: bool) -> Event {
    if exclusive {
        Event::BorrowExclusive { reference, target, scope }
    } else {
        Event::BorrowShared { reference, target, scope }
    }
}

/// The latest binding named `b` exists and is marked moved.
pub open spec fn binding_moved(st: StateModel, b: u64) -> bool {
    let i = find_binding(st.bindings, b);
    i >= 0 && st.bindings[i].moved
}

/// Reference entry `k` is an unexpired borrow of `b` of the given kind,
/// created in scope `sr`.
pub open spec fn ref_entry_active(st: StateModel, k: int, b: u64, exclusive: bool, sr: u64) -> bool {
    &&& 0 <= k < st.refs.len()
    &&& st.refs[k].target == b
    &&& st.refs[k].exclusive == exclusive
    &&& st.refs[k].scope == sr
    &&& !st.refs[k].expired
}

/// The reference named `r` resolves to entry `k0`, that entry was created in
/// scope `s`, and no binding shadows the name `r`.
pub open spec fn ref_tracked(st: StateModel, r: u64, k0: int, s: u64) -> bool {
    &&& find_ref(st.refs, r) == k0
    &&& 0 <= k0 < st.refs.len()
    &&& st.refs[k0].scope == s
    &&& find_binding(st.bindings, r) == -1
}

/// One successful step never loses the latest binding of a name it does not
/// re-introduce: the entry keeps its scope, its moved flag can only be set by
/// a move of that very name, and its live flag is only cleared by the end of
/// its own scope.
proof fn lemma_step_binding_entry(st: StateModel, ev: Event, st2: StateModel, b: u64)
    requires
        step(st, ev) == Ok::<StateModel, ViolationKind>(st2),
        !rebinds(ev, b),
        find_binding(st.bindings, b) >= 0,
    ensures
        find_binding(st2.bindings, b) >= 0,
        st2.bindings[find_binding(st2.bindings, b)].scope == st.bindings[find_binding(
            st.bindings,
            b,
        )].scope,
        st2.bindings[find_binding(st2.bindings, b)].moved == (st.bindings[find_binding(
            st.bindings,
            b,
        )].moved || moves_source(ev, b)),
        st2.bindings[find_binding(st2.bindings, b)].live == (st.bindings[find_binding(
            st.bindings,
            b,
        )].live && !ends_scope(ev, st.bindings[find_binding(st.bindings, b)].scope)),
{
    let i = find_binding(st.bindings, b);
    lemma_find_binding_props(st.bindings, b);
    match ev {
        Event::Bind { name, scope } => {
            lemma_find_binding_push(
                st.bindings,
                BindingEntry { name, scope, moved: false, live: true },
                b,
            );
        },
        Event::Move { source, dest } => {
            let j = find_binding(st.bindings, source);
            if j >= 0 && !st.bindings[j].moved && st.bindings[j].live && !has_active_exclusive(
                st.refs,
                source,
            ) && !has_active_shared(st.refs, source) {
                lemma_find_binding_props(st.bindings, source);
                let src = st.bindings[j];
                let moved_src = BindingEntry {
                    name: src.name,
                    scope: src.scope,
                    moved: true,
                    live: src.live,
                };
                let fresh = BindingEntry { name: dest, scope: src.scope, moved: false, live: true };
                let u = st.bindings.update(j, moved_src);
                assert(forall|x: int| 0 <= x < u.len() ==> st.bindings[x].name == #[trigger] u[x].name);
                lemma_find_binding_same_names(st.bindings, u, b);
                lemma_find_binding_push(u, fresh, b);
                if source == b {
                    assert(j == i);
                } else {
                    assert(st.bindings[i].name == b);
                    assert(st.bindings[j].name == source);
                    assert(j != i);
                }
            }
        },
        Event::BorrowShared { .. } => {},
        Event::BorrowExclusive { .. } => {},
        Event::Use { .. } => {},
        Event::Return { .. } => {},
        Event::EndScope { scope } => {
            let mapped = Seq::new(
                st.bindings.len(),
                |x: int| crate::model::close_binding(st.bindings[x], scope),
            );
            assert(st2.bindings == mapped);
            assert(forall|x: int|
                0 <= x < st.bindings.len() ==> st.bindings[x].name == #[trigger] mapped[x].name);
            lemma_find_binding_same_names(st.bindings, mapped, b);
        },
    }
}

/// One successful step never invents a binding for a name it does not
/// introduce.
proof fn lemma_step_no_binding(st: StateModel, ev: Event, st2: StateModel, b: u64)
    requires
        step(st, ev) == Ok::<StateModel, ViolationKind>(st2),
        !rebinds(ev, b),
        find_binding(st.bindings, b) == -1,
    ensures
        find_binding(st2.bindings, b) == -1,
{
    match ev {
        Event::Bind { name, scope } => {
            lemma_find_binding_push(
                st.bindings,
                BindingEntry { name, scope, moved: false, live: true },
                b,
            );
        },
        Event::Move { source, dest } => {
            let j = find_binding(st.bindings, source);
            if j >= 0 && !st.bindings[j].moved && st.bindings[j].live && !has_active_exclusive(
                st.refs,
                source,
            ) && !has_active_shared(st.refs, source) {
                lemma_find_binding_props(st.bindings, source);
                let src = st.bindings[j];
                let moved_src = BindingEntry {
                    name: src.name,
                    scope: src.scope,
                    moved: true,
                    live: src.live,
                };
                let fresh = BindingEntry { name: dest, scope: src.scope, moved: false, live: true };
                let u = st.bindings.update(j, moved_src);
                assert(forall|x: int| 0 <= x < u.len() ==> st.bindings[x].name == #[trigger] u[x].name);
                lemma_find_binding_same_names(st.bindings, u, b);
                lemma_find_binding_push(u, fresh, b);
            }
        },
        Event::BorrowShared { .. } => {},
        Event::BorrowExclusive { .. } => {},
        Event::Use { .. } => {},
        Event::Return { .. } => {},
        Event::EndScope { scope } => {
            let mapped = Seq::new(
                st.bindings.len(),
                |x: int| crate::model::close_binding(st.bindings[x], scope),
            );
            assert(st2.bindings == mapped);
            assert(forall|x: int|
                0 <= x < st.bindings.len() ==> st.bindings[x].name == #[trigger] mapped[x].name);
            lemma_find_binding_same_names(st.bindings, mapped, b);
        },
    }
}

/// One successful step keeps every existing reference entry in place: its
/// name, target, kind and scope never change, and it expires exactly when
/// its own scope ends.
proof fn lemma_step_ref_entry(st: StateModel, ev: Event, st2: StateModel, k: int)
    requires
        step(st, ev) == Ok::<StateModel, ViolationKind>(st2),
        0 <= k < st.refs.len(),
    ensures
        st.refs.len() <= st2.refs.len(),
        st2.refs[k].name == st.refs[k].name,
        st2.refs[k].target == st.refs[k].target,
        st2.refs[k].exclusive == st.refs[k].exclusive,
        st2.refs[k].scope == st.refs[k].scope,
        st2.refs[k].expired == (st.refs[k].expired || ends_scope(ev, st.refs[k].scope)),
{
    match ev {
        Event::Bind { .. } => {},
        Event::Move { .. } => {},
        Event::BorrowShared { .. } => {},
        Event::BorrowExclusive { .. } => {},
        Event::Use { .. } => {},
        Event::Return { reference } => {
            lemma_find_ref_props(st.refs, reference);
        },
        Event::EndScope { scope } => {
            let mapped = Seq::new(
                st.refs.len(),
                |x: int| crate::model::expire_ref(st.refs[x], scope),
            );
            assert(st2.refs == mapped);
        },
    }
}

/// One successful step that does not create a reference named `r` keeps the
/// lookup of `r` unchanged.
proof fn lemma_step_find_ref(st: StateModel, ev: Event, st2: StateModel, r: u64)
    requires
        step(st, ev) == Ok::<StateModel, ViolationKind>(st2),
        !borrows_as(ev, r),
    ensures
        find_ref(st2.refs, r) == find_ref(st.refs, r),
{
    match ev {
        Event::Bind { .. } => {},
        Event::Move { .. } => {},
        Event::BorrowShared { reference, target, scope } => {
            let i = find_binding(st.bindings, target);
            if i >= 0 && !st.bindings[i].moved && st.bindings[i].live && !has_active_exclusive(
                st.refs,
                target,
            ) {
                let fresh = RefEntry {
                    name: reference,
                    target,
                    exclusive: false,
                    scope,
                    expired: false,
                    returned: false,
                };
                lemma_find_ref_push(st.refs, fresh, r);
            }
        },
        Event::BorrowExclusive { reference, target, scope } => {
            let i = find_binding(st.bindings, target);
            if i >= 0 && !st.bindings[i].moved && st.bindings[i].live && !has_active_exclusive(
                st.refs,
                target,
            ) && !has_active_shared(st.refs, target) {
                let fresh = RefEntry {
                    name: reference,
                    target,
                    exclusive: true,
                    scope,
                    expired: false,
                    returned: false,
                };
                lemma_find_ref_push(st.refs, fresh, r);
            }
        },
        Event::Use { .. } => {},
        Event::Return { reference } => {
            let j = find_ref(st.refs, reference);
            if j >= 0 {
                lemma_find_ref_props(st.refs, reference);
                assert(forall|x: int|
                    0 <= x < st2.refs.len() ==> st.refs[x].name == #[trigger] st2.refs[x].name);
                lemma_find_ref_same_names(st.refs, st2.refs, r);
            }
        },
        Event::EndScope { scope } => {
            let mapped = Seq::new(
                st.refs.len(),
                |x: int| crate::model::expire_ref(st.refs[x], scope),
            );
            assert(st2.refs == mapped);
            assert(forall|x: int|
                0 <= x < st.refs.len() ==> st.refs[x].name == #[trigger] mapped[x].name);
            lemma_find_ref_same_names(st.refs, mapped, r);
        },
    }
}

/// Along a violation-free stretch that never re-introduces the name `b`, a
/// moved binding stays moved.
proof fn lemma_run_keeps_moved(events: Seq<Event>, b: u64, m: int, n: int)
    requires
        0 <= m <= n <= events.len(),
        prefix_ok(events, n),
        binding_moved(state_at(events, m), b),
        forall|k: int| m <= k < n ==> !rebinds(#[trigger] events[k], b),
    ensures
        binding_moved(state_at(events, n), b),
    decreases n - m,
{
    if n > m {
        lemma_prefix_ok_mono(events, n - 1, n);
        lemma_run_keeps_moved(events, b, m, n - 1);
        lemma_run_unfold(events, n - 1);
        lemma_step_binding_entry(
            state_at(events, n - 1),
            events[n - 1],
            state_at(events, n),
            b,
        );
    }
}

/// Along a violation-free stretch that never re-introduces `b`, never closes
/// the scope of reference entry `k` and never closes the scope of `b`'s own
/// binding, an active borrow of `b` stays active and `b` stays usable.
proof fn lemma_run_keeps_borrow(
    events: Seq<Event>,
    m: int,
    n: int,
    k: int,
    b: u64,
    exclusive: bool,
    sr: u64,
    sb: u64,
)
    requires
        0 <= m <= n <= events.len(),
        prefix_ok(events, n),
        ref_entry_active(state_at(events, m), k, b, exclusive, sr),
        binding_usable(state_at(events, m), b),
        binding_scope(state_at(events, m), b) == sb,
        forall|k2: int|
            m <= k2 < n ==> !rebinds(#[trigger] events[k2], b) && !ends_scope(events[k2], sr)
                && !ends_scope(events[k2], sb),
    ensures
        ref_entry_active(state_at(events, n), k, b, exclusive, sr),
        binding_usable(state_at(events, n), b),
        binding_scope(state_at(events, n), b) == sb,
    decreases n - m,
{
    if n > m {
        lemma_prefix_ok_mono(events, n - 1, n);
        lemma_run_keeps_borrow(events, m, n - 1, k, b, exclusive, sr, sb);
        lemma_run_unfold(events, n - 1);
        let st = state_at(events, n - 1);
        let st2 = state_at(events, n);
        let ev = events[n - 1];
        if moves_source(ev, b) {
            // A move of `b` would have been refused: the tracked reference is
            // still active, so the step could not have succeeded.
            assert(active_ref_at(st.refs, k, b));
            if st.refs[k].exclusive {
                assert(has_active_exclusive(st.refs, b));
            } else {
                assert(has_active_shared(st.refs, b));
            }
            assert(step(st, ev) is Err);
            assert(false);
        }
        lemma_step_ref_entry(st, ev, st2, k);
        lemma_step_binding_entry(st, ev, st2, b);
    }
}

/// Along a violation-free stretch that never re-introduces the name `r` as a
/// binding or as a reference, the name keeps resolving to the same reference
/// entry, and an expired entry stays expired.
proof fn lemma_run_keeps_tracked(events: Seq<Event>, r: u64, k0: int, s: u64, m: int, n: int)
    requires
        0 <= m <= n <= events.len(),
        prefix_ok(events, n),
        ref_tracked(state_at(events, m), r, k0, s),
        forall|k: int|
            m <= k < n ==> !rebinds(#[trigger] events[k], r) && !borrows_as(events[k], r),
    ensures
        ref_tracked(state_at(events, n), r, k0, s),
        state_at(events, m).refs[k0].expired ==> state_at(events, n).refs[k0].expired,
    decreases n - m,
{
    if n > m {
        lemma_prefix_ok_mono(events, n - 1, n);
        lemma_run_keeps_tracked(events, r, k0, s, m, n - 1);
        lemma_run_unfold(events, n - 1);
        let st = state_at(events, n - 1);
        let st2 = state_at(events, n);
        let ev = events[n - 1];
        lemma_step_ref_entry(st, ev, st2, k0);
        lemma_step_find_ref(st, ev, st2, r);
        lemma_step_no_binding(st, ev, st2, r);
    }
}

/// Law: a moved binding is unusable.  In any trace whose first `j` events
/// break no rule, where event `i` moves the binding `b` away while `b` is
/// usable, nothing re-introduces the name `b` in between, and event `j` is a
/// `Use` of `b` or another `Move` out of `b`, the verdict on the whole trace
/// is `UseAfterMove` at index `j`.
pub proof fn lemma_use_after_move(events: Seq<Event>, i: int, j: int, b: u64, d: u64)
    requires
        events.len() <= usize::MAX,
        0 <= i < j < events.len(),
        prefix_ok(events, j),
        events[i] == (Event::Move { source: b, dest: d }),
        d != b,
        binding_usable(state_at(events, i), b),
        forall|k: int| i < k < j ==> !rebinds(#[trigger] events[k], b),
        events[j] == (Event::Use { name: b }) || moves_source(events[j], b),
    ensures
        check_spec(events) == Err::<(), Violation>(
            Violation { kind: ViolationKind::UseAfterMove, event_index: j as usize },
        ),
{
    lemma_prefix_ok_mono(events, i + 1, j);
    lemma_run_unfold(events, i);
    let st_i = state_at(events, i);
    let st_i1 = state_at(events, i + 1);
    let ib = find_binding(st_i.bindings, b);
    lemma_find_binding_props(st_i.bindings, b);
    let src = st_i.bindings[ib];
    let moved_src = BindingEntry { name: src.name, scope: src.scope, moved: true, live: src.live };
    let fresh = BindingEntry { name: d, scope: src.scope, moved: false, live: true };
    let u = st_i.bindings.update(ib, moved_src);
    assert(st_i1.bindings == u.push(fresh));
    assert(forall|x: int| 0 <= x < u.len() ==> st_i.bindings[x].name == #[trigger] u[x].name);
    lemma_find_binding_same_names(st_i.bindings, u, b);
    lemma_find_binding_push(u, fresh, b);
    assert(binding_moved(st_i1, b));
    lemma_run_keeps_moved(events, b, i + 1, j);
    let st_j = state_at(events, j);
    assert(step(st_j, events[j]) == Err::<StateModel, ViolationKind>(ViolationKind::UseAfterMove));
    lemma_first_violation(events, j, ViolationKind::UseAfterMove);
}

/// Law: borrows of one binding exclude each other.  In any trace whose first
/// `j` events break no rule, where event `i` borrows `b` while `b` is usable
/// and free of active references, at least one of the two borrows is
/// exclusive, and in between nothing re-introduces `b`, closes the borrow's
/// scope or closes `b`'s scope, a second borrow of `b` at event `j` gives the
/// verdict `ConflictingBorrow` at index `j`.  This covers two exclusive
/// borrows as well as a shared and an exclusive borrow in either order.
pub proof fn lemma_conflicting_borrow(
    events: Seq<Event>,
    i: int,
    j: int,
    r1: u64,
    b: u64,
    s1: u64,
    excl1: bool,
    r2: u64,
    s2: u64,
    excl2: bool,
)
    requires
        events.len() <= usize::MAX,
        0 <= i < j < events.len(),
        prefix_ok(events, j),
        events[i] == borrow_event(r1, b, s1, excl1),
        events[j] == borrow_event(r2, b, s2, excl2),
        excl1 || excl2,
        binding_usable(state_at(events, i), b),
        forall|k: int|
            i < k < j ==> !rebinds(#[trigger] events[k], b) && !ends_scope(events[k], s1)
                && !ends_scope(events[k], binding_scope(state_at(events, i), b)),
    ensures
        check_spec(events) == Err::<(), Violation>(
            Violation { kind: ViolationKind::ConflictingBorrow, event_index: j as usize },
        ),
{
    lemma_prefix_ok_mono(events, i + 1, j);
    lemma_run_unfold(events, i);
    let st_i = state_at(events, i);
    let st_i1 = state_at(events, i + 1);
    let sb = binding_scope(st_i, b);
    lemma_find_binding_props(st_i.bindings, b);
    let k0 = st_i.refs.len() as int;
    let fresh = RefEntry {
        name: r1,
        target: b,
        exclusive: excl1,
        scope: s1,
        expired: false,
        returned: false,
    };
    assert(st_i1.refs == st_i.refs.push(fresh));
    assert(ref_entry_active(st_i1, k0, b, excl1, s1));
    assert(binding_usable(st_i1, b) && binding_scope(st_i1, b) == sb);
    lemma_run_keeps_borrow(events, i + 1, j, k0, b, excl1, s1, sb);
    let st_j = state_at(events, j);
    assert(active_ref_at(st_j.refs, k0, b));
    if excl1 {
        assert(has_active_exclusive(st_j.refs, b));
    } else {
        assert(has_active_shared(st_j.refs, b));
    }
    assert(step(st_j, events[j]) == Err::<StateModel, ViolationKind>(
        ViolationKind::ConflictingBorrow,
    ));
    lemma_first_violation(events, j, ViolationKind::ConflictingBorrow);
}

/// Law: a reference does not outlive its scope.  In any trace whose first `j`
/// events break no rule, where event `i` creates a reference `r` to a usable
/// binding `b` in scope `s`, the name `r` shadows no binding and is never
/// re-introduced as a binding or re-borrowed in between, some event `m`
/// closes scope `s`, and event `j` uses `r`, the verdict on the whole trace
/// is `DanglingReference` at index `j`.
pub proof fn lemma_dangling_after_end_scope(
    events: Seq<Event>,
    i: int,
    m: int,
    j: int,
    r: u64,
    b: u64,
    s: u64,
    excl: bool,
)
    requires
        events.len() <= usize::MAX,
        0 <= i < m < j < events.len(),
        prefix_ok(events, j),
        events[i] == borrow_event(r, b, s, excl),
        events[m] == (Event::EndScope { scope: s }),
        binding_usable(state_at(events, i), b),
        find_binding(state_at(events, i).bindings, r) == -1,
        forall|k: int|
            i < k < j ==> !rebinds(#[trigger] events[k], r) && !borrows_as(events[k], r),
        events[j] == (Event::Use { name: r }),
    ensures
        check_spec(events) == Err::<(), Violation>(
            Violation { kind: ViolationKind::DanglingReference, event_index: j as usize },
        ),
{
    lemma_prefix_ok_mono(events, i + 1, j);
    lemma_run_unfold(events, i);
    let st_i = state_at(events, i);
    let st_i1 = state_at(events, i + 1);
    lemma_find_binding_props(st_i.bindings, b);
    let k0 = st_i.refs.len() as int;
    let fresh = RefEntry {
        name: r,
        target: b,
        exclusive: excl,
        scope: s,
        expired: false,
        returned: false,
    };
    assert(st_i1.refs == st_i.refs.push(fresh));
    lemma_find_ref_push(st_i.refs, fresh, r);
    assert(ref_tracked(st_i1, r, k0, s));
    lemma_prefix_ok_mono(events, m, j);
    lemma_run_keeps_tracked(events, r, k0, s, i + 1, m);
    lemma_prefix_ok_mono(events, m + 1, j);
    lemma_run_unfold(events, m);
    let st_m = state_at(events, m);
    let st_m1 = state_at(events, m + 1);
    lemma_step_ref_entry(st_m, events[m], st_m1, k0);
    lemma_step_find_ref(st_m, events[m], st_m1, r);
    lemma_step_no_binding(st_m, events[m], st_m1, r);
    assert(ref_tracked(st_m1, r, k0, s));
    assert(st_m1.refs[k0].expired);
    lemma_run_keeps_tracked(events, r, k0, s, m + 1, j);
    let st_j = state_at(events, j);
    assert(st_j.refs[k0].expired);
    assert(crate::model::ref_dangling(st_j, st_j.refs[k0]));
    assert(step(st_j, events[j]) == Err::<StateModel, ViolationKind>(
        ViolationKind::DanglingReference,
    ));
    lemma_first_violation(events, j, ViolationKind::DanglingReference);
}

} // verus!
