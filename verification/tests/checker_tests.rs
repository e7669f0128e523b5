use ownership_checker::events::{Event, Violation, ViolationKind};
use ownership_checker::checker::check;

fn violation(kind: ViolationKind, event_index: usize) -> Violation {
    Violation { kind, event_index }
}

#[test]
fn empty_trace_is_ok() {
    let events: Vec<Event> = vec![];
    assert_eq!(check(&events), Ok(()));
}

#[test]
fn two_exclusive_borrows_conflict() {
    // Bind(x,0); BorrowExclusive(r1,x,0); BorrowExclusive(r2,x,0)
    let x = 1;
    let r1 = 2;
    let r2 = 3;
    let events = vec![
        Event::Bind { name: x, scope: 0 },
        Event::BorrowExclusive { reference: r1, target: x, scope: 0 },
        Event::BorrowExclusive { reference: r2, target: x, scope: 0 },
    ];
    assert_eq!(check(&events), Err(violation(ViolationKind::ConflictingBorrow, 2)));
}

#[test]
fn exclusive_borrow_after_scope_end_is_ok() {
    // Bind(x,0); BorrowExclusive(r1,x,1); EndScope(1); BorrowExclusive(r2,x,0); Use(r2)
    let x = 1;
    let r1 = 2;
    let r2 = 3;
    let events = vec![
        Event::Bind { name: x, scope: 0 },
        Event::BorrowExclusive { reference: r1, target: x, scope: 1 },
        Event::EndScope { scope: 1 },
        Event::BorrowExclusive { reference: r2, target: x, scope: 0 },
        Event::Use { name: r2 },
    ];
    assert_eq!(check(&events), Ok(()));
}

#[test]
fn use_after_move_is_reported() {
    // Bind(x,0); Move(x,y); Use(x)
    let x = 1;
    let y = 2;
    let events = vec![
        Event::Bind { name: x, scope: 0 },
        Event::Move { source: x, dest: y },
        Event::Use { name: x },
    ];
    assert_eq!(check(&events), Err(violation(ViolationKind::UseAfterMove, 2)));
}

#[test]
fn use_of_reference_after_scope_end_dangles() {
    // Bind(x,1); BorrowShared(r,x,1); EndScope(1); Use(r)
    let x = 1;
    let r = 2;
    let events = vec![
        Event::Bind { name: x, scope: 1 },
        Event::BorrowShared { reference: r, target: x, scope: 1 },
        Event::EndScope { scope: 1 },
        Event::Use { name: r },
    ];
    assert_eq!(check(&events), Err(violation(ViolationKind::DanglingReference, 3)));
}

#[test]
fn second_move_of_moved_binding_is_reported() {
    let x = 1;
    let y = 2;
    let z = 3;
    let events = vec![
        Event::Bind { name: x, scope: 0 },
        Event::Move { source: x, dest: y },
        Event::Move { source: x, dest: z },
    ];
    assert_eq!(check(&events), Err(violation(ViolationKind::UseAfterMove, 2)));
}

#[test]
fn borrow_of_moved_binding_is_reported() {
    let x = 1;
    let y = 2;
    let r = 3;
    let events = vec![
        Event::Bind { name: x, scope: 0 },
        Event::Move { source: x, dest: y },
        Event::BorrowShared { reference: r, target: x, scope: 0 },
    ];
    assert_eq!(check(&events), Err(violation(ViolationKind::UseAfterMove, 2)));
}

#[test]
fn shared_then_exclusive_borrow_conflicts() {
    let x = 1;
    let r1 = 2;
    let r2 = 3;
    let events = vec![
        Event::Bind { name: x, scope: 0 },
        Event::BorrowShared { reference: r1, target: x, scope: 0 },
        Event::BorrowExclusive { reference: r2, target: x, scope: 0 },
    ];
    assert_eq!(check(&events), Err(violation(ViolationKind::ConflictingBorrow, 2)));
}

#[test]
fn exclusive_then_shared_borrow_conflicts() {
    let x = 1;
    let r1 = 2;
    let r2 = 3;
    let events = vec![
        Event::Bind { name: x, scope: 0 },
        Event::BorrowExclusive { reference: r1, target: x, scope: 0 },
        Event::BorrowShared { reference: r2, target: x, scope: 0 },
    ];
    assert_eq!(check(&events), Err(violation(ViolationKind::ConflictingBorrow, 2)));
}

#[test]
fn two_shared_borrows_are_ok() {
    let x = 1;
    let r1 = 2;
    let r2 = 3;
    let events = vec![
        Event::Bind { name: x, scope: 0 },
        Event::BorrowShared { reference: r1, target: x, scope: 0 },
        Event::BorrowShared { reference: r2, target: x, scope: 0 },
        Event::Use { name: r1 },
        Event::Use { name: r2 },
    ];
    assert_eq!(check(&events), Ok(()));
}

#[test]
fn move_while_shared_borrow_active_is_reported() {
    let x = 1;
    let y = 2;
    let r = 3;
    let events = vec![
        Event::Bind { name: x, scope: 0 },
        Event::BorrowShared { reference: r, target: x, scope: 0 },
        Event::Move { source: x, dest: y },
    ];
    assert_eq!(check(&events), Err(violation(ViolationKind::BorrowedWhileMoving, 2)));
}

#[test]
fn move_while_exclusive_borrow_active_is_reported() {
    let x = 1;
    let y = 2;
    let r = 3;
    let events = vec![
        Event::Bind { name: x, scope: 0 },
        Event::BorrowExclusive { reference: r, target: x, scope: 0 },
        Event::Move { source: x, dest: y },
    ];
    assert_eq!(check(&events), Err(violation(ViolationKind::UseAfterMove, 2)));
}

#[test]
fn returned_reference_escaping_its_scope_is_reported() {
    let x = 1;
    let r = 2;
    let events = vec![
        Event::Bind { name: x, scope: 1 },
        Event::BorrowShared { reference: r, target: x, scope: 1 },
        Event::Return { reference: r },
        Event::EndScope { scope: 1 },
    ];
    assert_eq!(check(&events), Err(violation(ViolationKind::EscapingReference, 3)));
}

#[test]
fn returned_reference_of_outer_scope_is_ok() {
    // The reference lives in scope 0; ending scope 1 does not expire it.
    let x = 1;
    let r = 2;
    let events = vec![
        Event::Bind { name: x, scope: 0 },
        Event::BorrowShared { reference: r, target: x, scope: 0 },
        Event::Return { reference: r },
        Event::EndScope { scope: 1 },
        Event::Use { name: r },
    ];
    assert_eq!(check(&events), Ok(()));
}

#[test]
fn use_of_destroyed_binding_dangles() {
    let x = 1;
    let events = vec![
        Event::Bind { name: x, scope: 1 },
        Event::EndScope { scope: 1 },
        Event::Use { name: x },
    ];
    assert_eq!(check(&events), Err(violation(ViolationKind::DanglingReference, 2)));
}

#[test]
fn reference_to_destroyed_binding_dangles() {
    // The reference lives in scope 0 but its target dies with scope 1.
    let x = 1;
    let r = 2;
    let events = vec![
        Event::Bind { name: x, scope: 1 },
        Event::BorrowShared { reference: r, target: x, scope: 0 },
        Event::EndScope { scope: 1 },
        Event::Use { name: r },
    ];
    assert_eq!(check(&events), Err(violation(ViolationKind::DanglingReference, 3)));
}

#[test]
fn moved_binding_use_after_unrelated_events_is_reported() {
    // The move stays fatal however many harmless events sit in between.
    let x = 1;
    let y = 2;
    let z = 3;
    let r = 4;
    let events = vec![
        Event::Bind { name: x, scope: 0 },
        Event::Bind { name: z, scope: 0 },
        Event::Move { source: x, dest: y },
        Event::BorrowShared { reference: r, target: z, scope: 0 },
        Event::Use { name: r },
        Event::Use { name: x },
    ];
    assert_eq!(check(&events), Err(violation(ViolationKind::UseAfterMove, 5)));
}

#[test]
fn unknown_names_are_ignored() {
    let events = vec![
        Event::Use { name: 9 },
        Event::Move { source: 9, dest: 8 },
        Event::BorrowShared { reference: 7, target: 9, scope: 0 },
        Event::Return { reference: 9 },
        Event::EndScope { scope: 5 },
    ];
    assert_eq!(check(&events), Ok(()));
}

#[test]
fn rebinding_a_name_makes_it_usable_again() {
    let x = 1;
    let y = 2;
    let events = vec![
        Event::Bind { name: x, scope: 0 },
        Event::Move { source: x, dest: y },
        Event::Bind { name: x, scope: 0 },
        Event::Use { name: x },
    ];
    assert_eq!(check(&events), Ok(()));
}

#[test]
fn move_creates_usable_destination() {
    let x = 1;
    let y = 2;
    let events = vec![
        Event::Bind { name: x, scope: 0 },
        Event::Move { source: x, dest: y },
        Event::Use { name: y },
    ];
    assert_eq!(check(&events), Ok(()));
}

#[test]
fn only_the_first_violation_is_reported() {
    let x = 1;
    let r1 = 2;
    let r2 = 3;
    let events = vec![
        Event::Bind { name: x, scope: 0 },
        Event::BorrowExclusive { reference: r1, target: x, scope: 0 },
        Event::BorrowExclusive { reference: r2, target: x, scope: 0 },
        Event::Use { name: r2 },
        Event::Move { source: x, dest: 4 },
    ];
    assert_eq!(check(&events), Err(violation(ViolationKind::ConflictingBorrow, 2)));
}

#[test]
fn verdict_is_stable_across_runs() {
    let x = 1;
    let r = 2;
    let events = vec![
        Event::Bind { name: x, scope: 1 },
        Event::BorrowShared { reference: r, target: x, scope: 1 },
        Event::EndScope { scope: 1 },
        Event::Use { name: r },
    ];
    let first = check(&events);
    let second = check(&events);
    assert_eq!(first, second);
    assert_eq!(first, Err(violation(ViolationKind::DanglingReference, 3)));
}

#[test]
fn owned_value_out_of_a_function() {
    assert_eq!(*ownership_checker::a_func(), 10);
}
