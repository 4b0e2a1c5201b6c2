use flood_grid::pointer::{Pointer, Request};

const NOTHING: Request = Request { toggle_source: false, toggle_barrier: false };

#[test]
fn pointer_starts_released() {
    let pointer = Pointer::new();
    assert!(!pointer.action_blocked);
    assert_eq!(pointer.last_hovered_cell, (0, 0));
}

#[test]
fn hover_without_buttons_asks_for_nothing() {
    let mut pointer = Pointer::new();
    assert_eq!(pointer.hover(3, 4, false, false), NOTHING);
    assert_eq!(pointer, Pointer::new());
}

#[test]
fn right_button_asks_for_a_source() {
    let mut pointer = Pointer::new();
    let asked = pointer.hover(0, 0, true, false);
    assert_eq!(asked, Request { toggle_source: true, toggle_barrier: false });
    assert!(pointer.action_blocked);
    assert_eq!(pointer.last_hovered_cell, (0, 0));
}

#[test]
fn left_button_asks_for_a_barrier() {
    let mut pointer = Pointer::new();
    let asked = pointer.hover(0, 0, false, true);
    assert_eq!(asked, Request { toggle_source: false, toggle_barrier: true });
    assert!(pointer.action_blocked);
}

#[test]
fn both_buttons_ask_for_both() {
    let mut pointer = Pointer::new();
    let asked = pointer.hover(0, 0, true, true);
    assert_eq!(asked, Request { toggle_source: true, toggle_barrier: true });
}

#[test]
fn held_button_does_not_edit_the_remembered_cell_again() {
    let mut pointer = Pointer::new();
    pointer.hover(0, 0, false, true);
    assert_eq!(pointer.hover(0, 0, false, true), NOTHING);
    assert_eq!(pointer.hover(0, 0, true, true), NOTHING);
    assert!(pointer.action_blocked);
}

#[test]
fn edit_on_another_cell_releases_at_once() {
    let mut pointer = Pointer::new();
    let asked = pointer.hover(2, 1, false, true);
    assert_eq!(asked, Request { toggle_source: false, toggle_barrier: true });
    assert_eq!(pointer, Pointer { action_blocked: false, last_hovered_cell: (2, 1) });
    let again = pointer.hover(2, 1, false, true);
    assert_eq!(again, Request { toggle_source: false, toggle_barrier: true });
    assert_eq!(pointer, Pointer { action_blocked: true, last_hovered_cell: (2, 1) });
    assert_eq!(pointer.hover(2, 1, false, true), NOTHING);
}

#[test]
fn reaching_another_cell_releases() {
    let mut pointer = Pointer::new();
    pointer.hover(0, 0, true, false);
    assert_eq!(pointer.hover(1, 0, false, false), NOTHING);
    assert_eq!(pointer, Pointer { action_blocked: false, last_hovered_cell: (1, 0) });
    let asked = pointer.hover(1, 0, true, false);
    assert_eq!(asked, Request { toggle_source: true, toggle_barrier: false });
}
