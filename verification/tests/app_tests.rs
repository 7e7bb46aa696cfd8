use dirkill::app::{App, AppAction, DeleteCommand, KeyInput, Registry};
use dirkill::color::Rgb;
use dirkill::files::DeletionState;
use dirkill::Sorting;

const YELLOW: Rgb = Rgb { r: 255, g: 255, b: 0 };

fn registry_with(sizes: &[(&str, u64)]) -> Registry {
    let mut reg = Registry::new();
    for (path, size) in sizes {
        reg.append(path.to_string(), *size);
    }
    reg
}

fn state_of(reg: &Registry, id: u64) -> DeletionState {
    let i = reg.find_index(id).expect("entry should be present");
    reg.entries[i].deletion_state
}

#[test]
fn test_delete_lifecycle_success() {
    let mut reg = registry_with(&[("root/a/target", 10)]);
    let id = reg.entries[0].id;
    assert_eq!(state_of(&reg, id), DeletionState::Ready);

    // The entry is marked before any disk work happens.
    match reg.request_delete(id) {
        DeleteCommand::Start(path) => assert_eq!(path, "root/a/target"),
        _ => panic!("expected a worker start"),
    }
    assert_eq!(state_of(&reg, id), DeletionState::Deleting);

    reg.finish_delete(id, true);
    assert_eq!(state_of(&reg, id), DeletionState::Deleted);
}

#[test]
fn test_delete_lifecycle_failure() {
    let mut reg = registry_with(&[("root/gone/target", 10)]);
    let id = reg.entries[0].id;
    match reg.request_delete(id) {
        DeleteCommand::Start(_) => {}
        _ => panic!("expected a worker start"),
    }
    assert_eq!(state_of(&reg, id), DeletionState::Deleting);
    reg.finish_delete(id, false);
    assert_eq!(state_of(&reg, id), DeletionState::Error);
}

#[test]
fn test_second_delete_while_in_flight_is_ignored() {
    let mut reg = registry_with(&[("root/target", 10)]);
    let id = reg.entries[0].id;
    match reg.request_delete(id) {
        DeleteCommand::Start(_) => {}
        _ => panic!("expected a worker start"),
    }
    match reg.request_delete(id) {
        DeleteCommand::Ignored => {}
        _ => panic!("a second in-flight delete must be rejected"),
    }
    assert_eq!(state_of(&reg, id), DeletionState::Deleting);
}

#[test]
fn test_delete_on_deleted_dismisses() {
    let mut reg = registry_with(&[("root/a/target", 1), ("root/b/target", 2)]);
    let id = reg.entries[0].id;
    reg.request_delete(id);
    reg.finish_delete(id, true);
    match reg.request_delete(id) {
        DeleteCommand::Dismissed => {}
        _ => panic!("delete on a deleted entry dismisses it"),
    }
    assert_eq!(reg.len(), 1);
    assert_eq!(reg.entries[0].path, "root/b/target");
    assert!(reg.find_index(id).is_none());
}

#[test]
fn test_retrigger_from_error() {
    let mut reg = registry_with(&[("root/target", 1)]);
    let id = reg.entries[0].id;
    reg.request_delete(id);
    reg.finish_delete(id, false);
    assert_eq!(state_of(&reg, id), DeletionState::Error);
    match reg.request_delete(id) {
        DeleteCommand::Start(_) => {}
        _ => panic!("an errored entry may be re-triggered"),
    }
    assert_eq!(state_of(&reg, id), DeletionState::Deleting);
}

#[test]
fn test_unknown_id_is_ignored() {
    let mut reg = registry_with(&[("root/target", 1)]);
    match reg.request_delete(999) {
        DeleteCommand::Ignored => {}
        _ => panic!("an unknown identifier changes nothing"),
    }
    reg.finish_delete(999, true);
    assert_eq!(reg.len(), 1);
    assert_eq!(reg.entries[0].deletion_state, DeletionState::Ready);
}

#[test]
fn test_navigation_wraps_around() {
    let mut app = App::new(YELLOW);
    assert_eq!(app.index, 0);
    app.next(3);
    assert_eq!(app.index, 1);
    app.next(3);
    assert_eq!(app.index, 2);
    app.next(3);
    assert_eq!(app.index, 0);
    app.previous(3);
    assert_eq!(app.index, 2);
}

#[test]
fn test_navigation_full_cycle_returns_to_start() {
    // As many steps down as there are rows land back on the start row.
    let len = 5;
    for start in 0..len {
        let mut app = App::new(YELLOW);
        for _ in 0..start {
            app.next(len);
        }
        assert_eq!(app.index, start);
        for _ in 0..len {
            app.next(len);
        }
        assert_eq!(app.index, start);
    }
}

#[test]
fn test_navigation_empty_registry_is_noop() {
    let mut app = App::new(YELLOW);
    app.next(0);
    assert_eq!(app.index, 0);
    app.previous(0);
    assert_eq!(app.index, 0);
}

#[test]
fn test_sort_key_cycles() {
    let mut app = App::new(YELLOW);
    assert_eq!(app.sorting, Sorting::Name);
    app.cycle_sort_key(true);
    assert_eq!(app.sorting, Sorting::Size);
    app.cycle_sort_key(true);
    assert_eq!(app.sorting, Sorting::Unsorted);
    app.cycle_sort_key(true);
    assert_eq!(app.sorting, Sorting::Name);
    app.cycle_sort_key(false);
    assert_eq!(app.sorting, Sorting::Unsorted);
}

#[test]
fn test_handle_key_navigation_and_quit() {
    let mut app = App::new(YELLOW);
    let mut reg = registry_with(&[("root/a/t", 1), ("root/b/t", 2)]);
    match app.handle_key(KeyInput::Down, &mut reg) {
        AppAction::Redraw => {}
        _ => panic!("navigation only redraws"),
    }
    assert_eq!(app.index, 1);
    app.handle_key(KeyInput::Up, &mut reg);
    assert_eq!(app.index, 0);
    app.handle_key(KeyInput::Tab, &mut reg);
    assert!(app.sorting_inverted);
    app.handle_key(KeyInput::BackTab, &mut reg);
    assert!(!app.sorting_inverted);
    match app.handle_key(KeyInput::Char('q'), &mut reg) {
        AppAction::Quit => {}
        _ => panic!("q quits"),
    }
    match app.handle_key(KeyInput::Char('x'), &mut reg) {
        AppAction::Redraw => {}
        _ => panic!("other characters only redraw"),
    }
}

#[test]
fn test_handle_key_enter_targets_visual_position() {
    let mut app = App::new(YELLOW);
    // Name-sorted view: "root/a/t" (size 2) first, "root/b/t" (size 1) second.
    let mut reg = registry_with(&[("root/b/t", 1), ("root/a/t", 2)]);
    // Sort by size descending: "root/a/t" first.
    app.cycle_sort_key(true);
    assert_eq!(app.sorting, Sorting::Size);
    match app.handle_key(KeyInput::Enter, &mut reg) {
        AppAction::StartDelete(id, path) => {
            assert_eq!(path, "root/a/t");
            assert_eq!(reg.entries[reg.find_index(id).unwrap()].path, "root/a/t");
        }
        _ => panic!("enter on a ready entry starts a worker"),
    }
    // The registry's own order is untouched.
    assert_eq!(reg.entries[0].path, "root/b/t");
    assert_eq!(reg.entries[0].deletion_state, DeletionState::Ready);
    assert_eq!(reg.entries[1].deletion_state, DeletionState::Deleting);
}

#[test]
fn test_handle_key_enter_on_empty_registry() {
    let mut app = App::new(YELLOW);
    let mut reg = Registry::new();
    match app.handle_key(KeyInput::Enter, &mut reg) {
        AppAction::Redraw => {}
        _ => panic!("enter on an empty table does nothing"),
    }
    assert_eq!(reg.len(), 0);
}

#[test]
fn test_handle_key_dismiss_clamps_cursor() {
    let mut app = App::new(YELLOW);
    let mut reg = registry_with(&[("root/t", 1)]);
    let id = reg.entries[0].id;
    reg.request_delete(id);
    reg.finish_delete(id, true);
    match app.handle_key(KeyInput::Enter, &mut reg) {
        AppAction::Redraw => {}
        _ => panic!("enter on a deleted entry dismisses it"),
    }
    assert_eq!(reg.len(), 0);
    assert_eq!(app.index, 0);
}
