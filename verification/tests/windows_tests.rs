use stickermd::model::WindowSize;
use stickermd::windows::{main_label, note_label, OpenAction, WindowSet};

const MAIN_FALLBACK: WindowSize = WindowSize { width: 600, height: 800 };

#[test]
fn labels_are_stable_and_distinct() {
    assert_eq!(main_label(), "main");
    assert_eq!(note_label("abc-123"), "note_abc-123");
    assert_ne!(note_label(""), main_label());
    assert_ne!(note_label("x"), note_label("y"));
}

#[test]
fn two_opens_leave_exactly_one_window() {
    let mut live = WindowSet::new();
    let first = live.open_or_focus("note_X", None, MAIN_FALLBACK);
    assert_eq!(first, OpenAction::Create { width: 600, height: 800 });

    let second = live.open_or_focus("note_X", None, MAIN_FALLBACK);
    assert_eq!(second, OpenAction::Focus);

    assert!(live.contains("note_X"));
    assert_eq!(live.labels.len(), 1);
}

#[test]
fn saved_geometry_wins_over_fallback() {
    let mut live = WindowSet::new();
    let action = live.open_or_focus(
        "note_Y",
        Some(WindowSize { width: 333, height: 222 }),
        MAIN_FALLBACK,
    );
    assert_eq!(action, OpenAction::Create { width: 333, height: 222 });
}

#[test]
fn closing_frees_the_label() {
    let mut live = WindowSet::new();
    live.open_or_focus("main", None, MAIN_FALLBACK);
    live.open_or_focus("note_a", None, MAIN_FALLBACK);
    assert_eq!(live.labels.len(), 2);

    live.closed("note_a");
    assert!(!live.contains("note_a"));
    assert!(live.contains("main"));
    assert_eq!(live.labels.len(), 1);

    // Closing a label that is not live changes nothing.
    live.closed("note_a");
    assert_eq!(live.labels.len(), 1);

    // After the close, the label can be opened anew.
    let action = live.open_or_focus("note_a", None, MAIN_FALLBACK);
    assert!(matches!(action, OpenAction::Create { .. }));
}
