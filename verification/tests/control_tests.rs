use plugovr::control::{KeyAction, KeyEvent, NoteState};

#[test]
fn press_then_release_ends_the_note() {
    let mut s = NoteState::new();
    assert_eq!(s.on_key(KeyEvent::Press(60)), KeyAction::Start(60));
    assert_eq!(s.active_note, Some(60));
    assert!(s.note_on);
    assert_eq!(s.on_key(KeyEvent::Release(60)), KeyAction::Stop);
    assert_eq!(s.active_note, None);
    assert!(!s.note_on);
}

#[test]
fn release_of_another_key_is_ignored() {
    let mut s = NoteState::new();
    s.on_key(KeyEvent::Press(60));
    s.on_key(KeyEvent::Press(64));
    assert_eq!(s.on_key(KeyEvent::Release(60)), KeyAction::Ignore);
    assert_eq!(s.active_note, Some(64));
    assert_eq!(s.on_key(KeyEvent::Release(64)), KeyAction::Stop);
    assert_eq!(NoteState::new().on_key(KeyEvent::Release(1)), KeyAction::Ignore);
}

#[test]
fn reset_fires_on_rising_edge_or_request() {
    let mut s = NoteState::new();
    assert!(!s.check_reset(false, false));
    assert!(s.check_reset(true, false));
    assert!(!s.check_reset(true, false));
    assert!(s.check_reset(true, true));
    assert!(!s.check_reset(false, false));
    assert!(s.check_reset(true, false));
}
