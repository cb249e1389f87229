//! The plugin's note and reset decisions, as a state machine: the host
//! loop hands in key and reset events and performs the actions that come
//! back.

use vstd::prelude::*;

verus! {

/// What the plugin remembers between events.
#[derive(Debug, Clone, Copy, PartialEq, Eq)]
pub struct NoteState {
    /// The key whose note is sounding, if any.
    pub active_note: Option<u8>,
    /// Whether a note is being held.
    pub note_on: bool,
    /// The reset parameter's value at the last check.
    pub last_reset: bool,
}

/// A key event from the host. A press with zero velocity arrives as a
/// release.
#[derive(Debug, Clone, Copy, PartialEq, Eq)]
pub enum KeyEvent {
    Press(u8),
    Release(u8),
}

/// What the host loop does after a key event.
#[derive(Debug, Clone, Copy, PartialEq, Eq)]
pub enum KeyAction {
    /// Start singing the next syllable at this key's pitch.
    Start(u8),
    /// Let the sounding note end.
    Stop,
    /// Nothing.
    Ignore,
}

/// The state and action that follow `event` in state `s`: a press makes its
/// key the active one and starts it; the release of the active key ends
/// it; the release of any other key changes nothing.
pub open spec fn key_step(s: NoteState, event: KeyEvent) -> (NoteState, KeyAction) {
    match event {
        KeyEvent::Press(n) => (NoteState { active_note: Some(n), note_on: true, ..s }, KeyAction::Start(n)),
        KeyEvent::Release(n) => if s.active_note == Some(n) {
            (NoteState { active_note: None, note_on: false, ..s }, KeyAction::Stop)
        } else {
            (s, KeyAction::Ignore)
        },
    }
}

/// The state after a reset check, and whether to reset: on a rising edge
/// of the reset parameter, or when the editor asked for it; the parameter's
/// value is remembered for the next check.
pub open spec fn reset_step(s: NoteState, reset_value: bool, reset_requested: bool) -> (NoteState, bool) {
    (
        NoteState { last_reset: reset_value, ..s },
        (reset_value && !s.last_reset) || reset_requested,
    )
}

impl NoteState {
    /// The state before any event: no note, reset parameter off.
    pub fn new() -> (s: Self)
        ensures
            s == (NoteState { active_note: None, note_on: false, last_reset: false }),
    {
        NoteState { active_note: None, note_on: false, last_reset: false }
    }

    /// Apply a key event and say what to do.
    pub fn on_key(&mut self, event: KeyEvent) -> (a: KeyAction)
        ensures
            (*final(self), a) == key_step(*old(self), event),
    {
        match event {
            KeyEvent::Press(n) => {
                self.active_note = Some(n);
                self.note_on = true;
                KeyAction::Start(n)
            },
            KeyEvent::Release(n) => {
                let matches = match self.active_note {
                    Some(m) => m == n,
                    None => false,
                };
                if matches {
                    self.active_note = None;
                    self.note_on = false;
                    KeyAction::Stop
                } else {
                    KeyAction::Ignore
                }
            },
        }
    }

    /// Whether to reset the synthesizer (see `reset_step`).
    pub fn check_reset(&mut self, reset_value: bool, reset_requested: bool) -> (r: bool)
        ensures
            (*final(self), r) == reset_step(*old(self), reset_value, reset_requested),
    {
        let r = (reset_value && !self.last_reset) || reset_requested;
        self.last_reset = reset_value;
        r
    }
}

/// Pressing a key and releasing it again leaves no note sounding and
/// nothing held, whatever was sounding before; the other state is kept.
pub proof fn law_press_then_release(s: NoteState, n: u8)
    ensures
        ({
            let (s1, a1) = key_step(s, KeyEvent::Press(n));
            let (s2, a2) = key_step(s1, KeyEvent::Release(n));
            &&& a1 == KeyAction::Start(n)
            &&& a2 == KeyAction::Stop
            &&& s2 == NoteState { active_note: None, note_on: false, ..s }
        }),
{
}

/// Releasing a key that is not the active one changes nothing.
pub proof fn law_other_release_ignored(s: NoteState, n: u8)
    requires
        s.active_note != Some(n),
    ensures
        key_step(s, KeyEvent::Release(n)) == (s, KeyAction::Ignore),
{
}

/// A reset parameter that stays on triggers once: a second check with the
/// same value and no request from the editor does not reset again.
pub proof fn law_reset_on_rising_edge_only(s: NoteState, reset_value: bool, reset_requested: bool)
    ensures
        ({
            let (s1, r1) = reset_step(s, reset_value, reset_requested);
            let (s2, r2) = reset_step(s1, reset_value, false);
            &&& !r2
            &&& s2 == s1
        }),
{
}

} // verus!
