use splice_core::input::{InputEvent, PointerButton};
use splice_core::ledger::{button_key, key_button, HeldLedger};

#[test]
fn every_extended_button_has_a_distinct_release() {
    let mut ledger = HeldLedger::default();
    for button in 0..=255 {
        ledger.observe(&InputEvent::Button { button: PointerButton::Other(button), pressed: true });
    }
    assert_eq!(ledger.presses().len(), 256);
    let releases = ledger.drain_releases();
    assert_eq!(releases.len(), 256);
    for button in 0..=255 {
        assert!(releases.contains(&InputEvent::Button {
            button: PointerButton::Other(button),
            pressed: false
        }));
    }
    assert!(ledger.is_empty());
}

#[test]
fn modifiers_are_pressed_before_ordinary_keys_when_crossing() {
    let mut ledger = HeldLedger::default();
    ledger.observe(&InputEvent::Key { code: 30, pressed: true });
    ledger.observe(&InputEvent::Key { code: 42, pressed: true });
    assert_eq!(
        ledger.presses(),
        vec![
            InputEvent::Key { code: 42, pressed: true },
            InputEvent::Key { code: 30, pressed: true }
        ]
    );
}

#[test]
fn tracks_and_drains() {
    let mut l = HeldLedger::default();
    l.observe(&InputEvent::Key { code: 30, pressed: true });
    l.observe(&InputEvent::Key { code: 42, pressed: true });
    l.observe(&InputEvent::Key { code: 30, pressed: false });
    l.observe(&InputEvent::Button { button: PointerButton::Left, pressed: true });
    assert!(!l.is_empty());
    let rel = l.drain_releases();
    assert_eq!(rel.len(), 2);
    assert!(rel.contains(&InputEvent::Key { code: 42, pressed: false }));
    assert!(rel.contains(&InputEvent::Button { button: PointerButton::Left, pressed: false }));
    assert!(l.is_empty());
}

#[test]
fn a_repeated_state_is_told_apart() {
    let mut ledger = HeldLedger::default();
    assert!(ledger.observe(&InputEvent::Key { code: 30, pressed: true }));
    assert!(!ledger.observe(&InputEvent::Key { code: 30, pressed: true }));
    assert!(ledger.observe(&InputEvent::Key { code: 30, pressed: false }));
    assert!(!ledger.observe(&InputEvent::Key { code: 30, pressed: false }));
    assert!(ledger.observe(&InputEvent::Motion { dx: 0, dy: 0 }));
}

#[test]
fn buttons_and_codes_stand_for_each_other() {
    for button in [
        PointerButton::Left,
        PointerButton::Right,
        PointerButton::Middle,
        PointerButton::Back,
        PointerButton::Forward,
        PointerButton::Other(9),
    ] {
        assert_eq!(key_button(button_key(button)), button);
    }
}

#[test]
fn drained_releases_each_change_something_and_leave_nothing() {
    let mut source = HeldLedger::default();
    let mut target = HeldLedger::default();
    for code in [125, 30, 30, 42] {
        source.observe(&InputEvent::Key { code, pressed: true });
    }
    source.observe(&InputEvent::Button { button: PointerButton::Other(9), pressed: true });
    source.observe(&InputEvent::Button { button: PointerButton::Left, pressed: true });
    for press in source.presses() {
        assert!(target.observe(&press));
    }
    let releases = source.drain_releases();
    assert_eq!(releases.len(), 5);
    for release in &releases {
        assert!(!target.is_empty());
        assert!(target.observe(release));
    }
    assert!(target.is_empty());
}

#[test]
fn a_ledger_is_empty_once_the_last_of_everything_is_a_release() {
    let mut ledger = HeldLedger::default();
    let button = PointerButton::Back;
    for (key, pressed) in [(1, true), (2, false), (1, false), (3, true), (3, false)] {
        ledger.observe(&InputEvent::Key { code: key, pressed });
    }
    assert!(ledger.is_empty());
    ledger.observe(&InputEvent::Button { button, pressed: true });
    ledger.observe(&InputEvent::Scroll120 { dx: 1, dy: 1 });
    assert!(!ledger.is_empty());
    ledger.observe(&InputEvent::Button { button, pressed: false });
    assert!(ledger.is_empty());
}
