//! Held-input ledger: tracks keys/buttons believed down, so any anomaly can release
//! everything. Kept on BOTH sides (source: what was forwarded; target: what was injected).

use crate::codes::{
    ascending, lemma_with_code, lemma_without_code, rank, with_code, without_code, CodeSet,
};
use crate::input::{InputEvent, PointerButton};
use vstd::prelude::*;

verus! {

#[derive(Debug)]
pub struct HeldLedger {
    pub keys: CodeSet,
    pub buttons: CodeSet,
}

/// Keys and buttons held, each in ascending order of their codes.
pub ghost struct Holding {
    pub keys: Seq<u32>,
    pub buttons: Seq<u32>,
}

impl View for HeldLedger {
    type V = Holding;

    open spec fn view(&self) -> Holding {
        Holding { keys: self.keys@, buttons: self.buttons@ }
    }
}

impl Clone for HeldLedger {
    fn clone(&self) -> (r: Self)
        ensures
            r@ == self@,
    {
        HeldLedger { keys: self.keys.clone(), buttons: self.buttons.clone() }
    }
}

impl Default for HeldLedger {
    fn default() -> (r: Self)
        ensures
            r.wf(),
            r@ == nothing_held(),
    {
        HeldLedger { keys: CodeSet::new(), buttons: CodeSet::new() }
    }
}

pub open spec fn nothing_held() -> Holding {
    Holding { keys: Seq::empty(), buttons: Seq::empty() }
}

/// The code a button is ordered by.
pub open spec fn code_of_button(b: PointerButton) -> u32 {
    match b {
        PointerButton::Left => 0,
        PointerButton::Right => 1,
        PointerButton::Middle => 2,
        PointerButton::Back => 3,
        PointerButton::Forward => 4,
        PointerButton::Other(n) => (8 + n) as u32,
    }
}

/// The button a code stands for.
pub open spec fn button_of_code(k: u32) -> PointerButton {
    if k == 0 {
        PointerButton::Left
    } else if k == 1 {
        PointerButton::Right
    } else if k == 2 {
        PointerButton::Middle
    } else if k == 3 {
        PointerButton::Back
    } else if k == 4 {
        PointerButton::Forward
    } else {
        PointerButton::Other((k - 8) as u8)
    }
}

/// Codes that stand for a button.
pub open spec fn is_button_code(k: u32) -> bool {
    k <= 4 || 8 <= k <= 8 + 255
}

pub fn button_key(b: PointerButton) -> (r: u32)
    ensures
        r == code_of_button(b),
{
    match b {
        PointerButton::Left => 0,
        PointerButton::Right => 1,
        PointerButton::Middle => 2,
        PointerButton::Back => 3,
        PointerButton::Forward => 4,
        PointerButton::Other(n) => 8 + n as u32,
    }
}

pub fn key_button(k: u32) -> (r: PointerButton)
    requires
        is_button_code(k),
    ensures
        r == button_of_code(k),
{
    match k {
        0 => PointerButton::Left,
        1 => PointerButton::Right,
        2 => PointerButton::Middle,
        3 => PointerButton::Back,
        4 => PointerButton::Forward,
        n => PointerButton::Other((n - 8) as u8),
    }
}

/// Every button has a code of its own.
pub proof fn button_codes_are_inverse(b: PointerButton, k: u32)
    ensures
        is_button_code(code_of_button(b)),
        button_of_code(code_of_button(b)) == b,
        is_button_code(k) ==> code_of_button(button_of_code(k)) == k,
{
}

/// What is held after an event passed through.
pub open spec fn after_event(held: Holding, ev: InputEvent) -> Holding {
    match ev {
        InputEvent::Key { code, pressed } => Holding {
            keys: if pressed {
                with_code(held.keys, code)
            } else {
                without_code(held.keys, code)
            },
            ..held
        },
        InputEvent::Button { button, pressed } => Holding {
            buttons: if pressed {
                with_code(held.buttons, code_of_button(button))
            } else {
                without_code(held.buttons, code_of_button(button))
            },
            ..held
        },
        _ => held,
    }
}

/// Whether an event changes what is held; events that hold nothing always pass.
pub open spec fn changes(held: Holding, ev: InputEvent) -> bool {
    match ev {
        InputEvent::Key { code, pressed } => held.keys.contains(code) != pressed,
        InputEvent::Button { button, pressed } => held.buttons.contains(code_of_button(button))
            != pressed,
        _ => true,
    }
}

/// Keys that modify others.
pub open spec fn is_modifier(code: u32) -> bool {
    code == 29 || code == 42 || code == 54 || code == 56 || code == 97 || code == 100 || code == 125
        || code == 126
}

pub fn modifier(code: u32) -> (r: bool)
    ensures
        r == is_modifier(code),
{
    code == 29 || code == 42 || code == 54 || code == 56 || code == 97 || code == 100 || code == 125
        || code == 126
}

/// Presses of the held modifiers, or of the other held keys, in ascending order.
pub open spec fn key_presses(keys: Seq<u32>, modifiers: bool) -> Seq<InputEvent>
    decreases keys.len(),
{
    if keys.len() == 0 {
        Seq::empty()
    } else {
        let before = key_presses(keys.drop_last(), modifiers);
        if is_modifier(keys.last()) == modifiers {
            before.push(InputEvent::Key { code: keys.last(), pressed: true })
        } else {
            before
        }
    }
}

/// Every held button as an event.
pub open spec fn button_events(buttons: Seq<u32>, pressed: bool) -> Seq<InputEvent> {
    Seq::new(
        buttons.len(),
        |i: int| InputEvent::Button { button: button_of_code(buttons[i]), pressed },
    )
}

/// Every held key as a release.
pub open spec fn key_releases(keys: Seq<u32>) -> Seq<InputEvent> {
    Seq::new(keys.len(), |i: int| InputEvent::Key { code: keys[i], pressed: false })
}

fn add_key_presses(out: &mut Vec<InputEvent>, keys: &CodeSet, modifiers: bool)
    ensures
        final(out)@ == old(out)@ + key_presses(keys@, modifiers),
{
    let ghost before = out@;
    for i in 0..keys.codes.len()
        invariant
            out@ == before + key_presses(keys@.take(i as int), modifiers),
    {
        let code: u32 = keys.codes[i];
        assert(keys@.take(i + 1).drop_last() =~= keys@.take(i as int));
        if modifier(code) == modifiers {
            out.push(InputEvent::Key { code, pressed: true });
        }
        assert(out@ =~= before + key_presses(keys@.take(i + 1), modifiers));
    }
    assert(keys@.take(keys@.len() as int) =~= keys@);
}

fn add_button_events(out: &mut Vec<InputEvent>, buttons: &CodeSet, pressed: bool)
    requires
        forall|i: int| 0 <= i < buttons@.len() ==> is_button_code(#[trigger] buttons@[i]),
    ensures
        final(out)@ == old(out)@ + button_events(buttons@, pressed),
{
    let ghost before = out@;
    for i in 0..buttons.codes.len()
        invariant
            forall|i: int| 0 <= i < buttons@.len() ==> is_button_code(#[trigger] buttons@[i]),
            out@ == before + button_events(buttons@, pressed).take(i as int),
    {
        assert(is_button_code(buttons@[i as int]));
        out.push(InputEvent::Button { button: key_button(buttons.codes[i]), pressed });
        assert(out@ =~= before + button_events(buttons@, pressed).take(i + 1));
    }
    assert(button_events(buttons@, pressed).take(buttons@.len() as int) =~= button_events(
        buttons@,
        pressed,
    ));
}

impl HeldLedger {
    pub open spec fn wf(&self) -> bool {
        &&& self.keys.wf()
        &&& self.buttons.wf()
        &&& forall|i: int|
            0 <= i < self.buttons@.len() ==> is_button_code(#[trigger] self.buttons@[i])
    }

    /// Observe an event passing through; track press/release state. False when the event
    /// repeats a state that is known already.
    pub fn observe(&mut self, ev: &InputEvent) -> (r: bool)
        requires
            old(self).wf(),
        ensures
            final(self).wf(),
            final(self)@ == after_event(old(self)@, *ev),
            r == changes(old(self)@, *ev),
    {
        match *ev {
            InputEvent::Key { code, pressed } => if pressed {
                self.keys.insert(code)
            } else {
                self.keys.remove(code)
            },
            InputEvent::Button { button, pressed } => {
                let code: u32 = button_key(button);
                let ghost before = self.buttons@;
                proof {
                    lemma_with_code(before, code);
                    lemma_without_code(before, code);
                    button_codes_are_inverse(button, code);
                }
                let changed: bool = if pressed {
                    self.buttons.insert(code)
                } else {
                    self.buttons.remove(code)
                };
                assert forall|i: int| 0 <= i < self.buttons@.len() implies is_button_code(
                    #[trigger] self.buttons@[i],
                ) by {
                    let k = self.buttons@[i];
                    assert(self.buttons@.contains(k));
                    if before.contains(k) {
                        let j = choose|j: int| 0 <= j < before.len() && before[j] == k;
                        assert(is_button_code(before[j]));
                    }
                }
                changed
            },
            _ => true,
        }
    }

    pub fn is_empty(&self) -> (r: bool)
        ensures
            r == (self@.keys.len() == 0 && self@.buttons.len() == 0),
    {
        self.keys.is_empty() && self.buttons.is_empty()
    }

    /// The presses that put everything held down again: modifiers before ordinary keys, then
    /// buttons.
    pub fn presses(&self) -> (r: Vec<InputEvent>)
        requires
            self.wf(),
        ensures
            r@ == key_presses(self@.keys, true) + key_presses(self@.keys, false) + button_events(
                self@.buttons,
                true,
            ),
    {
        let mut out: Vec<InputEvent> = Vec::new();
        add_key_presses(&mut out, &self.keys, true);
        add_key_presses(&mut out, &self.keys, false);
        add_button_events(&mut out, &self.buttons, true);
        assert(out@ =~= key_presses(self@.keys, true) + key_presses(self@.keys, false)
            + button_events(self@.buttons, true));
        out
    }

    /// Drain into the release events that undo everything held (keys then buttons).
    pub fn drain_releases(&mut self) -> (r: Vec<InputEvent>)
        requires
            old(self).wf(),
        ensures
            final(self).wf(),
            final(self)@ == nothing_held(),
            r@ == key_releases(old(self)@.keys) + button_events(old(self)@.buttons, false),
    {
        let mut out: Vec<InputEvent> = Vec::new();
        for i in 0..self.keys.codes.len()
            invariant
                out@ =~= key_releases(self.keys@).take(i as int),
        {
            out.push(InputEvent::Key { code: self.keys.codes[i], pressed: false });
        }
        assert(key_releases(self.keys@).take(self.keys@.len() as int) =~= key_releases(self.keys@));
        add_button_events(&mut out, &self.buttons, false);
        self.keys = CodeSet::new();
        self.buttons = CodeSet::new();
        out
    }
}

/// What is held after a list of events passed through.
pub open spec fn after_events(held: Holding, events: Seq<InputEvent>) -> Holding
    decreases events.len(),
{
    if events.len() == 0 {
        held
    } else {
        after_event(after_events(held, events.drop_last()), events.last())
    }
}

proof fn lemma_take_first(codes: Seq<u32>)
    requires
        ascending(codes),
        codes.len() > 0,
    ensures
        without_code(codes, codes[0]) == codes.skip(1),
        ascending(codes.skip(1)),
{
    crate::codes::lemma_rank(codes, codes[0]);
    lemma_without_code(codes, codes[0]);
    assert(codes.contains(codes[0]));
    assert(rank(codes, codes[0]) == 0) by {
        let r = rank(codes, codes[0]);
        if r > 0 {
            assert(codes[0] < codes[0]);
        }
    }
    assert(codes.remove(0) =~= codes.skip(1));
}

proof fn lemma_release_keys(held: Holding, n: nat)
    requires
        ascending(held.keys),
        n <= held.keys.len(),
    ensures
        after_events(held, key_releases(held.keys).take(n as int)) == (Holding {
            keys: held.keys.skip(n as int),
            ..held
        }),
        ascending(held.keys.skip(n as int)),
    decreases n,
{
    let events = key_releases(held.keys).take(n as int);
    if n == 0 {
        assert(held.keys.skip(0) =~= held.keys);
    } else {
        lemma_release_keys(held, (n - 1) as nat);
        assert(events.drop_last() =~= key_releases(held.keys).take(n - 1));
        let rest = held.keys.skip(n - 1);
        lemma_take_first(rest);
        assert(rest[0] == held.keys[n - 1]);
        assert(rest.skip(1) =~= held.keys.skip(n as int));
    }
}

proof fn lemma_release_buttons(held: Holding, n: nat)
    requires
        ascending(held.buttons),
        forall|i: int| 0 <= i < held.buttons.len() ==> is_button_code(#[trigger] held.buttons[i]),
        n <= held.buttons.len(),
    ensures
        after_events(held, button_events(held.buttons, false).take(n as int)) == (Holding {
            buttons: held.buttons.skip(n as int),
            ..held
        }),
        ascending(held.buttons.skip(n as int)),
    decreases n,
{
    let events = button_events(held.buttons, false).take(n as int);
    if n == 0 {
        assert(held.buttons.skip(0) =~= held.buttons);
    } else {
        lemma_release_buttons(held, (n - 1) as nat);
        assert(events.drop_last() =~= button_events(held.buttons, false).take(n - 1));
        let rest = held.buttons.skip(n - 1);
        lemma_take_first(rest);
        assert(rest[0] == held.buttons[n - 1]);
        assert(is_button_code(held.buttons[n - 1]));
        button_codes_are_inverse(PointerButton::Left, held.buttons[n - 1]);
        assert(rest.skip(1) =~= held.buttons.skip(n as int));
    }
}

proof fn lemma_after_concat(held: Holding, one: Seq<InputEvent>, two: Seq<InputEvent>)
    ensures
        after_events(held, one + two) == after_events(after_events(held, one), two),
    decreases two.len(),
{
    if two.len() == 0 {
        assert(one + two =~= one);
    } else {
        lemma_after_concat(held, one, two.drop_last());
        assert((one + two).drop_last() =~= one + two.drop_last());
    }
}

/// The drained releases undo everything held: whoever holds what the ledger held, holds
/// nothing once they have passed through.
pub proof fn drained_releases_release_everything(held: Holding)
    requires
        ascending(held.keys),
        ascending(held.buttons),
        forall|i: int| 0 <= i < held.buttons.len() ==> is_button_code(#[trigger] held.buttons[i]),
    ensures
        after_events(held, key_releases(held.keys) + button_events(held.buttons, false))
            == nothing_held(),
{
    let keys = key_releases(held.keys);
    let buttons = button_events(held.buttons, false);
    lemma_after_concat(held, keys, buttons);
    lemma_release_keys(held, held.keys.len());
    assert(keys.take(held.keys.len() as int) =~= keys);
    let mid = after_events(held, keys);
    assert(mid.keys =~= Seq::empty());
    lemma_release_buttons(mid, held.buttons.len());
    assert(buttons.take(held.buttons.len() as int) =~= buttons);
    assert(held.buttons.skip(held.buttons.len() as int) =~= Seq::empty());
}

/// None of the drained releases is in vain: observed in their order, each changes what is held.
pub proof fn every_drained_release_changes_something(held: Holding, i: int)
    requires
        ascending(held.keys),
        ascending(held.buttons),
        forall|k: int| 0 <= k < held.buttons.len() ==> is_button_code(#[trigger] held.buttons[k]),
        0 <= i < held.keys.len() + held.buttons.len(),
    ensures
        ({
            let events = key_releases(held.keys) + button_events(held.buttons, false);
            changes(after_events(held, events.take(i)), events[i])
        }),
{
    let keys = key_releases(held.keys);
    let buttons = button_events(held.buttons, false);
    let events = keys + buttons;
    if i < keys.len() {
        assert(events.take(i) =~= keys.take(i));
        lemma_release_keys(held, i as nat);
        assert(held.keys.skip(i)[0] == held.keys[i]);
    } else {
        let n = i - keys.len();
        assert(events.take(i) =~= keys + buttons.take(n));
        lemma_after_concat(held, keys, buttons.take(n));
        lemma_release_keys(held, held.keys.len());
        assert(keys.take(held.keys.len() as int) =~= keys);
        let mid = after_events(held, keys);
        lemma_release_buttons(mid, n as nat);
        assert(held.buttons.skip(n)[0] == held.buttons[n]);
        assert(is_button_code(held.buttons[n]));
        button_codes_are_inverse(PointerButton::Left, held.buttons[n]);
    }
}

/// The last that some events say of a key: that it was pressed, or released.
pub open spec fn last_of_key(events: Seq<InputEvent>, key: u32) -> Option<bool>
    decreases events.len(),
{
    if events.len() == 0 {
        None
    } else {
        match events.last() {
            InputEvent::Key { code, pressed } if code == key => Some(pressed),
            _ => last_of_key(events.drop_last(), key),
        }
    }
}

/// The last that some events say of a button: that it was pressed, or released.
pub open spec fn last_of_button(events: Seq<InputEvent>, wanted: PointerButton) -> Option<bool>
    decreases events.len(),
{
    if events.len() == 0 {
        None
    } else {
        match events.last() {
            InputEvent::Button { button, pressed } if button == wanted => Some(pressed),
            _ => last_of_button(events.drop_last(), wanted),
        }
    }
}

/// A ledger holds the keys and buttons that were pressed last, and no others.
pub proof fn what_was_pressed_last_is_held(events: Seq<InputEvent>)
    ensures
        ({
            let held = after_events(nothing_held(), events);
            &&& ascending(held.keys)
            &&& ascending(held.buttons)
            &&& forall|i: int|
                0 <= i < held.buttons.len() ==> is_button_code(#[trigger] held.buttons[i])
            &&& forall|code: u32| #[trigger]
                held.keys.contains(code) <==> last_of_key(events, code) == Some(true)
            &&& forall|button: PointerButton|
                held.buttons.contains(#[trigger] code_of_button(button)) <==> last_of_button(
                    events,
                    button,
                ) == Some(true)
        }),
    decreases events.len(),
{
    if events.len() > 0 {
        let front = events.drop_last();
        what_was_pressed_last_is_held(front);
        let before = after_events(nothing_held(), front);
        let held = after_events(nothing_held(), events);
        match events.last() {
            InputEvent::Key { code, pressed } => {
                lemma_with_code(before.keys, code);
                lemma_without_code(before.keys, code);
            },
            InputEvent::Button { button, pressed } => {
                let changed = code_of_button(button);
                lemma_with_code(before.buttons, changed);
                lemma_without_code(before.buttons, changed);
                button_codes_are_inverse(button, changed);
                assert forall|i: int| 0 <= i < held.buttons.len() implies is_button_code(
                    #[trigger] held.buttons[i],
                ) by {
                    let k = held.buttons[i];
                    assert(held.buttons.contains(k));
                    if before.buttons.contains(k) {
                        let j = choose|j: int|
                            0 <= j < before.buttons.len() && before.buttons[j] == k;
                        assert(is_button_code(before.buttons[j]));
                    }
                }
                assert forall|other: PointerButton|
                    held.buttons.contains(#[trigger] code_of_button(other)) <==> last_of_button(
                        events,
                        other,
                    ) == Some(true) by {
                    button_codes_are_inverse(other, changed);
                }
            },
            _ => {},
        }
    }
}

/// A ledger is empty exactly when the last event of every key and button is a release.
pub proof fn a_ledger_is_empty_once_all_is_released(events: Seq<InputEvent>)
    ensures
        ({
            let held = after_events(nothing_held(), events);
            held.keys.len() == 0 && held.buttons.len() == 0
        }) <==> (forall|code: u32| #[trigger] last_of_key(events, code) != Some(true)) && (forall|
            button: PointerButton,
        | #[trigger] last_of_button(events, button) != Some(true)),
{
    what_was_pressed_last_is_held(events);
    let held = after_events(nothing_held(), events);
    if held.keys.len() > 0 {
        assert(held.keys.contains(held.keys[0]));
        assert(last_of_key(events, held.keys[0]) == Some(true));
    }
    if held.buttons.len() > 0 {
        let code = held.buttons[0];
        let button = button_of_code(code);
        assert(is_button_code(code));
        button_codes_are_inverse(button, code);
        assert(held.buttons.contains(code_of_button(button)));
        assert(last_of_button(events, button) == Some(true));
    }
    if held.keys.len() == 0 && held.buttons.len() == 0 {
        assert forall|code: u32| #[trigger] last_of_key(events, code) != Some(true) by {
            assert(!held.keys.contains(code));
        }
        assert forall|button: PointerButton| #[trigger]
            last_of_button(events, button) != Some(true) by {
            assert(!held.buttons.contains(code_of_button(button)));
        }
    }
}

/// Ascending lists of the same codes are the same.
proof fn lemma_same_codes(a: Seq<u32>, b: Seq<u32>)
    requires
        ascending(a),
        ascending(b),
        forall|code: u32| a.contains(code) <==> b.contains(code),
    ensures
        a == b,
    decreases a.len(),
{
    if a.len() == 0 {
        if b.len() > 0 {
            assert(b.contains(b[0]));
        }
        assert(a =~= b);
    } else {
        assert(a.contains(a.last()));
        let i = choose|i: int| 0 <= i < b.len() && b[i] == a.last();
        assert(b.contains(b.last()));
        let j = choose|j: int| 0 <= j < a.len() && a[j] == b.last();
        assert(a[j] <= a[a.len() - 1]);
        assert(b[i] <= b[b.len() - 1]);
        assert(a.last() == b.last());
        let front = a.drop_last();
        let other = b.drop_last();
        assert forall|code: u32| front.contains(code) <==> other.contains(code) by {
            if front.contains(code) {
                let k = choose|k: int| 0 <= k < front.len() && front[k] == code;
                assert(a[k] == code && a[k] < a[a.len() - 1]);
                assert(a.contains(code) && b.contains(code));
                let m = choose|m: int| 0 <= m < b.len() && b[m] == code;
                assert(other[m] == code);
            }
            if other.contains(code) {
                let k = choose|k: int| 0 <= k < other.len() && other[k] == code;
                assert(b[k] == code && b[k] < b[b.len() - 1]);
                assert(b.contains(code) && a.contains(code));
                let m = choose|m: int| 0 <= m < a.len() && a[m] == code;
                assert(front[m] == code);
            }
        }
        lemma_same_codes(front, other);
        assert(a =~= front.push(a.last()));
        assert(b =~= other.push(b.last()));
    }
}

proof fn lemma_key_presses(keys: Seq<u32>, modifiers: bool)
    ensures
        forall|i: int|
            0 <= i < key_presses(keys, modifiers).len() ==> (#[trigger] key_presses(
                keys,
                modifiers,
            )[i] matches InputEvent::Key { code, pressed } && pressed && keys.contains(code)),
        forall|code: u32|
            keys.contains(code) && is_modifier(code) == modifiers ==> #[trigger] key_presses(
                keys,
                modifiers,
            ).contains(InputEvent::Key { code, pressed: true }),
    decreases keys.len(),
{
    if keys.len() > 0 {
        let front = keys.drop_last();
        lemma_key_presses(front, modifiers);
        let before = key_presses(front, modifiers);
        let after = key_presses(keys, modifiers);
        assert forall|i: int| 0 <= i < after.len() implies (#[trigger] after[i] matches
            InputEvent::Key { code, pressed } && pressed && keys.contains(code)) by {
            if i < before.len() {
                assert(after[i] == before[i]);
                let code = before[i]->Key_code;
                let k = choose|k: int| 0 <= k < front.len() && front[k] == code;
                assert(keys[k] == code);
            } else {
                assert(keys[keys.len() - 1] == keys.last());
            }
        }
        assert forall|code: u32|
            keys.contains(code) && is_modifier(code) == modifiers implies #[trigger] after.contains(
            InputEvent::Key { code, pressed: true },
        ) by {
            let event = InputEvent::Key { code, pressed: true };
            if code == keys.last() {
                assert(after[before.len() as int] == event);
            } else {
                let k = choose|k: int| 0 <= k < keys.len() && keys[k] == code;
                assert(front[k] == code);
                assert(before.contains(event));
                let i = choose|i: int| 0 <= i < before.len() && before[i] == event;
                assert(after[i] == event);
            }
        }
    }
}

/// Where nothing is released, the last of a key or button is a press as soon as there is one.
proof fn lemma_only_presses(events: Seq<InputEvent>)
    requires
        forall|i: int|
            0 <= i < events.len() ==> (#[trigger] events[i] matches InputEvent::Key {
                pressed,
                ..
            } ==> pressed) && (events[i] matches InputEvent::Button { pressed, .. } ==> pressed),
    ensures
        forall|code: u32| #[trigger]
            last_of_key(events, code) == Some(true) <==> events.contains(
                InputEvent::Key { code, pressed: true },
            ),
        forall|button: PointerButton| #[trigger]
            last_of_button(events, button) == Some(true) <==> events.contains(
                InputEvent::Button { button, pressed: true },
            ),
    decreases events.len(),
{
    if events.len() > 0 {
        let front = events.drop_last();
        assert forall|i: int| 0 <= i < front.len() implies (#[trigger] front[i] matches
            InputEvent::Key { pressed, .. } ==> pressed) && (front[i] matches InputEvent::Button {
            pressed,
            ..
        } ==> pressed) by {
            assert(front[i] == events[i]);
        }
        lemma_only_presses(front);
        assert(events[events.len() - 1] == events.last());
        assert forall|event: InputEvent| #[trigger]
            events.contains(event) <==> front.contains(event) || event == events.last() by {
            if events.contains(event) && event != events.last() {
                let i = choose|i: int| 0 <= i < events.len() && events[i] == event;
                assert(front[i] == event);
            }
            if front.contains(event) {
                let i = choose|i: int| 0 <= i < front.len() && front[i] == event;
                assert(events[i] == event);
            }
        }
        assert forall|code: u32| #[trigger]
            last_of_key(events, code) == Some(true) <==> events.contains(
                InputEvent::Key { code, pressed: true },
            ) by {
            assert(last_of_key(front, code) == Some(true) <==> front.contains(
                InputEvent::Key { code, pressed: true },
            ));
        }
        assert forall|button: PointerButton| #[trigger]
            last_of_button(events, button) == Some(true) <==> events.contains(
                InputEvent::Button { button, pressed: true },
            ) by {
            assert(last_of_button(front, button) == Some(true) <==> front.contains(
                InputEvent::Button { button, pressed: true },
            ));
        }
    }
}

/// The presses put everything held down again: whoever holds nothing, holds what the ledger
/// holds once they have passed through.
pub proof fn presses_restore_what_is_held(held: Holding)
    requires
        ascending(held.keys),
        ascending(held.buttons),
        forall|i: int| 0 <= i < held.buttons.len() ==> is_button_code(#[trigger] held.buttons[i]),
    ensures
        after_events(
            nothing_held(),
            key_presses(held.keys, true) + key_presses(held.keys, false) + button_events(
                held.buttons,
                true,
            ),
        ) == held,
{
    let first = key_presses(held.keys, true);
    let second = key_presses(held.keys, false);
    let third = button_events(held.buttons, true);
    let keys = first + second;
    let events = keys + third;
    lemma_key_presses(held.keys, true);
    lemma_key_presses(held.keys, false);
    assert forall|i: int| 0 <= i < events.len() implies (#[trigger] events[i] matches
        InputEvent::Key { code, pressed } ==> pressed && held.keys.contains(code)) && (
    events[i] matches InputEvent::Button { button, pressed } ==> pressed && held.buttons.contains(
        code_of_button(button),
    )) by {
        if i < first.len() {
            assert(events[i] == first[i]);
        } else if i < keys.len() {
            assert(events[i] == second[i - first.len()]);
        } else {
            let k = i - keys.len();
            assert(events[i] == third[k]);
            assert(is_button_code(held.buttons[k]));
            button_codes_are_inverse(PointerButton::Left, held.buttons[k]);
        }
    }
    lemma_only_presses(events);
    what_was_pressed_last_is_held(events);
    let after = after_events(nothing_held(), events);
    assert forall|code: u32| after.keys.contains(code) <==> held.keys.contains(code) by {
        let event = InputEvent::Key { code, pressed: true };
        assert(last_of_key(events, code) == Some(true) <==> events.contains(event));
        if held.keys.contains(code) {
            let part = key_presses(held.keys, is_modifier(code));
            assert(part.contains(event));
            let i = choose|i: int| 0 <= i < part.len() && part[i] == event;
            if is_modifier(code) {
                assert(events[i] == event);
            } else {
                assert(events[first.len() + i] == event);
            }
        }
        if events.contains(event) {
            let i = choose|i: int| 0 <= i < events.len() && events[i] == event;
            assert(held.keys.contains(code));
        }
    }
    lemma_same_codes(after.keys, held.keys);
    assert forall|code: u32| after.buttons.contains(code) <==> held.buttons.contains(code) by {
        let button = button_of_code(code);
        let event = InputEvent::Button { button, pressed: true };
        button_codes_are_inverse(button, code);
        if held.buttons.contains(code) {
            let i = choose|i: int| 0 <= i < held.buttons.len() && held.buttons[i] == code;
            assert(is_button_code(held.buttons[i]));
            assert(events[keys.len() + i] == event);
            assert(last_of_button(events, button) == Some(true));
            assert(after.buttons.contains(code_of_button(button)));
        }
        if after.buttons.contains(code) {
            let k = choose|k: int| 0 <= k < after.buttons.len() && after.buttons[k] == code;
            assert(is_button_code(after.buttons[k]));
            assert(after.buttons.contains(code_of_button(button)));
            assert(last_of_button(events, button) == Some(true));
            let i = choose|i: int| 0 <= i < events.len() && events[i] == event;
            assert(held.buttons.contains(code_of_button(button)));
        }
    }
    lemma_same_codes(after.buttons, held.buttons);
}

} // verus!
