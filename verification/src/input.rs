//! Input events: what desktops exchange, and what raw devices report.

use vstd::prelude::*;

verus! {

#[derive(Clone, Copy, Debug, PartialEq, Eq, Structural)]
pub enum PointerButton {
    Left,
    Right,
    Middle,
    Back,
    Forward,
    Other(u8),
}

/// An input event between desktops. Motion and smooth scroll are in units of
/// [`crate::geometry::PIXEL`].
#[allow(inconsistent_fields)]
#[derive(Clone, Copy, Debug, PartialEq, Eq, Structural)]
pub enum InputEvent {
    Motion { dx: i64, dy: i64 },
    ScrollPixels { dx: i64, dy: i64 },
    Scroll120 { dx: i32, dy: i32 },
    ScrollStop { cancel: bool },
    Key { code: u32, pressed: bool },
    Button { button: PointerButton, pressed: bool },
}

/// How input is carried: as a device reports it, or as a desktop sees it.
#[derive(Clone, Copy, Debug, PartialEq, Eq, Structural)]
pub enum InputMode {
    Raw,
    Desktop,
}

#[derive(Clone, Copy, Debug, PartialEq, Eq, Structural)]
pub enum RawEvent {
    Motion { x: i32, y: i32 },
    Wheel { x120: i32, y120: i32 },
    Key { code: u16, pressed: bool },
    Button { number: u8, pressed: bool },
    /// The device is gone, and whatever it held is released.
    Removed,
}

/// One report of a raw device.
#[derive(Debug, PartialEq, Eq)]
pub struct RawReport {
    pub device: u64,
    pub sequence: u64,
    pub captured_us: u64,
    pub events: Vec<RawEvent>,
}

/// Devices that may hold input at the same time.
pub const MAX_DEVICES: usize = 64;

/// Key codes that belong to a keyboard.
pub open spec fn is_keyboard_code(code: int) -> bool {
    1 <= code <= 0xff || 0x160 <= code <= 0x2bf
}

pub fn keyboard_code(code: u16) -> (r: bool)
    ensures
        r == is_keyboard_code(code as int),
{
    (1 <= code && code <= 0xff) || (0x160 <= code && code <= 0x2bf)
}

/// An event that a report of `count` events may hold.
pub open spec fn valid_event(event: RawEvent, count: int) -> bool {
    match event {
        RawEvent::Motion { .. } | RawEvent::Wheel { .. } => true,
        RawEvent::Key { code, .. } => is_keyboard_code(code as int),
        RawEvent::Button { number, .. } => 1 <= number <= 8,
        RawEvent::Removed => count == 1,
    }
}

impl RawReport {
    /// Keys belong to a keyboard, buttons are numbered from 1 to 8, and a removal stands
    /// alone.
    pub open spec fn is_valid(&self) -> bool {
        forall|i: int|
            0 <= i < self.events@.len() ==> valid_event(
                #[trigger] self.events@[i],
                self.events@.len() as int,
            )
    }

    pub fn validate(&self) -> (r: bool)
        ensures
            r == self.is_valid(),
    {
        for i in 0..self.events.len()
            invariant
                forall|k: int|
                    0 <= k < i ==> valid_event(
                        #[trigger] self.events@[k],
                        self.events@.len() as int,
                    ),
        {
            let valid: bool = match self.events[i] {
                RawEvent::Motion { .. } => true,
                RawEvent::Wheel { .. } => true,
                RawEvent::Key { code, .. } => keyboard_code(code),
                RawEvent::Button { number, .. } => 1 <= number && number <= 8,
                RawEvent::Removed => self.events.len() == 1,
            };
            if !valid {
                assert(!valid_event(self.events@[i as int], self.events@.len() as int));
                return false;
            }
        }
        true
    }
}

/// The pointer button a raw button number stands for.
pub open spec fn button_of(number: int) -> Option<PointerButton> {
    if number == 1 {
        Some(PointerButton::Left)
    } else if number == 2 {
        Some(PointerButton::Right)
    } else if number == 3 {
        Some(PointerButton::Middle)
    } else if number == 4 {
        Some(PointerButton::Back)
    } else if number == 5 {
        Some(PointerButton::Forward)
    } else if 6 <= number <= 8 {
        Some(PointerButton::Other((number - 1) as u8))
    } else {
        None
    }
}

pub fn raw_button(number: u8) -> (r: Option<PointerButton>)
    ensures
        r == button_of(number as int),
{
    match number {
        1 => Some(PointerButton::Left),
        2 => Some(PointerButton::Right),
        3 => Some(PointerButton::Middle),
        4 => Some(PointerButton::Back),
        5 => Some(PointerButton::Forward),
        6 | 7 | 8 => Some(PointerButton::Other(number - 1)),
        _ => None,
    }
}

/// The raw number of a pointer button.
pub open spec fn number_of(button: PointerButton) -> Option<u8> {
    match button {
        PointerButton::Left => Some(1),
        PointerButton::Right => Some(2),
        PointerButton::Middle => Some(3),
        PointerButton::Back => Some(4),
        PointerButton::Forward => Some(5),
        PointerButton::Other(n) => if 5 <= n <= 7 {
            Some((n + 1) as u8)
        } else {
            None
        },
    }
}

pub fn raw_button_number(button: PointerButton) -> (r: Option<u8>)
    ensures
        r == number_of(button),
{
    match button {
        PointerButton::Left => Some(1),
        PointerButton::Right => Some(2),
        PointerButton::Middle => Some(3),
        PointerButton::Back => Some(4),
        PointerButton::Forward => Some(5),
        PointerButton::Other(number) => if 5 <= number && number <= 7 {
            Some(number + 1)
        } else {
            None
        },
    }
}

/// Raw button numbers and pointer buttons stand for each other.
pub proof fn raw_buttons_are_inverse(number: int, button: PointerButton)
    ensures
        button_of(number) matches Some(b) ==> number_of(b) == Some(number as u8),
        number_of(button) matches Some(n) ==> button_of(n as int) == Some(button),
{
}

} // verus!
