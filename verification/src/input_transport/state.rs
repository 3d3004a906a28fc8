//! What is exchanged: cumulative totals with the serial that dates them, and numbered
//! edges that must arrive one by one.

use crate::input::{
    is_keyboard_code, keyboard_code, number_of, raw_button_number, InputEvent, InputMode, RawEvent,
};
use vstd::prelude::*;

verus! {

/// Edges that may wait, in a journal or in a receive window, and pieces one position may
/// be delivered in.
pub const MAX_TRANSITIONS: usize = 4096;

/// Everything moved and scrolled since the start. Desktop motion and smooth scroll are in
/// units of [`crate::geometry::PIXEL`].
#[derive(Clone, Copy, Debug, PartialEq, Eq, Structural)]
pub enum Totals {
    Raw { x: i64, y: i64, wheel_x: i64, wheel_y: i64 },
    Desktop { x: i64, y: i64, scroll_x: i64, scroll_y: i64, wheel_x: i64, wheel_y: i64 },
}

#[derive(Clone, Copy, Debug, PartialEq, Eq, Structural)]
pub struct Position {
    pub serial: u64,
    pub captured_us: u64,
    pub totals: Totals,
    /// Edges issued before this position.
    pub barrier: u64,
}

#[derive(Clone, Copy, Debug, PartialEq, Eq, Structural)]
pub struct Transition {
    pub id: u64,
    pub position: Position,
    pub event: InputEvent,
}

#[derive(Clone, Debug, PartialEq, Eq)]
pub struct Update {
    pub position: Position,
    pub transitions: Vec<Transition>,
}

#[derive(Clone, Debug, PartialEq, Eq)]
pub struct Delivery {
    pub captured_us: u64,
    pub events: Events,
}

#[derive(Clone, Debug, PartialEq, Eq)]
pub enum Events {
    Raw(Vec<RawEvent>),
    Desktop(Vec<InputEvent>),
}

/// Why input was refused.
#[derive(Clone, Copy, Debug, PartialEq, Eq, Structural)]
pub enum InputError {
    RawInDesktopMode,
    DesktopInRawMode,
    InvalidReport,
    SerialExhausted,
    RawXOverflow,
    RawYOverflow,
    RawWheelXOverflow,
    RawWheelYOverflow,
    DesktopTotalOverflow,
    DesktopWheelXOverflow,
    DesktopWheelYOverflow,
    UnsupportedKey,
    TooManyDevices,
    JournalFull,
    SequenceExhausted,
    AcknowledgementAhead,
    TooManyTransitions,
    ZeroSerial,
    WrongTotals,
    ReceiverTotals,
    PositionBeyondWindow,
    InvalidRawKey,
    InvalidDesktopKey,
    InvalidRawButton,
    NotAnEdge,
    WrongBarrier,
    NotIssued,
    NewerThanPosition,
    TransitionBeyondWindow,
    BarrierRewound,
    ConflictingPosition,
    ConflictingTransition,
    WindowFull,
    PositionSerialRewound,
    PositionBarrierRewound,
    DeltaOverflow,
    RawDeltaLimit,
    WheelDeltaLimit,
}

impl Totals {
    pub open spec fn is_of(self, mode: InputMode) -> bool {
        match mode {
            InputMode::Raw => self is Raw,
            InputMode::Desktop => self is Desktop,
        }
    }

    pub open spec fn none(mode: InputMode) -> Totals {
        match mode {
            InputMode::Raw => Totals::Raw { x: 0, y: 0, wheel_x: 0, wheel_y: 0 },
            InputMode::Desktop => Totals::Desktop {
                x: 0,
                y: 0,
                scroll_x: 0,
                scroll_y: 0,
                wheel_x: 0,
                wheel_y: 0,
            },
        }
    }

    /// Totals of an input mode that saw no input.
    pub fn zero(mode: InputMode) -> (r: Totals)
        ensures
            r == Totals::none(mode),
    {
        match mode {
            InputMode::Raw => Totals::Raw { x: 0, y: 0, wheel_x: 0, wheel_y: 0 },
            InputMode::Desktop => Totals::Desktop {
                x: 0,
                y: 0,
                scroll_x: 0,
                scroll_y: 0,
                wheel_x: 0,
                wheel_y: 0,
            },
        }
    }
}

/// What is wrong with a position on its own.
pub open spec fn position_error(mode: InputMode, position: Position) -> Option<InputError> {
    if position.serial == 0 {
        Some(InputError::ZeroSerial)
    } else if !position.totals.is_of(mode) {
        Some(InputError::WrongTotals)
    } else {
        None
    }
}

pub fn validate_position(mode: InputMode, position: &Position) -> (r: Result<(), InputError>)
    ensures
        match r {
            Ok(_) => position_error(mode, *position) is None,
            Err(e) => position_error(mode, *position) == Some(e),
        },
{
    if position.serial == 0 {
        return Err(InputError::ZeroSerial);
    }
    match (position.totals, mode) {
        (Totals::Raw { .. }, InputMode::Raw) => Ok(()),
        (Totals::Desktop { .. }, InputMode::Desktop) => Ok(()),
        _ => Err(InputError::WrongTotals),
    }
}

/// What keeps an event from being an edge.
pub open spec fn edge_error(mode: InputMode, event: InputEvent) -> Option<InputError> {
    match event {
        InputEvent::Key { code, .. } => match mode {
            InputMode::Raw => if is_keyboard_code(code as int) {
                None
            } else {
                Some(InputError::InvalidRawKey)
            },
            InputMode::Desktop => if 1 <= code <= 0x2ff {
                None
            } else {
                Some(InputError::InvalidDesktopKey)
            },
        },
        InputEvent::Button { button, .. } => if mode is Raw && number_of(button) is None {
            Some(InputError::InvalidRawButton)
        } else {
            None
        },
        InputEvent::ScrollStop { .. } => if mode is Desktop {
            None
        } else {
            Some(InputError::NotAnEdge)
        },
        _ => Some(InputError::NotAnEdge),
    }
}

pub fn validate_transition_event(mode: InputMode, event: &InputEvent) -> (r: Result<
    (),
    InputError,
>)
    ensures
        match r {
            Ok(_) => edge_error(mode, *event) is None,
            Err(e) => edge_error(mode, *event) == Some(e),
        },
{
    match *event {
        InputEvent::Key { code, .. } => match mode {
            InputMode::Raw => {
                if code > 0xffff || !keyboard_code(code as u16) {
                    return Err(InputError::InvalidRawKey);
                }
            },
            InputMode::Desktop => {
                if code < 1 || code > 0x2ff {
                    return Err(InputError::InvalidDesktopKey);
                }
            },
        },
        InputEvent::Button { button, .. } => {
            if mode == InputMode::Raw && raw_button_number(button).is_none() {
                return Err(InputError::InvalidRawButton);
            }
        },
        InputEvent::ScrollStop { .. } => {
            if mode != InputMode::Desktop {
                return Err(InputError::NotAnEdge);
            }
        },
        _ => {
            return Err(InputError::NotAnEdge);
        },
    }
    Ok(())
}

} // verus!
