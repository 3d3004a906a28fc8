//! What went wrong with input, in words.

use super::desktop::LinkError;
use super::packets::SendError;
use super::state::InputError;
use vstd::prelude::*;

verus! {

impl InputError {
    pub open spec fn words(self) -> Seq<char> {
        match self {
            InputError::RawInDesktopMode => "raw report in desktop input mode"@,
            InputError::DesktopInRawMode => "desktop event in raw input mode"@,
            InputError::InvalidReport => "invalid raw input report"@,
            InputError::SerialExhausted => "position serial exhausted"@,
            InputError::RawXOverflow => "raw x total overflow"@,
            InputError::RawYOverflow => "raw y total overflow"@,
            InputError::RawWheelXOverflow => "raw horizontal wheel total overflow"@,
            InputError::RawWheelYOverflow => "raw vertical wheel total overflow"@,
            InputError::DesktopTotalOverflow => "desktop cumulative total overflow"@,
            InputError::DesktopWheelXOverflow => "desktop horizontal wheel total overflow"@,
            InputError::DesktopWheelYOverflow => "desktop vertical wheel total overflow"@,
            InputError::UnsupportedKey => "unsupported desktop key code"@,
            InputError::TooManyDevices => "too many raw input devices"@,
            InputError::JournalFull => "transition journal is full"@,
            InputError::SequenceExhausted => "transition sequence exhausted"@,
            InputError::AcknowledgementAhead => "acknowledgement exceeds issued transition sequence"@,
            InputError::TooManyTransitions => "too many transitions in update"@,
            InputError::ZeroSerial => "position serial must be nonzero"@,
            InputError::WrongTotals => "position totals do not match input mode"@,
            InputError::ReceiverTotals => "position totals do not match receiver input mode"@,
            InputError::PositionBeyondWindow => "position exceeds transition receive window"@,
            InputError::InvalidRawKey => "invalid raw key"@,
            InputError::InvalidDesktopKey => "invalid desktop key"@,
            InputError::InvalidRawButton => "invalid raw button"@,
            InputError::NotAnEdge => "transition is not a reliable desktop event"@,
            InputError::WrongBarrier => "transition position has the wrong barrier"@,
            InputError::NotIssued => "transition was not issued by update position"@,
            InputError::NewerThanPosition => "transition is newer than update position"@,
            InputError::TransitionBeyondWindow => "transition exceeds receive window"@,
            InputError::BarrierRewound => "source barrier rewound"@,
            InputError::ConflictingPosition => "conflicting position serial"@,
            InputError::ConflictingTransition => "conflicting duplicate transition"@,
            InputError::WindowFull => "transition receive window is full"@,
            InputError::PositionSerialRewound => "source position serial rewound"@,
            InputError::PositionBarrierRewound => "source position barrier rewound"@,
            InputError::DeltaOverflow => "desktop cumulative delta overflow"@,
            InputError::RawDeltaLimit => "raw cumulative delta exceeds the delivery limit"@,
            InputError::WheelDeltaLimit => "desktop cumulative wheel delta exceeds the delivery limit"@,
        }
    }

    pub fn text(self) -> (r: &'static str)
        ensures
            r@ == self.words(),
    {
        match self {
            InputError::RawInDesktopMode => "raw report in desktop input mode",
            InputError::DesktopInRawMode => "desktop event in raw input mode",
            InputError::InvalidReport => "invalid raw input report",
            InputError::SerialExhausted => "position serial exhausted",
            InputError::RawXOverflow => "raw x total overflow",
            InputError::RawYOverflow => "raw y total overflow",
            InputError::RawWheelXOverflow => "raw horizontal wheel total overflow",
            InputError::RawWheelYOverflow => "raw vertical wheel total overflow",
            InputError::DesktopTotalOverflow => "desktop cumulative total overflow",
            InputError::DesktopWheelXOverflow => "desktop horizontal wheel total overflow",
            InputError::DesktopWheelYOverflow => "desktop vertical wheel total overflow",
            InputError::UnsupportedKey => "unsupported desktop key code",
            InputError::TooManyDevices => "too many raw input devices",
            InputError::JournalFull => "transition journal is full",
            InputError::SequenceExhausted => "transition sequence exhausted",
            InputError::AcknowledgementAhead => "acknowledgement exceeds issued transition sequence",
            InputError::TooManyTransitions => "too many transitions in update",
            InputError::ZeroSerial => "position serial must be nonzero",
            InputError::WrongTotals => "position totals do not match input mode",
            InputError::ReceiverTotals => "position totals do not match receiver input mode",
            InputError::PositionBeyondWindow => "position exceeds transition receive window",
            InputError::InvalidRawKey => "invalid raw key",
            InputError::InvalidDesktopKey => "invalid desktop key",
            InputError::InvalidRawButton => "invalid raw button",
            InputError::NotAnEdge => "transition is not a reliable desktop event",
            InputError::WrongBarrier => "transition position has the wrong barrier",
            InputError::NotIssued => "transition was not issued by update position",
            InputError::NewerThanPosition => "transition is newer than update position",
            InputError::TransitionBeyondWindow => "transition exceeds receive window",
            InputError::BarrierRewound => "source barrier rewound",
            InputError::ConflictingPosition => "conflicting position serial",
            InputError::ConflictingTransition => "conflicting duplicate transition",
            InputError::WindowFull => "transition receive window is full",
            InputError::PositionSerialRewound => "source position serial rewound",
            InputError::PositionBarrierRewound => "source position barrier rewound",
            InputError::DeltaOverflow => "desktop cumulative delta overflow",
            InputError::RawDeltaLimit => "raw cumulative delta exceeds the delivery limit",
            InputError::WheelDeltaLimit => "desktop cumulative wheel delta exceeds the delivery limit",
        }
    }
}

impl SendError {
    pub open spec fn words(self) -> Seq<char> {
        match self {
            SendError::Overdue => "input transitions exceeded the 750 ms delivery limit"@,
            SendError::TooLarge => "an input transition exceeds the datagram limit"@,
        }
    }

    pub fn text(self) -> (r: &'static str)
        ensures
            r@ == self.words(),
    {
        match self {
            SendError::Overdue => "input transitions exceeded the 750 ms delivery limit",
            SendError::TooLarge => "an input transition exceeds the datagram limit",
        }
    }
}

impl LinkError {
    pub open spec fn words(self) -> Seq<char> {
        match self {
            LinkError::OverlappingSessions => "overlapping desktop input sessions exceeded their limit"@,
            LinkError::CaptureOverdue => "desktop capture queue exceeded 750 ms"@,
            LinkError::Input(error) => error.words(),
            LinkError::Send(error) => error.words(),
            LinkError::EndedTwice => "desktop session ended twice"@,
            LinkError::InvalidTimestamp => "invalid desktop capture timestamp"@,
            LinkError::InvalidAcknowledgement => "invalid desktop acknowledgement"@,
            LinkError::NotAcknowledged => "desktop destination stopped acknowledging input"@,
            LinkError::SourceSilent => "desktop source stopped sending input"@,
        }
    }

    pub fn text(self) -> (r: &'static str)
        ensures
            r@ == self.words(),
    {
        match self {
            LinkError::OverlappingSessions => "overlapping desktop input sessions exceeded their limit",
            LinkError::CaptureOverdue => "desktop capture queue exceeded 750 ms",
            LinkError::Input(error) => error.text(),
            LinkError::Send(error) => error.text(),
            LinkError::EndedTwice => "desktop session ended twice",
            LinkError::InvalidTimestamp => "invalid desktop capture timestamp",
            LinkError::InvalidAcknowledgement => "invalid desktop acknowledgement",
            LinkError::NotAcknowledged => "desktop destination stopped acknowledging input",
            LinkError::SourceSilent => "desktop source stopped sending input",
        }
    }
}

} // verus!
