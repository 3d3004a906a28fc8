//! What is shown when something went wrong.

use vstd::prelude::*;

verus! {

/// A kind of trouble.
#[derive(Clone, Copy, Debug, PartialEq, Eq, Structural)]
pub enum Trouble {
    /// In somebody else's words.
    Said,
    DestinationGone,
    DesktopCapture,
    InputSettings,
    RawBoundary,
    RawRelease,
    RawBegin,
    RawArm,
    RawPlace,
    RawCapture,
    RawSystem,
    Unavailable,
    RawDestination,
    NoRawCapture,
    RawConnection,
    RawOwner,
    RawReplay,
    NoRawInjection,
    RawOwnership,
    RawSourceAddress,
    RawTargetAddress,
    CrossEdgeFirst,
    NotSelectable,
    PassiveEdges,
    ConfigSave,
    TailscaleDown,
    NoAddress,
    TailscaleStatus,
    ListenerBind,
    OrderedBridge,
    ClipboardSelection,
    ClipboardStopped,
    FileClipboardStopped,
    FileQueue,
    ClipboardGone,
    ClipboardBusy,
    ClipboardSize,
    ClipboardTimeout,
    Export,
}

/// Trouble, and what is known of it.
#[derive(Debug)]
pub struct Notice {
    pub what: Trouble,
    pub detail: Option<String>,
}

impl Clone for Notice {
    fn clone(&self) -> (r: Self)
        ensures
            r == *self,
    {
        Notice {
            what: self.what,
            detail: match &self.detail {
                Some(text) => Some(text.clone()),
                None => None,
            },
        }
    }
}

pub fn clone_notice(notice: &Option<Notice>) -> (r: Option<Notice>)
    ensures
        r == *notice,
{
    match notice {
        Some(notice) => Some(notice.clone()),
        None => None,
    }
}

pub open spec fn plain(what: Trouble) -> Notice {
    Notice { what, detail: None }
}

pub open spec fn with_detail(what: Trouble, cause: Notice) -> Notice {
    Notice { what, detail: cause.detail }
}

pub fn just(what: Trouble) -> (r: Notice)
    ensures
        r == plain(what),
{
    Notice { what, detail: None }
}

/// The same detail, about something else.
pub fn about(what: Trouble, cause: Notice) -> (r: Notice)
    ensures
        r == with_detail(what, cause),
{
    Notice { what, detail: cause.detail }
}

/// The words for a kind of trouble.
pub open spec fn words(what: Trouble) -> Seq<char> {
    match what {
        Trouble::Said => ""@,
        Trouble::DestinationGone => "The destination disconnected before capture"@,
        Trouble::DesktopCapture => "Cannot capture desktop input"@,
        Trouble::InputSettings => "Cannot save input settings"@,
        Trouble::RawBoundary => "Cannot update the raw boundary"@,
        Trouble::RawRelease => "Cannot release raw input"@,
        Trouble::RawBegin => "Cannot begin raw injection"@,
        Trouble::RawArm => "Cannot arm the raw boundary"@,
        Trouble::RawPlace => "Cannot place raw pointer"@,
        Trouble::RawCapture => "Cannot capture raw input"@,
        Trouble::RawSystem => "Raw capture requires macOS or Linux"@,
        Trouble::Unavailable => "destination is not available"@,
        Trouble::RawDestination => "Raw input requires a Linux destination"@,
        Trouble::NoRawCapture => "The platform has no raw input capture backend"@,
        Trouble::RawConnection => "The control connection closed before raw preparation"@,
        Trouble::RawOwner => "Raw source does not own an available destination"@,
        Trouble::RawReplay => "Raw session generation was already used"@,
        Trouble::NoRawInjection => "Raw input injection is available on Linux only"@,
        Trouble::RawOwnership => "Input ownership changed during raw preparation"@,
        Trouble::RawSourceAddress => "Raw source lost its control address"@,
        Trouble::RawTargetAddress => "Raw destination has no tailnet address"@,
        Trouble::CrossEdgeFirst => "Start control from Linux by crossing a screen edge. Once captured, Ctrl+Alt+F12 switches computers."@,
        Trouble::NotSelectable => "The selected destination is not available"@,
        Trouble::PassiveEdges => "Dwell and resistance need passive edge observations, currently available on Mac sources. Select Immediate crossing on Linux."@,
        Trouble::ConfigSave => "Settings could not be saved"@,
        Trouble::TailscaleDown => "tailscale unreachable"@,
        Trouble::NoAddress => "tailscale up, no IPv4 address yet"@,
        Trouble::TailscaleStatus => "tailscale status failed"@,
        Trouble::ListenerBind => "listener bind failed"@,
        Trouble::OrderedBridge => "use the ordered native clipboard bridge for this observer"@,
        Trouble::ClipboardSelection => "invalid local clipboard file selection"@,
        Trouble::ClipboardStopped => "native clipboard engine stopped"@,
        Trouble::ClipboardGone => "clipboard offer is unavailable"@,
        Trouble::FileClipboardStopped => "file clipboard service stopped"@,
        Trouble::FileQueue => "file service queue unavailable"@,
        Trouble::ClipboardBusy => "too many clipboard reads in progress"@,
        Trouble::ClipboardSize => "clipboard representation exceeds size limit"@,
        Trouble::ClipboardTimeout => "clipboard read timed out"@,
        Trouble::Export => "Cannot save diagnostics"@,
    }
}

impl Trouble {
    pub fn text(self) -> (r: &'static str)
        ensures
            r@ == words(self),
    {
        match self {
            Trouble::Said => "",
            Trouble::DestinationGone => "The destination disconnected before capture",
            Trouble::DesktopCapture => "Cannot capture desktop input",
            Trouble::InputSettings => "Cannot save input settings",
            Trouble::RawBoundary => "Cannot update the raw boundary",
            Trouble::RawRelease => "Cannot release raw input",
            Trouble::RawBegin => "Cannot begin raw injection",
            Trouble::RawArm => "Cannot arm the raw boundary",
            Trouble::RawPlace => "Cannot place raw pointer",
            Trouble::RawCapture => "Cannot capture raw input",
            Trouble::RawSystem => "Raw capture requires macOS or Linux",
            Trouble::Unavailable => "destination is not available",
            Trouble::RawDestination => "Raw input requires a Linux destination",
            Trouble::NoRawCapture => "The platform has no raw input capture backend",
            Trouble::RawConnection => "The control connection closed before raw preparation",
            Trouble::RawOwner => "Raw source does not own an available destination",
            Trouble::RawReplay => "Raw session generation was already used",
            Trouble::NoRawInjection => "Raw input injection is available on Linux only",
            Trouble::RawOwnership => "Input ownership changed during raw preparation",
            Trouble::RawSourceAddress => "Raw source lost its control address",
            Trouble::RawTargetAddress => "Raw destination has no tailnet address",
            Trouble::CrossEdgeFirst => "Start control from Linux by crossing a screen edge. Once captured, Ctrl+Alt+F12 switches computers.",
            Trouble::NotSelectable => "The selected destination is not available",
            Trouble::PassiveEdges => "Dwell and resistance need passive edge observations, currently available on Mac sources. Select Immediate crossing on Linux.",
            Trouble::ConfigSave => "Settings could not be saved",
            Trouble::TailscaleDown => "tailscale unreachable",
            Trouble::NoAddress => "tailscale up, no IPv4 address yet",
            Trouble::TailscaleStatus => "tailscale status failed",
            Trouble::ListenerBind => "listener bind failed",
            Trouble::OrderedBridge => "use the ordered native clipboard bridge for this observer",
            Trouble::ClipboardSelection => "invalid local clipboard file selection",
            Trouble::ClipboardStopped => "native clipboard engine stopped",
            Trouble::ClipboardGone => "clipboard offer is unavailable",
            Trouble::FileClipboardStopped => "file clipboard service stopped",
            Trouble::FileQueue => "file service queue unavailable",
            Trouble::ClipboardBusy => "too many clipboard reads in progress",
            Trouble::ClipboardSize => "clipboard representation exceeds size limit",
            Trouble::ClipboardTimeout => "clipboard read timed out",
            Trouble::Export => "Cannot save diagnostics",
        }
    }
}

/// What is shown: the words, and the detail behind a colon.
pub open spec fn sentence(notice: Notice) -> Seq<char> {
    match notice.detail {
        None => words(notice.what),
        Some(detail) => if notice.what is Said {
            detail@
        } else {
            words(notice.what) + ": "@ + detail@
        },
    }
}

impl Notice {
    pub fn text(&self) -> (r: String)
        ensures
            r@ == sentence(*self),
    {
        let words: &str = self.what.text();
        match &self.detail {
            None => words.to_owned(),
            Some(detail) => {
                if self.what == Trouble::Said {
                    return detail.clone();
                }
                let mut out: String = words.to_owned();
                out.append(": ");
                out.append(detail.as_str());
                out
            },
        }
    }
}

} // verus!
