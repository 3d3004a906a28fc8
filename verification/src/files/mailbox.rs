//! The latest change of the file clipboard: a newer one replaces it, and shutting the
//! clipboard off makes what was captured before worthless.

use super::records::LocalSelection;
use std::sync::Arc;
use vstd::prelude::*;

verus! {

/// A change of the file clipboard.
#[derive(Debug)]
pub enum Update {
    Clear,
    Capture { selection: Arc<LocalSelection>, generation: u64, epoch: u64 },
}

#[derive(Debug)]
pub struct Mailbox {
    pub epoch: u64,
    pub closed: bool,
    pub update: Option<Update>,
}

impl Mailbox {
    pub fn new() -> (r: Self)
        ensures
            r == (Mailbox { epoch: 0, closed: false, update: None }),
    {
        Mailbox { epoch: 0, closed: false, update: None }
    }

    pub fn epoch(&self) -> (r: u64)
        ensures
            r == self.epoch,
    {
        self.epoch
    }

    /// Puts a change in, in place of what was there; refused once closed.
    pub fn send(&mut self, update: Update) -> (r: bool)
        ensures
            r == !old(self).closed,
            *final(self) == if old(self).closed {
                *old(self)
            } else {
                Mailbox { update: Some(update), ..*old(self) }
            },
    {
        if self.closed {
            return false;
        }
        self.update = Some(update);
        true
    }

    /// Captures of an epoch still count.
    pub fn current(&self, epoch: u64) -> (r: bool)
        ensures
            r == (self.epoch == epoch),
    {
        self.epoch == epoch
    }

    /// Shuts the clipboard off: what was captured so far counts no longer.
    pub fn revoke(&mut self)
        requires
            old(self).epoch < u64::MAX,
        ensures
            *final(self) == (Mailbox {
                epoch: (old(self).epoch + 1) as u64,
                update: None,
                ..*old(self)
            }),
    {
        self.epoch = self.epoch + 1;
        self.update = None;
    }

    pub fn take(&mut self) -> (r: Option<Update>)
        ensures
            r == old(self).update,
            *final(self) == (Mailbox { update: None, ..*old(self) }),
    {
        self.update.take()
    }

    /// The service ends: nothing is taken any more.
    pub fn close(&mut self)
        ensures
            *final(self) == (Mailbox { closed: true, update: None, ..*old(self) }),
    {
        self.closed = true;
        self.update = None;
    }
}

/// What was captured before the clipboard was shut off never counts again, whether it was
/// taken out before or still waits.
pub proof fn a_revoked_capture_never_counts(before: Mailbox, captured: u64, later: Mailbox)
    requires
        captured <= before.epoch < u64::MAX,
        later.epoch >= before.epoch + 1,
    ensures
        later.epoch != captured,
{
}

} // verus!
