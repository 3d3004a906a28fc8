//! What becomes of the work that was handed out.

use super::desk::{
    explain, explained, Clock, Delivery, Desk, Dice, Enumeration, RegisteredOffer, Service,
    Undrawn, DEADLINE_MS, OFFER_LIFETIME_MS,
};
use super::faults::{is_beginning, MAX_SAID};
use super::records::{
    clone_fault, Fault, FileError, FileMessage, FileOfferId, FileReply, Manifest, Offer,
    OfferRecord, OfferState, Policy, Token, TransferId, TransferRecord, TransferState,
};
use super::selection::sentence;
use crate::outside::{random_cause, random_number};
use crate::text::shortened;
use std::sync::Arc;
use vstd::prelude::*;

verus! {

/// Why received files could not be cleared, and what is left of their transfer.
#[derive(Debug)]
pub struct ClearFailure {
    pub fault: Fault,
    pub record: Option<TransferRecord>,
}

/// A selection that was walked, under the handle it is known by.
#[derive(Debug)]
pub struct Walked {
    pub source: u64,
    pub manifest: Arc<Manifest>,
}

/// What a receive left behind.
#[derive(Debug)]
pub struct ReceiveOutcome {
    pub record: TransferRecord,
    pub cleanup_failed: bool,
}

/// Work that is over.
#[derive(Debug)]
pub enum Completed {
    Cleared { transfer: TransferId, result: Result<(), ClearFailure> },
    Enabled { result: Result<(), Fault> },
    Enumerated { id: u64, result: Result<Walked, Fault> },
    Sent { transfer: TransferId, result: Result<(), Fault> },
    Received { transfer: TransferId, result: Result<ReceiveOutcome, Fault> },
}

/// A delivery that was sent to its end, or not.
pub open spec fn sent_delivery(d: Delivery, result: Result<(), Fault>, at: u64) -> Delivery {
    let state = if d.cancelled {
        TransferState::Cancelled
    } else {
        d.record.state
    };
    let over = Delivery {
        running: false,
        source: None,
        record: TransferRecord { bytes: d.progress, state, ..d.record },
        ..d
    };
    if state.is_terminal() {
        over
    } else {
        match result {
            Ok(_) => Delivery {
                deadline: (at + DEADLINE_MS) as u64,
                record: TransferRecord {
                    state: if d.receiver_ready {
                        TransferState::Ready
                    } else {
                        TransferState::Verifying
                    },
                    ..over.record
                },
                ..over
            },
            Err(fault) => Delivery {
                record: TransferRecord {
                    state: TransferState::Failed,
                    error: Some(fault),
                    ..over.record
                },
                ..over
            },
        }
    }
}

/// A delivery that was received to its end, or not.
pub open spec fn received_delivery(d: Delivery, result: Result<ReceiveOutcome, Fault>) -> Delivery {
    Delivery {
        running: false,
        record: match result {
            Ok(outcome) => outcome.record,
            Err(fault) => TransferRecord {
                state: if d.cancelled {
                    TransferState::Cancelled
                } else {
                    TransferState::Failed
                },
                error: Some(fault),
                bytes: d.progress,
                ..d.record
            },
        },
        ..d
    }
}

impl Desk {
    pub open spec fn cleared(self, id: TransferId, result: Result<(), ClearFailure>) -> Desk {
        let waiter = if self.clearing.contains_key(id.0) {
            self.clearing[id.0]
        } else {
            None
        };
        let done = Desk { clearing: self.clearing.remove(id.0), ..self };
        match result {
            Ok(_) => done.forgetting(id).answered(waiter, Ok(FileReply::Done)),
            Err(failure) => {
                let marked = if self.transfers.contains_key(id.0) {
                    let d = self.transfers[id.0];
                    let record = match failure.record {
                        Some(record) => record,
                        None => d.record,
                    };
                    Desk {
                        transfers: self.transfers.insert(
                            id.0,
                            Delivery {
                                record: TransferRecord { error: Some(failure.fault), ..record },
                                ..d
                            },
                        ),
                        cleanup_failures: self.cleanup_failures.insert(id.0, ()),
                        ..done
                    }
                } else {
                    done
                };
                marked.answered(waiter, Err(failure.fault))
            },
        }
    }

    /// The setting was written, or could not be: then sharing is off.
    pub open spec fn switched(self, result: Result<(), Fault>) -> Desk {
        match self.setting {
            None => self,
            Some(setting) => Desk {
                setting: None,
                enabled: result is Ok && setting.enabled,
                ..self
            }.enforced().answered(
                setting.waiter,
                match result {
                    Ok(_) => Ok(FileReply::Done),
                    Err(fault) => Err(fault),
                },
            ),
        }
    }

    /// Why a selection that was walked is not offered.
    pub open spec fn walk_refusal(self, e: Enumeration, dice: Dice) -> Option<FileError> {
        if e.cancelled {
            Some(FileError::TransferCancelled)
        } else {
            match self.authorized(e.recipient@) {
                Err(error) => Some(error),
                Ok(generation) => if !(generation == e.generation && self.epoch(e.recipient@)
                    == e.epoch) {
                    Some(FileError::RecipientChanged)
                } else if dice.id is Err {
                    Some(dice.id->Err_0.why())
                } else {
                    self.send_error(e.recipient@)
                },
            }
        }
    }

    /// A selection was walked: it is offered to whom it is meant for.
    pub open spec fn walked(self, id: u64, result: Result<Walked, Fault>, clock: Clock, dice: Dice) -> Desk {
        if !self.enumerations.contains_key(id as u128) {
            self
        } else {
            let e = self.enumerations[id as u128];
            let done = Desk { enumerations: self.enumerations.remove(id as u128), ..self };
            match result {
                Err(fault) => done.answered(e.waiter, Err(fault)),
                Ok(walk) => match done.walk_refusal(e, dice) {
                    Some(error) => done.answered(e.waiter, Err(explained(error, dice.id))),
                    None => {
                        let number = dice.id->Ok_0;
                        let expires = (clock.unix_ms + OFFER_LIFETIME_MS) as u64;
                        let told = done.posted(
                            e.recipient,
                            FileMessage::Offer(
                                Offer {
                                    id: FileOfferId(number),
                                    owner: self.id,
                                    recipient: e.recipient,
                                    origin: e.origin,
                                    manifest: walk.manifest,
                                    expires_unix_ms: expires,
                                },
                            ),
                        );
                        Desk {
                            offers: told.offers.insert(
                                number,
                                RegisteredOffer {
                                    record: OfferRecord {
                                        id: FileOfferId(number),
                                        owner: self.id,
                                        recipient: e.recipient,
                                        origin: e.origin,
                                        manifest: walk.manifest,
                                        expires_unix_ms: expires,
                                        state: OfferState::Available,
                                    },
                                    source: Some(walk.source),
                                    generation: e.generation,
                                    epoch: e.epoch,
                                },
                            ),
                            ..told
                        }.answered(e.waiter, Ok(FileReply::Offered(FileOfferId(number))))
                    },
                },
            }
        }
    }

    pub open spec fn sent(self, id: TransferId, result: Result<(), Fault>, clock: Clock) -> Desk {
        if !self.transfers.contains_key(id.0) {
            self
        } else {
            Desk {
                transfers: self.transfers.insert(
                    id.0,
                    sent_delivery(self.transfers[id.0], result, clock.at),
                ),
                ..self
            }
        }
    }

    /// A receive is over, and its sender is told how it went.
    pub open spec fn received(self, id: TransferId, result: Result<ReceiveOutcome, Fault>) -> Desk {
        if !self.transfers.contains_key(id.0) {
            self
        } else {
            let d = received_delivery(self.transfers[id.0], result);
            Desk {
                transfers: self.transfers.insert(id.0, d),
                cleanup_failures: match result {
                    Ok(outcome) => if outcome.cleanup_failed {
                        self.cleanup_failures.insert(id.0, ())
                    } else {
                        self.cleanup_failures
                    },
                    Err(_) => self.cleanup_failures,
                },
                ..self
            }.posted(d.record.peer, FileMessage::Result { transfer: id, error: d.record.error })
        }
    }

    pub open spec fn completing(self, completed: Completed, clock: Clock, dice: Dice) -> Desk {
        let ready = self.synced();
        match completed {
            Completed::Cleared { transfer, result } => ready.cleared(transfer, result),
            Completed::Enabled { result } => ready.switched(result),
            Completed::Enumerated { id, result } => ready.walked(id, result, clock, dice),
            Completed::Sent { transfer, result } => ready.sent(transfer, result, clock),
            Completed::Received { transfer, result } => ready.received(transfer, result),
        }
    }
}

impl Service {
    fn finish_clearing(&mut self, id: TransferId, result: Result<(), ClearFailure>)
        requires
            old(self).wf(),
        ensures
            final(self).wf(),
            final(self)@ == old(self)@.cleared(id, result),
    {
        let ghost before = self@;
        let waiter: Option<u64> = match self.clearing.remove(id.0) {
            Some(waiter) => waiter,
            None => None,
        };
        assert(self@ == Desk { clearing: before.clearing.remove(id.0), ..before }) by {
            assert(self@.clearing =~= before.clearing.remove(id.0));
        }
        match result {
            Ok(_) => {
                self.remove_record(id);
                self.reply(waiter, Ok(FileReply::Done));
            },
            Err(failure) => {
                let ClearFailure { fault, record } = failure;
                if let Some(d) = self.transfers.get_mut(id.0) {
                    if let Some(record) = record {
                        d.record = record;
                    }
                    d.record.error = Some(fault.clone());
                    self.cleanup_failures.insert(id.0, ());
                }
                self.reply(waiter, Err(fault));
            },
        }
    }

    fn finish_switching(&mut self, result: Result<(), Fault>)
        requires
            old(self).wf(),
        ensures
            final(self).wf(),
            final(self)@ == old(self)@.switched(result),
    {
        let Some(setting) = self.setting else {
            return ;
        };
        self.setting = None;
        self.enabled = result.is_ok() && setting.enabled;
        self.enforce();
        let result = match result {
            Ok(_) => Ok(FileReply::Done),
            Err(fault) => Err(fault),
        };
        self.reply(setting.waiter, result);
    }

    fn refuse_walk(&self, e: &Enumeration, dice: &Dice) -> (r: Option<FileError>)
        requires
            self.wf(),
        ensures
            r is None ==> self@.walk_refusal(*e, *dice) == self@.send_error(e.recipient@),
            r is None ==> dice.id is Ok,
            r is Some ==> r == self@.walk_refusal(*e, *dice),
    {
        if e.cancelled {
            return Some(FileError::TransferCancelled);
        }
        match self.authorize(&e.recipient) {
            Err(error) => Some(error),
            Ok(generation) => if generation != e.generation || self.epoch(&e.recipient) != e.epoch {
                Some(FileError::RecipientChanged)
            } else {
                match &dice.id {
                    Ok(_) => None,
                    Err(undrawn) => Some(undrawn.error()),
                }
            },
        }
    }

    fn finish_walk(&mut self, id: u64, result: Result<Walked, Fault>, clock: Clock, dice: &Dice)
        requires
            old(self).wf(),
            clock.sane(),
        ensures
            final(self).wf(),
            final(self)@ == old(self)@.walked(id, result, clock, *dice),
    {
        let ghost before = self@;
        let Some(e) = self.enumerations.remove(id as u128) else {
            assert(before.enumerations.remove(id as u128) =~= before.enumerations);
            return ;
        };
        let ghost done = self@;
        let walk = match result {
            Ok(walk) => walk,
            Err(fault) => {
                self.reply(e.waiter, Err(fault));
                return ;
            },
        };
        if let Some(error) = self.refuse_walk(&e, dice) {
            self.reply(e.waiter, Err(explain(error, &dice.id)));
            return ;
        }
        let number: u128 = match &dice.id {
            Ok(number) => *number,
            Err(_) => {
                return ;
            },
        };
        let expires: u64 = clock.unix_ms + OFFER_LIFETIME_MS;
        let offer = Offer {
            id: FileOfferId(number),
            owner: self.id.clone(),
            recipient: e.recipient.clone(),
            origin: e.origin,
            manifest: walk.manifest.clone(),
            expires_unix_ms: expires,
        };
        if let Err(error) = self.send(&e.recipient, FileMessage::Offer(offer)) {
            self.reply(e.waiter, Err(Fault::Known(error)));
            return ;
        }
        let record = OfferRecord {
            id: FileOfferId(number),
            owner: self.id.clone(),
            recipient: e.recipient,
            origin: e.origin,
            manifest: walk.manifest,
            expires_unix_ms: expires,
            state: OfferState::Available,
        };
        self.offers.insert(
            number,
            RegisteredOffer {
                record,
                source: Some(walk.source),
                generation: e.generation,
                epoch: e.epoch,
            },
        );
        self.reply(e.waiter, Ok(FileReply::Offered(FileOfferId(number))));
    }

    fn finish_sending(&mut self, id: TransferId, result: Result<(), Fault>, clock: Clock)
        requires
            old(self).wf(),
            clock.sane(),
        ensures
            final(self).wf(),
            final(self)@ == old(self)@.sent(id, result, clock),
    {
        let Some(d) = self.transfers.get_mut(id.0) else {
            return ;
        };
        d.running = false;
        d.source = None;
        d.record.bytes = d.progress;
        if d.cancelled {
            d.record.state = TransferState::Cancelled;
        }
        if !d.record.state.terminal() {
            match result {
                Ok(_) => {
                    d.deadline = clock.at + DEADLINE_MS;
                    d.record.state = if d.receiver_ready {
                        TransferState::Ready
                    } else {
                        TransferState::Verifying
                    };
                },
                Err(fault) => {
                    d.record.state = TransferState::Failed;
                    d.record.error = Some(fault);
                },
            }
        }
    }

    fn finish_receiving(&mut self, id: TransferId, result: Result<ReceiveOutcome, Fault>)
        requires
            old(self).wf(),
        ensures
            final(self).wf(),
            final(self)@ == old(self)@.received(id, result),
    {
        let failed: bool = match &result {
            Ok(outcome) => outcome.cleanup_failed,
            Err(_) => false,
        };
        let Some(d) = self.transfers.get_mut(id.0) else {
            return ;
        };
        d.running = false;
        match result {
            Ok(outcome) => {
                d.record = outcome.record;
            },
            Err(fault) => {
                d.record.state = if d.cancelled {
                    TransferState::Cancelled
                } else {
                    TransferState::Failed
                };
                d.record.error = Some(fault);
                d.record.bytes = d.progress;
            },
        }
        let peer = d.record.peer.clone();
        let error = clone_fault(&d.record.error);
        if failed {
            self.cleanup_failures.insert(id.0, ());
        }
        let _ = self.send(&peer, FileMessage::Result { transfer: id, error });
    }

    /// Work that was handed out is over.
    pub fn completed(&mut self, completed: Completed, clock: Clock, dice: &Dice)
        requires
            old(self).wf(),
            clock.sane(),
        ensures
            final(self).wf(),
            final(self)@ == old(self)@.completing(completed, clock, *dice),
    {
        self.sync_clipboard();
        match completed {
            Completed::Cleared { transfer, result } => {
                self.finish_clearing(transfer, result);
            },
            Completed::Enabled { result } => {
                self.finish_switching(result);
            },
            Completed::Enumerated { id, result } => {
                self.finish_walk(id, result, clock, dice);
            },
            Completed::Sent { transfer, result } => {
                self.finish_sending(transfer, result, clock);
            },
            Completed::Received { transfer, result } => {
                self.finish_receiving(transfer, result);
            },
        }
    }

    /// A worker could not finish: that is shown with its cause, and everything is stopped.
    pub fn worker_failed(&mut self, cause: &str)
        requires
            old(self).wf(),
        ensures
            final(self).wf(),
            final(self)@.error matches Some(Fault::Said(text)) && text@ == "file worker failed: "@
                + cause@,
            final(self)@ == (Desk {
                error: final(self)@.error,
                ..old(self)@
            }).all_cancelled(Fault::Known(FileError::WorkerFailed)),
    {
        self.error = Some(Fault::Said(sentence("file worker failed: ", cause)));
        self.cancel_all(Fault::Known(FileError::WorkerFailed));
    }

    /// A worker moved bytes.
    pub fn progressed(&mut self, id: TransferId, bytes: u64)
        requires
            old(self).wf(),
        ensures
            final(self).wf(),
            final(self)@ == if old(self)@.transfers.contains_key(id.0) {
                Desk {
                    transfers: old(self)@.transfers.insert(
                        id.0,
                        Delivery { progress: bytes, ..old(self)@.transfers[id.0] },
                    ),
                    ..old(self)@
                }
            } else {
                old(self)@
            },
    {
        if let Some(d) = self.transfers.get_mut(id.0) {
            d.progress = bytes;
        }
    }

    /// Who waited for an offer does so no more.
    pub fn hung_up(&mut self, id: u64)
        requires
            old(self).wf(),
        ensures
            final(self).wf(),
            final(self)@ == if old(self)@.enumerations.contains_key(id as u128) {
                Desk {
                    enumerations: old(self)@.enumerations.insert(
                        id as u128,
                        Enumeration {
                            hung_up: true,
                            ..old(self)@.enumerations[id as u128]
                        },
                    ),
                    ..old(self)@
                }
            } else {
                old(self)@
            },
    {
        if let Some(e) = self.enumerations.get_mut(id as u128) {
            e.hung_up = true;
        }
    }

    /// The policy changed, and what it no longer allows ends.
    pub fn follow(&mut self, policy: Policy)
        requires
            old(self).wf(),
        ensures
            final(self).wf(),
            final(self)@ == (Desk { policy, ..old(self)@ }).enforced(),
    {
        self.policy = policy;
        self.enforce();
    }
}

/// That nothing could be drawn, and why.
pub fn random_failure(cause: &str) -> (r: String)
    ensures
        is_beginning(r@, "random identifier: "@ + cause@, MAX_SAID as nat),
{
    let text = sentence("random identifier: ", cause);
    shortened(text.as_str(), MAX_SAID)
}

/// A number that was drawn, or why there is none: zero counts for nothing.
pub open spec fn drawn_id(id: Result<u128, String>) -> Result<u128, Undrawn> {
    match id {
        Ok(number) => if number == 0 {
            Err(Undrawn::Zero)
        } else {
            Ok(number)
        },
        Err(why) => Err(Undrawn::Failed(why)),
    }
}

/// A token out of two numbers, or why there is none: all zero counts for nothing.
pub open spec fn drawn_token(
    high: Result<u128, String>,
    low: Result<u128, String>,
) -> Result<Token, Undrawn> {
    match (high, low) {
        (Ok(high), Ok(low)) => if high == 0 && low == 0 {
            Err(Undrawn::Zero)
        } else {
            Ok(Token { high, low })
        },
        (Err(why), _) => Err(Undrawn::Failed(why)),
        (_, Err(why)) => Err(Undrawn::Failed(why)),
    }
}

/// Drawn numbers as identity and token.
pub fn dice_of(
    id: Result<u128, String>,
    high: Result<u128, String>,
    low: Result<u128, String>,
) -> (r: Dice)
    ensures
        r == (Dice { id: drawn_id(id), token: drawn_token(high, low) }),
{
    let id: Result<u128, Undrawn> = match id {
        Ok(number) => if number == 0 {
            Err(Undrawn::Zero)
        } else {
            Ok(number)
        },
        Err(why) => Err(Undrawn::Failed(why)),
    };
    let token: Result<Token, Undrawn> = match (high, low) {
        (Ok(high), Ok(low)) => if high == 0 && low == 0 {
            Err(Undrawn::Zero)
        } else {
            Ok(Token { high, low })
        },
        (Err(why), _) => Err(Undrawn::Failed(why)),
        (_, Err(why)) => Err(Undrawn::Failed(why)),
    };
    Dice { id, token }
}

/// Draws a number, or says why that failed.
fn draw() -> (r: Result<u128, String>)
    ensures
        r matches Err(text) ==> exists|cause: Seq<char>|
            is_beginning(text@, #[trigger] ("random identifier: "@ + cause), MAX_SAID as nat),
{
    match random_number() {
        Ok(number) => Ok(number),
        Err(error) => {
            let cause = random_cause(error);
            Err(random_failure(cause.as_str()))
        },
    }
}

/// Numbers for what is about to be decided; see [`dice_of`].
pub fn roll() -> (r: Dice)
    ensures
        r.id != Ok::<u128, Undrawn>(0),
        r.token != Ok::<Token, Undrawn>(Token { high: 0, low: 0 }),
        forall|why: String|
            r.id == Err::<u128, Undrawn>(Undrawn::Failed(why)) || r.token == Err::<Token, Undrawn>(
                Undrawn::Failed(why),
            ) ==> exists|cause: Seq<char>|
                is_beginning(
                    why@,
                    #[trigger] ("random identifier: "@ + cause),
                    MAX_SAID as nat,
                ),
{
    let id = draw();
    let high = draw();
    let low = draw();
    dice_of(id, high, low)
}

} // verus!
