//! What has to hold while a transfer runs.

use super::desk::policy_place;
use super::records::{FileError, Policy};
use crate::machine::MachineId;
use vstd::prelude::*;

verus! {

/// The first wait after a connection could not be accepted, in milliseconds.
pub const FIRST_BACKOFF_MS: u64 = 25;

/// The longest such wait.
pub const LAST_BACKOFF_MS: u64 = 1000;

/// The wait after the next failure.
pub fn next_backoff(wait: u64) -> (r: u64)
    requires
        wait <= LAST_BACKOFF_MS,
    ensures
        r == if 2 * wait < LAST_BACKOFF_MS {
            2 * wait
        } else {
            LAST_BACKOFF_MS as int
        },
        r <= LAST_BACKOFF_MS,
{
    if wait * 2 < LAST_BACKOFF_MS {
        wait * 2
    } else {
        LAST_BACKOFF_MS
    }
}

/// Under what a transfer was allowed.
#[derive(Debug)]
pub struct Guard {
    pub peer: MachineId,
    /// The connection of the peer.
    pub generation: u64,
    /// How often the peer had been shut out.
    pub epoch: u64,
}

/// How often a peer was shut out.
pub open spec fn epoch_in(policy: Policy, peer: Seq<char>) -> u64 {
    let at = policy_place(policy.peers@, peer);
    if at < policy.peers@.len() {
        policy.peers@[at].epoch
    } else {
        0
    }
}

/// The connection of a peer that may share files.
pub open spec fn admitted_in(policy: Policy, peer: Seq<char>) -> Option<u64> {
    let at = policy_place(policy.peers@, peer);
    if at < policy.peers@.len() {
        match policy.peers@[at].admitted {
            Some((generation, _)) => Some(generation),
            None => None,
        }
    } else {
        None
    }
}

impl Guard {
    /// Nothing changed since the transfer was allowed.
    pub open spec fn holds(self, policy: Policy, connected: bool) -> bool {
        policy.enabled && epoch_in(policy, self.peer@) == self.epoch && admitted_in(
            policy,
            self.peer@,
        ) == Some(self.generation) && connected
    }

    /// Whether a transfer may go on; `connected` says whether the peer's connection is still
    /// the current one.
    pub fn check(&self, policy: &Policy, cancelled: bool, connected: bool) -> (r: Result<
        (),
        FileError,
    >)
        ensures
            r == if cancelled {
                Err(FileError::TransferCancelled)
            } else if !self.holds(*policy, connected) {
                Err(FileError::ConnectionReplaced)
            } else {
                Ok(())
            },
    {
        if cancelled {
            return Err(FileError::TransferCancelled);
        }
        let at: usize = find_peer(policy, &self.peer);
        let (epoch, admitted): (u64, Option<u64>) = if at < policy.peers.len() {
            let generation: Option<u64> = match policy.peers[at].admitted {
                Some((generation, _)) => Some(generation),
                None => None,
            };
            (policy.peers[at].epoch, generation)
        } else {
            (0, None)
        };
        if policy.enabled && epoch == self.epoch && admitted == Some(self.generation) && connected {
            Ok(())
        } else {
            Err(FileError::ConnectionReplaced)
        }
    }
}

fn find_peer(policy: &Policy, peer: &MachineId) -> (r: usize)
    ensures
        r == policy_place(policy.peers@, peer@),
        r <= policy.peers@.len(),
{
    let ghost all = policy.peers@;
    let mut at: usize = 0;
    assert(all.skip(0) =~= all);
    while at < policy.peers.len() && !policy.peers[at].peer.same(peer)
        invariant
            all == policy.peers@,
            at <= all.len(),
            policy_place(all, peer@) == at + policy_place(all.skip(at as int), peer@),
        ensures
            at <= all.len(),
            policy_place(all, peer@) == at + policy_place(all.skip(at as int), peer@),
            at < all.len() ==> all[at as int].peer@ == peer@,
        decreases all.len() - at,
    {
        assert(all.skip(at as int)[0] == all[at as int]);
        assert(all.skip(at as int).skip(1) =~= all.skip(at + 1));
        at = at + 1;
    }
    if at < policy.peers.len() {
        assert(all.skip(at as int)[0] == all[at as int]);
    }
    at
}

/// A transfer stops as soon as its peer is shut out, even if the peer is let in again: what
/// was allowed before no longer counts.
pub proof fn a_shut_out_peer_loses_its_transfers(guard: Guard, before: Policy, after: Policy)
    requires
        epoch_in(before, guard.peer@) == guard.epoch,
        epoch_in(after, guard.peer@) > epoch_in(before, guard.peer@),
    ensures
        forall|connected: bool| !#[trigger] guard.holds(after, connected),
{
}

} // verus!
