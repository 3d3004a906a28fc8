//! Files shared between machines: offers, transfers, and what is kept of them.

pub mod outcomes;
pub mod places;
pub mod publication;
pub mod receipts;
pub mod receiving;
pub mod records;
pub mod recovery;
pub mod selection;
pub mod mailbox;
pub mod desk;
pub mod upkeep;
pub mod enforcement;
pub mod claims;
pub mod commands;
pub mod requests;
pub mod control;
pub mod completion;
pub mod exchange;
pub mod faults;
pub mod guard;
pub mod keeping;
pub mod snapshot;
pub mod stream;
pub mod laws;
pub mod walk;
pub mod wishes;
