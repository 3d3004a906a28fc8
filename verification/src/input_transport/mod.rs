//! Input carried over lossy datagrams: motion as cumulative totals that survive lost
//! packets, key and button edges as a journal that is sent until acknowledged.

pub mod beat;
pub mod desktop;
pub mod history;
pub mod laws;
pub mod packets;
pub mod receiver;
pub mod reports;
pub mod run;
pub mod sender;
pub mod socket;
pub mod state;
pub mod words;
