//! Who holds the pointer: focus, crossings, and what the machines tell each other of them.

pub mod agreement;
pub mod board;
pub mod clip;
pub mod clipboard_clock;
pub mod commands;
pub mod crossing;
pub mod focus;
pub mod landing;
pub mod laws;
pub mod notice;
pub mod paths;
pub mod peers;
pub mod pointer;
pub mod raw;
pub mod raw_laws;
pub mod sessions;
pub mod sharing;
pub mod start;
pub mod state;
pub mod view;
pub mod view_laws;
