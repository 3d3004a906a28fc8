//! Decisions of a keyboard, pointer, clipboard and file sharing service, kept apart from
//! the sockets, devices and files they are about.

pub mod arrange;
pub mod bytes;
pub mod clipboard;
pub mod codes;
pub mod config;
pub mod diagnostics;
pub mod edge_policy;
pub mod engine;
pub mod files;
pub mod geometry;
pub mod id_map;
pub mod input;
pub mod input_settings;
pub mod input_transport;
pub mod layout;
pub mod ledger;
pub mod machine;
pub mod outside;
pub mod text;
