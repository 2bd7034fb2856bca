//! The rules of a link between two machines on a point-to-point cable: what is
//! synchronised, ignored, retried and logged, how peers are found and named,
//! and which requests are sent and answered.

pub mod clipboard;
pub mod clock;
pub mod commands;
pub mod error;
pub mod file_api;
pub mod ignore;
pub mod kvm;
pub mod network;
pub mod parse;
pub mod paths;
pub mod screen_share;
pub mod sync_engine;
pub mod text;
pub mod url;
