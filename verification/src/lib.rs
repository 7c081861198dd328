//! utiman — the verified core of a local dashboard over utility-provider CLIs.

pub mod archive;
pub mod check;
pub mod dates;
pub mod detect;
pub mod export;
pub mod extract;
pub mod install;
pub mod manifest;
pub mod pending;
pub mod remind;
pub mod runner;
pub mod server;
pub mod snapshots;
pub mod sort;
pub mod text;
