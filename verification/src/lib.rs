//! Keeps a directory of downloaded wallpapers in step with a tracked list of
//! wallpaper ids, checking each file against a ledger of content hashes.

pub mod api;
pub mod config;
pub mod error;
pub mod helper;
pub mod inventory;
pub mod list;
pub mod lock;
pub mod order;
pub mod paper;
pub mod plan;
pub mod retry;
pub mod text;

pub use config::Config;
pub use lock::LockFile;
pub use paper::RustPaper;
