//! A verified points ledger for a chat bot.
//!
//! The library keeps a per-user integer score, decides which chat messages
//! are allowed to change it, renders user-facing replies and reports, and
//! encodes the ledger for durable storage.  All logic is verified; file and
//! chat I/O live outside the library and exchange plain values with it.

pub mod codec;
pub mod command;
pub mod ledger;
pub mod report;
pub mod service;
pub mod store;

pub use command::Command;
pub use command::Verdict;
pub use ledger::PointsLedger;
pub use service::Response;
pub use store::LedgerStore;
