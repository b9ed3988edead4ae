//! Lasa: measures and logs system downtime from the boot history of the machine.
//!
//! The verified library holds the logic: reading the text that `last reboot -F` and
//! `journalctl` print, turning boot sessions into downtime events, keeping the
//! downtime history with its monthly and yearly sums, and computing statistics.

pub mod database;
pub mod env;
pub mod error;
pub mod history;
pub mod laws;
pub mod parser;
pub mod session;
pub mod stats;
pub mod text;
