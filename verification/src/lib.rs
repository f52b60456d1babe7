//! Core logic of a live system-metrics dashboard: bounded sample
//! histories, human-readable byte and uptime labels, chart path
//! assembly, per-interface traffic accounting and the replay-then-stream
//! protocol of a dashboard connection.

pub mod history;
pub mod format;
pub mod chart;
pub mod network;
pub mod system;
pub mod stream;
