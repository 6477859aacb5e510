//! Session reconstruction and aggregation engine for a presence tracker.
//!
//! The library turns a stream of (user, last-login, last-logout) samples into
//! an append-only sequence of session records per user, keeps that sequence
//! consistent under re-polling, expires old data, and derives fixed-size
//! usage histograms (day-of-week, trailing-week, time-of-day) from it.
//! All I/O — polling the presence API, persistence, rendering, notification
//! delivery — lives outside this crate and talks to it through plain values.

pub mod config;
pub mod discord;
pub mod mermaid;
pub mod storage;
pub mod tasks;

pub use config::BroadcastChannel;
pub use config::Config;
pub use config::Identifier;
pub use discord::BroadcastEvent;
pub use discord::duration_hms;
pub use mermaid::Daily;
pub use mermaid::Mermaid;
pub use mermaid::TimeOfDay;
pub use mermaid::Weekly;
pub use storage::Fetched;
pub use storage::Record;
pub use storage::Storage;
pub use storage::UserEntry;
pub use tasks::next_key_index;
pub use tasks::sleep_duration;
