//! Verified core of an HTTP uptime monitor.
//!
//! The library models a registry of monitored targets together with an
//! append-only log of reachability checks, and computes the read-side views
//! served to a presentation layer: fixed-length bucketed uptime series
//! (hourly and daily), gap-filled with explicit "no data" entries, and a
//! chronological list of failure incidents.  The write side is covered by a
//! recorder that is idempotent per minute slot and a scheduler policy that
//! aligns probing cycles to wall-clock minute boundaries.

pub mod model;
pub mod monitor;
pub mod overview;
pub mod series;
pub mod store;
pub mod timeslot;
