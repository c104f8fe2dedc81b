//! Core library for a camera-footage import tool.
//!
//! The library holds the verified logic of the tool: the telemetry
//! container decoder, the capture-date estimator, the per-device cache,
//! the session/file state machine driven by the event reducer, and the
//! planning of copy jobs.  All I/O (terminal, file system, external
//! processes) lives outside the library and hands it plain values.

pub mod cache;
pub mod datetime;
pub mod destination;
pub mod error;
pub mod events;
pub mod focus;
pub mod mode;
pub mod paths;
pub mod progress;
pub mod scan;
pub mod session;
pub mod state;
pub mod telemetry;
pub mod text;
pub mod writer;
