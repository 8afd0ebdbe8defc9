//! Decoding and storage logic for a live telemetry dashboard: sensor packets arrive
//! over a serial line as comma-separated ASCII numbers, are decoded into readings,
//! and are written to a database or shown in a desktop window.

pub mod text;
pub mod live;
pub mod receiver;
pub mod storage;
pub mod ports;
pub mod input;
pub mod commands;
