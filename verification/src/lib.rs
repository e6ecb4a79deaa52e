//! Fan one audio stream out to many render endpoints.
//!
//! This crate holds the platform-independent rules of the engine and of its
//! command-line front end: device and format descriptions, argument parsing,
//! device lookup, output delay arithmetic, ring sizing, the render staging
//! queue and its delay and underrun bookkeeping,
//! the capture sink list and the supervisor's bookkeeping.

pub mod capture;
pub mod cli;
pub mod format;
pub mod offsets;
pub mod platform;
pub mod render;
pub mod ring;
pub mod settings;
pub mod stage;
pub mod supervisor;
pub mod text;
pub mod types;

pub use platform::list_outputs;
pub use settings::AppSettings;
pub use types::{DeviceInfo, DeviceKind, Error, Result};
