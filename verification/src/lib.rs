//! Clipboard-history core: the store model, the IPC protocol, the clipboard
//! monitor's decisions, the notch-hover state machine and the shelf helpers.

pub mod digest;
pub mod gui;
pub mod hover;
pub mod icons;
pub mod ipc;
pub mod laws;
pub mod model;
pub mod monitor;
pub mod paths;
pub mod shelf;
pub mod store;
pub mod text;
