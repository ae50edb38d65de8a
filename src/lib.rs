//! Dexopt status analysis: turns the `dumpsys package dexopt` report and the
//! package listing into per-package records, resolves display labels, and
//! selects and counts what is shown.
pub mod text;
pub mod dump;
pub mod label;
pub mod packages;
pub mod select;
pub mod display;
