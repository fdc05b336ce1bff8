//! Decides what is to be done about the block devices that appear on a machine.
//!
//! A product configures which devices it expects. [`matchers::Matchers`] holds a matcher for each
//! kind, and finds the one that takes a device. Asking the device and acting on it is left to the
//! caller: the search hands out one request at a time and goes on when the answer is there.
pub mod config;
pub mod constants;
pub mod device;
pub mod dialogue;
pub mod history;
pub mod laws;
pub mod matched;
pub mod matcher;
pub mod matchers;
pub mod model;
pub mod outcomes;
pub mod reactions;
pub mod runs;
pub mod search;
pub mod text;
