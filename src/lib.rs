//! Turns dictated text into ordered synthetic key events, one job at a time.
//!
//! The library decides; the daemon around it performs the keyboard calls and
//! reports back how each submission went.

pub mod injector;
pub mod mapper;
pub mod message;
pub mod queue;
