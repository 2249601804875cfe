//! A single-line tab strip for a terminal workspace manager.
//!
//! The library renders a list of tab descriptors into a styled, width-bounded
//! strip of segments, resolves mouse clicks on that strip back to a tab
//! selection, persists per-client focus information across session switches,
//! and decides, on an external trigger, whether to hand off to another
//! session.

pub mod host;
pub mod segment;
pub mod line;
pub mod tab;
pub mod cache;
pub mod session;
pub mod state;
