//! Port Authority: reserve and lease local TCP ports so parallel worktrees,
//! agents, and dev servers stop colliding.
//!
//! This crate holds the verified core: duration grammar, configuration rules,
//! the registry model and its invariants, the sweep and cleanup policy, port
//! selection decisions and the planning of every registry command.
#![allow(unused_imports)]

pub mod error;
pub mod text;
pub mod subsequence;
pub mod sorting;
pub mod duration;
pub mod timestamp;
pub mod paths;
pub mod ports;
pub mod registry;
pub mod state;
pub mod config;
pub mod socket;
pub mod service;
pub mod views;
pub mod listing;
pub mod listeners;
pub mod output;
pub mod locale;

use vstd::prelude::*;

verus! {

/// Envelope version of every JSON response.
pub const RESPONSE_VERSION: u32 = 1;

} // verus!
