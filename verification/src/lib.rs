//! A recorder for terminal sessions and the store that keeps them: what is decided and computed,
//! apart from reading, writing and printing.

use vstd::prelude::*;

pub mod ansible;
pub mod audit;
pub mod auth;
pub mod cast;
pub mod config;
pub mod crypto;
pub mod daemon;
pub mod format;
pub mod incoming;
pub mod order;
pub mod outside;
pub mod path;
pub mod record;
pub mod seconds;
pub mod store;
pub mod text;

verus! {

} // verus!
