use vstd::prelude::*;

pub mod algorithms;
pub mod crypto;
pub mod digits;
pub mod engine;
pub mod errors;
pub mod hotkey;
pub mod monitor;
pub mod online;
pub mod order;
pub mod panel;
pub mod platform;
pub mod queries;
pub mod recommendation;
pub mod responses;
pub mod text;
pub mod thumbnail;
pub mod types;
pub mod words;

verus! {

} // verus!
