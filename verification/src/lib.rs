//! Verified core of a wind-induced vibration monitoring backend for
//! suspension bridges: the bridge catalogue lookup, the response envelope,
//! the cache of recent evaluations and the integer skeleton of the
//! genetic deck-shape optimizer.

pub mod catalog;
pub mod response;
pub mod rng;
pub mod genetics;
pub mod population;
pub mod optimizer;
pub mod recent;
pub mod handlers;
