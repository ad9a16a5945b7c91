//! Live airspace picture around a fixed site: aircraft reports from two feeds are
//! fused, followed over time, classified, and checked for conflicts and for
//! aircraft that will be heard on the ground.

pub mod acoustics;
pub mod adsb_lol;
pub mod analysis;
pub mod auth;
pub mod clock;
pub mod conflicts;
pub mod formula;
pub mod fusion;
pub mod history;
pub mod json;
pub mod measure;
pub mod narrator;
pub mod opensky;
pub mod order;
pub mod server;
pub mod text;
pub mod tracker;
pub mod types;
pub mod weather;
