//! Spectrum congestion and channel suggestion engine for 2.4 GHz WiFi.
//!
//! The crate turns a list of observed access points (SSID, signal quality,
//! channel) into a per-channel congestion estimate that accounts for
//! adjacent-channel overlap, and a ranked list of channel recommendations
//! with deterministic tie-breaking.
//!
//! Signal qualities and channel loads are fixed-point numbers: the value `1.0`
//! is represented by [`quality::QUALITY_UNIT`].

pub mod access_point;
pub mod channel;
pub mod digits;
pub mod iw;
pub mod load;
pub mod quality;
pub mod render;
pub mod suggest;
