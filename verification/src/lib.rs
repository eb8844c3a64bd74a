//! Stealth-simulation kernel.
//!
//! Entities (players and guards) move through a 2D world of obstacles and
//! light sources; each frame the kernel recomputes lighting, noise, physics
//! and progressive detection with hysteresis, and reports discrete events.
//!
//! All quantities are fixed-point integers in milli-units: the value `1000`
//! stands for `1.0` (one world unit, one second, or a full intensity).

pub mod codec;
pub mod detection;
pub mod math;
pub mod system;
pub mod types;
