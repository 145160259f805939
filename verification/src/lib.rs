//! A wave-function-collapse tile solver.
//!
//! A catalogue of base tiles, each with a per-edge open/closed socket
//! profile, is expanded into rotated prototypes; a rectangular grid of
//! candidate sets is then collapsed cell by cell, propagating edge
//! constraints to neighboring cells after every collapse.

pub mod direction;
pub mod error;
pub mod grid;
pub mod prototype;
pub mod render;
mod rng;
pub mod rotation;
pub mod sockets;
