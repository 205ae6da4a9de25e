//! Core of an exhaustive search over discrete rocket staging designs.
//!
//! The search sweeps payload counts and per-stage impulse assignments, scores
//! each candidate, and keeps a bounded, descending-sorted shortlist of the
//! best ones.  This crate holds the combinatorial heart of that search: the
//! strictly-increasing impulse-distribution generator and the capacity-bounded
//! top-N tracker, both with verified contracts.  The floating-point physics
//! model and the configuration file handling live with the surrounding
//! application.

pub mod config;
pub mod impulse_iterator;
pub mod tracker;
