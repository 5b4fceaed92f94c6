//! Exact-arithmetic core of a proton-NMR multiplet simulator.
//!
//! A peak coupled to several groups of equivalent protons splits into a
//! cascade of sub-peaks ("peaklets") with binomial weights.  Every quantity
//! the cascade needs (coupling constants, shifts, weights) is an exact
//! rational number, so the whole engine is verified over integer arithmetic:
//! weights at every stage sum to one, stages have the product-of-counts
//! shape, and children of one parent sit contiguously and symmetrically
//! around it.

pub mod distribution;
pub mod multiplet_cascade;
pub mod numerics;
pub mod peak;
pub mod rational;
pub mod utils;

pub use rational::Rational;
