//! A deterministic two-dimensional particle core on an integer lattice.
//!
//! Rigid circles move under a constant acceleration, push each other apart
//! when they overlap, and are held inside a circular arena centred on the
//! origin. Every coordinate is a whole number of lattice units, so a run is
//! reproducible bit for bit; a caller picks how many units make up one unit
//! of length on screen. Coordinates saturate at the ends of the `i32` range.

pub mod arith;
pub mod vector;
pub mod object;
pub mod world;
pub mod scheduler;
pub mod laws;
