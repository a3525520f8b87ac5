//! A minimal 2D particle-link physics simulator.
//!
//! Point masses ("particles") connected by rigid distance constraints
//! ("links") are advanced through time with semi-implicit integration,
//! linear drag, boundary collision against a rectangular world, and a
//! single-pass position-based constraint solver.
//!
//! All kinematic state is held in fixed-point arithmetic: a scalar is an
//! `i128` counting thousandths of a world unit, and every arithmetic
//! result saturates at a large bound, so state can never overflow.

pub mod fixed;
pub mod state;
pub mod integrator;
pub mod solver;
pub mod laws;
