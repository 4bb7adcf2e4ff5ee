//! Scan-conversion algorithms for 2-D primitives.
//!
//! The crate turns line segments, circles and multi-point curves into
//! ordered sequences of discrete pixels, optionally antialiased.  All
//! coordinates are integers on the logical grid; antialiased results carry
//! an exact fractional coverage.  Every algorithm is a pure function that
//! takes its geometry and a trace sink and returns a fresh result vector,
//! and each result is pinned down exactly by a specification function.

pub mod aa;
pub mod algorithm;
pub mod arith;
pub mod circle;
pub mod curve;
pub mod line;
pub mod logger;
pub mod pixel;
