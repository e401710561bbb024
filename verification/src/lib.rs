//! Core of a grid-based snake simulation.
//!
//! A single snake moves on a fixed discrete arena, grows when it eats food,
//! and the round resets when it collides with itself or leaves the arena.
//! The simulation is advanced one cell per tick by an external scheduler;
//! rendering and input devices are outside this crate.

pub mod game;
pub mod grid;
