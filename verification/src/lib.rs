//! A rope that an anchor drags through a field of enemies.
//!
//! The rope is a chain of joints moved by Verlet integration and held
//! together by iterated distance corrections. The enemies are circles that
//! seek the rope's anchor, collide with its joints, with the middle of its
//! segments and with each other, spawn at the edges of the viewport and
//! despawn once they are far outside it.
//!
//! All quantities are fixed-point scalars whose arithmetic saturates, so a
//! frame computes the same positions on every machine, and no operation can
//! overflow or produce a value that is not a number. Each operation is
//! stated over a mathematical view of the state and proved to compute it.

#![allow(unused_imports)]

pub mod collision;
pub mod enemy;
pub mod fixed;
pub mod geometry;
pub mod model;
pub mod rope;
