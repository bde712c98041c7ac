//! A falling-sand cellular automaton: a 2D grid of particles (sand, water,
//! wood, empty) advanced one discrete tick at a time. Water carries an
//! integer fill ratio that every flow operation conserves exactly; sand
//! settles under gravity through local swaps. The tick orchestrator sweeps
//! the grid bottom to top with a change mask and a write buffer so that no
//! cell is resolved twice within one tick.

pub mod grid;
pub mod opts;
pub mod physics;
pub mod rng;
pub mod save_state;
pub mod tally;

pub use grid::{Bearing, Grid, Particle, ParticleGrid, ParticleType};
pub use opts::Opts;
pub use physics::Physics;
pub use save_state::SaveState;
