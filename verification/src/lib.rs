//! Core engine for a turn-based territory-conquest game in the Dice-Wars
//! style: players own territories on a randomly generated connected graph,
//! each territory holds a reinforcement count ("dice"), and players attack
//! adjacent enemy territories to capture them via a chance-weighted contest,
//! then receive reinforcements at the end of their turn.
//!
//! The crate holds only the game-state engine: board generation, move
//! legality, combat resolution, turn rotation and reinforcement. Rendering
//! and input handling belong to the embedding application, which drives the
//! engine through its public operations and read queries.
#![verifier::loop_isolation(false)]

pub mod board;
pub mod game;
pub mod graph;
mod rng;
