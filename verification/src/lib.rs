//! Path finding on grid maps that the agent only learns as it moves.
//!
//! The grid keeps the true terrain beside what the agent believes of it, an
//! A* search plans over that belief, two agents replan in their own ways, and
//! a harness runs seeded trials and gathers their statistics. Lengths are held
//! exactly, as whole numbers of straight and of diagonal steps.

pub mod distance;
pub mod grid;
pub mod search;
pub mod agent;
pub mod experiment;
pub mod random;
pub mod instance;
pub mod parser;
