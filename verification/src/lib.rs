//! A decision engine for the board game Quarto: the piece and board model,
//! win detection over the ten lines, a random rollout policy, a flat Monte
//! Carlo selector, and a Monte Carlo tree search with UCB1 selection.
pub mod mcts;
pub mod montecarlo;
pub mod numeric;
pub mod piece;
pub mod random;
mod rng;
pub mod state;
