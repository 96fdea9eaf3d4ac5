//! Veritas: a Monte-Carlo tree search engine guided by a policy-and-value
//! network, generic over the rules of a two-player game.

pub mod arena;
pub mod batching;
pub mod datagen;
pub mod engine;
pub mod game;
pub mod node;
pub mod params;
pub mod text;
pub mod tictactoe;
pub mod timemgmt;
