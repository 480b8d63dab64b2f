//! Depth-limited minimax search with alpha-beta pruning over two-player,
//! zero-sum, perfect-information games.
//!
//! [`minimax`] holds the engine and the contract that a game has to meet,
//! [`search`] the mathematical model of what the engine computes and the
//! laws that follow from it. [`tictactoe`] and [`connect4`] are two games
//! that meet the contract, on the common ground of [`game`] and [`board`].
//! [`drawing`] draws a decision tree as a graph, and [`text`] writes the
//! values of the library as text.

pub mod board;
pub mod connect4;
pub mod drawing;
pub mod game;
pub mod minimax;
pub mod search;
pub mod text;
pub mod tictactoe;
