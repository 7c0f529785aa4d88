//! Rule-enforcement core for a two-player stone-placement board game.
//!
//! `logic` holds the board state and the move-validation algorithm
//! (occupancy, liberty counting by flood fill, capture, suicide and ko
//! rejection); `model` holds the mathematical view of grids and groups that
//! the contracts are stated over; `networking` holds the value types of the
//! session layer's wire vocabulary.

pub mod logic;
pub mod model;
pub mod networking;
