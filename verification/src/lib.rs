//! Guobiao (Chinese official) mahjong scoring: tile encoding, hand
//! decomposition, fan recognition, waiting-hand analysis and a planner that
//! measures how far a hand is from each scoring pattern.
pub mod board;
pub mod calc;
pub mod cli;
pub mod decompose;
pub mod fans;
pub mod model;
pub mod plan;
pub mod tiles;
