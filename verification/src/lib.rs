//! Reward registration, granting and claiming, with the contract state held
//! as plain values and every operation proved against a mathematical model.

pub mod contract;
pub mod error;
pub mod laws;
pub mod execute;
pub mod order;
pub mod outcome;
pub mod query;
pub mod seqs;
pub mod table;
pub mod models;
pub mod msg;
pub mod state;
