//! Term-based allocation of identifiers from a shared sequence: interpreters
//! hand out identifiers from locked ranges, a predictor decides how many
//! identifiers to lock for the next term, and a simulator drives several
//! interpreters through a workload of queries.

pub mod interpreter;
pub mod predictor;
pub mod simulation;
pub mod strategy;
pub mod text;
