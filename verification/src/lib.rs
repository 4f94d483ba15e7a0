//! Core agent types for a ternary ecosystem: the three-valued agent state,
//! agent memory with short-term and long-term stores, fitness ranking and a
//! message bus between agents.

pub mod comm;
pub mod memory;
pub mod ranking;
pub mod ternary;
