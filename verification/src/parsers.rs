//! Parsers for the tool-call formats of different models.
pub mod deepseek31;
pub mod glm4_moe;
pub mod helpers;
pub mod minimax_m2;
pub mod spans;
pub mod values;
