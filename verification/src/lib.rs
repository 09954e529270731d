//! Tool-call parsers and bearer-token authentication for a model gateway.
pub mod auth;
pub mod config;
pub mod json;
pub mod parsers;
pub mod tenant;
pub mod text;
pub mod types;
