//! One loader per log format; each emits the unified session model.
pub mod hermes;
pub mod prime;
