//! A habit journal: habit definitions, an append-only log of daily answers,
//! and the rules that turn them into day statuses and a daily score.

pub mod calendar;
pub mod text;
pub mod error;
pub mod habit;
pub mod log;
pub mod engine;
pub mod laws;
