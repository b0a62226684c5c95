//! A verified store of students and their per-subject, per-semester grades,
//! together with the record formats used to persist, export and import them
//! (`student`, `grade`, `system`, `score_text`, `records`, `error`).
//!
//! Two smaller companions share the crate: a book catalogue keyed by ISBN
//! (`catalog`) and the operator reader of a four-function calculator
//! (`calculator`).

pub mod calculator;
pub mod catalog;
pub mod error;
pub mod grade;
pub mod records;
pub mod score_text;
pub mod student;
pub mod system;
