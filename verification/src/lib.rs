//! Counting of multi-seat ranked-choice elections.
//!
//! A [`domain::context::ContextBuilder`] collects ballot lines and group
//! restrictions, validates them and hands out a [`domain::context::Context`],
//! which then yields one [`domain::context::RoundResult`] per call of `next`
//! until the election is over.
pub mod deserialize;
pub mod domain;
