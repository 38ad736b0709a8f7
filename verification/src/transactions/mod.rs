//! Changes which are collected first and made in one go.
//!
//! The registry lives in `registry` rather than in a `transactions`: a module of
//! the same name as its parent is a name nobody can write down unambiguously.

pub mod registry;
pub mod transaction;
