//! Selecting records by conditions on their fields, combined with AND.

pub mod adapter;
pub mod builder;
