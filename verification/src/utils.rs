//! Small supporting types.

pub mod error;
