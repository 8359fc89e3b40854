//! Audit HTTP response security headers and grade them.
//!
//! The rule set in [`analyze`] is a pure function of a header set, so every
//! rule is stated and proved here without a network.

pub mod text;
pub mod headers;
pub mod analyze;
pub mod fetch;
pub mod report;
