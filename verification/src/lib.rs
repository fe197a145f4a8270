//! A schema-linting engine for a relational database.
//!
//! The engine evaluates a catalog of parameterized diagnostic rules against
//! database metadata handed in by the caller, classifies each rule's outcome
//! into severity tiers, renders messages from templates, and serializes the
//! results to a structured report. Query execution and file I/O live with the
//! caller; this crate holds the decision logic, with contracts verified by
//! Verus.

pub mod catalog;
pub mod chars;
pub mod codec;
pub mod executor;
pub mod locator;
pub mod num;
pub mod report;
pub mod rules;
pub mod template;
pub mod threshold;
