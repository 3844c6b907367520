//! Expansion of annotated CSV instrument descriptors into SFZ text.
//!
//! A descriptor file is a comma-separated table whose first row carries
//! column directives (`@sample(key)`, `@header`, `@raw`, or a literal opcode
//! name).  Data rows are split into sheets at the boundary column, each sheet
//! is expanded against the on-disk sample set by glob matching, rows that
//! resolve to the same sample are merged under a non-empty-overwrite policy,
//! embedded `${...}` arithmetic templates are evaluated per sample, and the
//! result is rendered as SFZ opcode text.

pub mod text;
pub mod errors;
pub mod annotation;
pub mod expr;
pub mod table;
pub mod expand;
pub mod sfz;
pub mod samplename;
pub mod laws;
