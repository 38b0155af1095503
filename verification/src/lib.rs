//! Symbol remapping between naming schemes of JVM class binaries.
//!
//! The crate models renamings of classes, fields and methods (including the
//! class references embedded in method descriptors), composes them through
//! `chain`, `reverse` and `transform`, reads and writes them as SRG text,
//! CSRG text and a framed binary container, schedules the computation of
//! derived mapping sets, and rewrites source files through a precomputed
//! index of byte ranges.

pub mod names;
pub mod descriptor;
pub mod store;
pub mod codec;
pub mod text;
pub mod ranges;
pub mod mcp;
pub mod targets;
pub mod formats;
