//! Note persistence and content rendering engine for a markdown note store.
//!
//! The library is organised as:
//! - [`text`]: line-ending normalisation, sanitisation, slugs, HTML escaping;
//! - [`line`]: classification of single markdown lines;
//! - [`tasks`]: the task-list tree built from clamped indentation depths;
//! - [`markdown`]: the block parser and its reductions to markup, plain text
//!   and a display title;
//! - [`index`]: the persistent note index and its reconciliation against a
//!   directory scan;
//! - [`save`]: the auto-save planner that picks a unique target file, and the
//!   loaded-note assembly and ordering.

pub mod index;
pub mod line;
pub mod markdown;
pub mod save;
pub mod tasks;
pub mod text;
