//! Finds the call stacks that leak memory, from heap snapshots taken one
//! after the other.
//!
//! A snapshot is a text in which each allocation is a line of the form
//! `30 bytes + 30 at 1E30F1B0770 by BackTraceF076263`. The library reads
//! snapshots, compares each earlier one with the latest, and sorts the
//! signatures of the call stacks by how the number of their surviving
//! allocations develops.

pub mod addresses;
pub mod analysis;
pub mod classify;
pub mod common;
pub mod hex;
pub mod parser;
pub mod rank;
pub mod render;
pub mod report;
pub mod signatures;
pub mod snapshot;
pub mod text;

pub use crate::analysis::{analyze, Analysis};
pub use crate::classify::{classify, classify_backtraces, Bucket, MissingKey};
pub use crate::common::{find_common_allocations, get_all_backtraces, pairwise_diffs};
pub use crate::parser::{parse_line, parse_umdh_file, parse_umdh_files};
pub use crate::render::render_report;
pub use crate::report::{allocation_rows, always_present_rows, sort_backtraces};
pub use crate::snapshot::AllocationMap;
