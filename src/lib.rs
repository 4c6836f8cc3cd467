//! Architecture conformance engine for component-based frontend projects:
//! module registry, directed dependency graph, layering rules, cycle
//! detection and structural metrics.

pub mod model;
pub mod registry;
pub mod graph;
pub mod structure;
pub mod walks;
pub mod metrics;
pub mod analyzer;
pub mod dot;
pub mod classify;
pub mod ordering;
pub mod extract;
