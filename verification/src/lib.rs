//! Audits CSS stylesheets for custom-property usage: walks a parsed rule
//! tree, extracts `var()` references with the context labels of where they
//! occur, aggregates them into a sorted, deduplicated name-to-labels index,
//! and renders that index for a terminal, as JSON, or as an HTML document.

pub mod cli;
pub mod html;
pub mod index;
pub mod laws;
pub mod model;
pub mod order;
pub mod render;
pub mod scan;
pub mod usage;
pub mod walk;
