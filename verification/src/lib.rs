//! Core of a documentation-graph converter: item-to-module assignment,
//! re-export resolution, cross-reference link resolution and navigation-tree
//! construction for an API item graph, together with the string utilities the
//! output formats need.

pub mod assign;
pub mod hierarchy;
pub mod links;
pub mod mdx;
pub mod merge;
pub mod misc;
pub mod options;
pub mod reexport;
pub mod rexmod;
pub mod sample;
pub mod sidebar;
pub mod store;
pub mod strutil;
