//! The conversion context and the output container: plain-value
//! configuration threaded read-only through one run, and the multi-file
//! result handed to the writer.

use crate::sidebar::SidebarItem;
use vstd::prelude::*;

verus! {

/// Options for converting a documentation graph to markdown.
pub struct ConversionOptions {
    /// Whether to include private items in the output.
    pub include_private: bool,
    /// Base path for links (e.g. a documentation site's routing prefix).
    pub base_path: String,
    /// Sibling-project names: references into these become internal links.
    pub workspace_crates: Vec<String>,
    /// Whether generated sidebar categories start collapsed.
    pub sidebarconfig_collapsed: bool,
    /// URL for the back link in root project sidebars, if any.
    pub sidebar_root_link: Option<String>,
}

/// The multi-file markdown output of one conversion run.
pub struct MarkdownOutput {
    /// Project name.
    pub crate_name: String,
    /// Relative file path to rendered content, one entry per page.
    pub files: Vec<(String, String)>,
    /// Rendered sidebar configuration, when one was produced.
    pub sidebar: Option<String>,
}

/// One sidebar set: navigation-context key to the nodes shown there.
pub struct SidebarSet {
    /// Entries in insertion order; a later entry for the same key wins.
    pub entries: Vec<(String, Vec<SidebarItem>)>,
}

} // verus!
