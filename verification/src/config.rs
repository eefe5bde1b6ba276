//! Read-only configuration consumed by the reordering engine.

use vstd::prelude::*;

verus! {

/// How a run of import declarations is regrouped.
#[derive(Debug, Clone, Copy, PartialEq, Eq, Structural)]
pub enum GroupImportsTactic {
    /// No cross-blank-line merging: blank lines bound the runs instead.
    Preserve,
    /// Partition each run into standard, external and local imports.
    StdExternalCrate,
    /// Treat the whole run as a single group, ignoring blank lines.
    One,
}

/// The merge policy applied when import trees are normalized.
#[derive(Debug, Clone, Copy, PartialEq, Eq, Structural)]
pub enum ImportGranularity {
    /// Keep the tree shape as written.
    Preserve,
    /// Merge imports sharing a common first path segment into one nested tree.
    Crate,
    /// Merge imports sharing a full prefix up to the last segment.
    Module,
    /// Fully flatten every import into one leaf path per declaration.
    Item,
    /// Merge the entire run into a single nested tree.
    One,
}

/// Configuration of the reordering pass. The engine only reads it.
#[derive(Debug, Clone, Copy, PartialEq, Eq, Structural)]
pub struct Config {
    /// Enables sorting within import runs and external-library runs.
    pub reorder_imports: bool,
    /// Enables sorting within module-declaration runs.
    pub reorder_modules: bool,
    /// Regrouping policy for import runs.
    pub group_imports: GroupImportsTactic,
    /// Merge policy for import-tree normalization.
    pub imports_granularity: ImportGranularity,
    /// The style edition the formatter runs under.
    pub style_edition: u64,
    /// Editions at or below this threshold compare names lexicographically;
    /// editions above it use natural (version-aware) order.
    pub style_edition_threshold: u64,
}

impl Config {
    /// True when names compare in strict code-point order rather than
    /// natural (version-aware) order.
    pub open spec fn legacy_order(self) -> bool {
        self.style_edition <= self.style_edition_threshold
    }

    pub fn uses_legacy_order(&self) -> (legacy: bool)
        ensures
            legacy == self.legacy_order(),
    {
        self.style_edition <= self.style_edition_threshold
    }
}

} // verus!
