//! The configuration of a workspace: its vaults, semantic model and logging.
use vstd::prelude::*;
use crate::text::copy_str;

verus! {

/// Top-level configuration.
#[derive(Debug, Clone)]
pub struct DendriteConfig {
    pub workspace: WorkspaceConfig,
    pub semantic: SemanticConfig,
    pub logging: LoggingConfig,
}

/// Workspace-level settings.
#[derive(Debug, Clone)]
pub struct WorkspaceConfig {
    /// Name of the workspace.
    pub name: String,
    /// The vaults of the workspace.
    pub vaults: Vec<VaultConfig>,
    /// Global ignore patterns (glob syntax).
    pub ignore_patterns: Vec<String>,
}

/// One vault.
#[derive(Debug, Clone)]
pub struct VaultConfig {
    /// Friendly name of the vault.
    pub name: String,
    /// Path of the vault directory (relative to the workspace root).
    pub path: String,
}

/// Semantic model configuration.
#[derive(Debug, Clone)]
pub struct SemanticConfig {
    /// The model name (e.g. "Dendron", "Obsidian").
    pub model: String,
    /// Model-specific parameters, as the text of a JSON object.
    pub settings: String,
}

/// Logging settings.
#[derive(Debug, Clone)]
pub struct LoggingConfig {
    /// Whether to show indexing statistics on startup.
    pub show_indexing_stats: bool,
}

/// The value of a missing `show_indexing_stats`.
pub fn default_true() -> (r: bool)
    ensures
        r,
{
    true
}

impl Default for DendriteConfig {
    /// One vault `main` at `.`, the Dendron model with no settings, Git and
    /// `node_modules` ignored, indexing statistics shown.
    fn default() -> (r: Self)
        ensures
            r.workspace.name@ == "Dendrite Workspace"@,
            r.workspace.vaults@.len() == 1,
            r.workspace.vaults@[0].name@ == "main"@,
            r.workspace.vaults@[0].path@ == "."@,
            r.workspace.ignore_patterns@.len() == 2,
            r.workspace.ignore_patterns@[0]@ == "**/.git/**"@,
            r.workspace.ignore_patterns@[1]@ == "**/node_modules/**"@,
            r.semantic.model@ == "Dendron"@,
            r.semantic.settings@ == "{}"@,
            r.logging.show_indexing_stats,
    {
        let mut vaults: Vec<VaultConfig> = Vec::new();
        vaults.push(VaultConfig { name: copy_str("main"), path: copy_str(".") });
        let mut ignore_patterns: Vec<String> = Vec::new();
        ignore_patterns.push(copy_str("**/.git/**"));
        ignore_patterns.push(copy_str("**/node_modules/**"));
        DendriteConfig {
            workspace: WorkspaceConfig {
                name: copy_str("Dendrite Workspace"),
                vaults,
                ignore_patterns,
            },
            semantic: SemanticConfig { model: copy_str("Dendron"), settings: copy_str("{}") },
            logging: LoggingConfig { show_indexing_stats: default_true() },
        }
    }
}

} // verus!
