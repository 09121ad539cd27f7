//! Workspace configuration.
use vstd::prelude::*;

verus! {

#[derive(Debug, Clone, Copy, PartialEq, Eq, Structural)]
pub struct HistoryConfig {
    pub max_size_mb: u32,
    pub enabled: bool,
}

/// Size cap of the undo stack, in MiB, when none is configured.
pub fn default_max_size_mb() -> (r: u32)
    ensures r == 5,
{
    5
}

/// History capture is on unless configured off.
pub fn default_enabled() -> (r: bool)
    ensures r,
{
    true
}

impl Default for HistoryConfig {
    fn default() -> (r: Self)
        ensures r.max_size_mb == 5, r.enabled,
    {
        HistoryConfig { max_size_mb: default_max_size_mb(), enabled: default_enabled() }
    }
}

#[derive(Debug, Clone)]
pub struct WorkspaceConfig {
    pub name: String,
    pub history: HistoryConfig,
}

} // verus!
