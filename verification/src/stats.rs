//! Machine-readable statistics describing what a run cloned, skipped and left to git.
use vstd::prelude::*;

verus! {

/// Which block-cloning primitive a run used.
#[derive(Debug, Clone, Copy, PartialEq, Eq)]
pub enum CloneBackend {
    Apfs,
    Ficlone,
    Refs,
    /// No block-cloning primitive at all.
    Unavailable,
}

impl CloneBackend {
    /// The name the statistics report the backend by.
    pub fn as_str(self) -> (r: &'static str)
        ensures
            r@ == match self {
                CloneBackend::Apfs => "apfs"@,
                CloneBackend::Ficlone => "ficlone"@,
                CloneBackend::Refs => "refs"@,
                CloneBackend::Unavailable => "none"@,
            },
    {
        match self {
            CloneBackend::Apfs => "apfs",
            CloneBackend::Ficlone => "ficlone",
            CloneBackend::Refs => "refs",
            CloneBackend::Unavailable => "none",
        }
    }
}

/// What a single `git sprout add` did.
#[derive(Debug, Clone)]
pub struct Stats {
    /// Paths materialised by a block clone.
    pub cloned: usize,
    /// Subtrees cloned in a single call rather than file by file.
    pub cloned_directories: usize,
    /// Paths the plan considered and rejected, so git had to write them.
    pub skipped: usize,
    /// Paths in the target tree that git checked out itself. Zero when no plan ran.
    pub checked_out_by_git: usize,
    /// The checkout the clones came from, as the raw bytes of its path.
    pub source: Option<Vec<u8>>,
    pub clone_backend: CloneBackend,
    /// True when the run produced its result through plain `git worktree add`.
    pub fell_back: bool,
    pub fallback_reason: Option<String>,
}

impl Default for Stats {
    fn default() -> (r: Self)
        ensures
            r.cloned == 0,
            r.cloned_directories == 0,
            r.skipped == 0,
            r.checked_out_by_git == 0,
            r.source is None,
            r.clone_backend == CloneBackend::Unavailable,
            !r.fell_back,
            r.fallback_reason is None,
    {
        Stats {
            cloned: 0,
            cloned_directories: 0,
            skipped: 0,
            checked_out_by_git: 0,
            source: None,
            clone_backend: CloneBackend::Unavailable,
            fell_back: false,
            fallback_reason: None,
        }
    }
}

impl Stats {
    /// Records that the run produced its result through plain `git worktree add`, and why.
    pub fn fall_back(&mut self, reason: String)
        ensures
            final(self).fell_back,
            final(self).fallback_reason == Some(reason),
            final(self).cloned == old(self).cloned,
            final(self).cloned_directories == old(self).cloned_directories,
            final(self).skipped == old(self).skipped,
            final(self).checked_out_by_git == old(self).checked_out_by_git,
            final(self).source == old(self).source,
            final(self).clone_backend == old(self).clone_backend,
    {
        self.fell_back = true;
        self.fallback_reason = Some(reason);
    }
}

} // verus!
