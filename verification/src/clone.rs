//! The block-cloning layer: which primitive each platform has, and what it can clone.
//!
//! The cloning itself is file-system work and happens outside this library; what is
//! decided here is which cloner a platform gets and what each one promises.
use vstd::prelude::*;

use crate::stats::CloneBackend;

verus! {

/// Block cloning on macOS: files through reflink-copy, directories through clonefile(2),
/// which copies a whole hierarchy in one call.
#[derive(Debug, Clone, Copy, PartialEq, Eq)]
pub struct Clonefile;

impl Clonefile {
    /// Which primitive this cloner calls.
    pub fn backend(&self) -> (r: CloneBackend)
        ensures
            r == CloneBackend::Apfs,
    {
        CloneBackend::Apfs
    }

    /// Whether cloning a directory is cheaper than descending file by file.
    pub fn clones_directories(&self) -> (r: bool)
        ensures
            r,
    {
        true
    }
}

/// File-level block cloning through reflink-copy: FICLONE on Linux and
/// FSCTL_DUPLICATE_EXTENTS_TO_FILE on Windows ReFS. Neither clones directories.
#[derive(Debug, Clone, Copy, PartialEq, Eq)]
pub struct Reflink {
    backend: CloneBackend,
}

impl Reflink {
    /// A file cloner that reports `backend`.
    pub fn new(backend: CloneBackend) -> (r: Self)
        ensures
            r.reported() == backend,
    {
        Reflink { backend }
    }

    /// The backend this cloner reports.
    pub closed spec fn reported(&self) -> CloneBackend {
        self.backend
    }

    /// Which primitive this cloner calls.
    pub fn backend(&self) -> (r: CloneBackend)
        ensures
            r == self.reported(),
    {
        self.backend
    }

    /// Whether cloning a directory is cheaper than descending file by file.
    pub fn clones_directories(&self) -> (r: bool)
        ensures
            !r,
    {
        false
    }
}

/// The cloner for platforms with no block-cloning primitive at all. Every clone fails,
/// which demotes the run to letting git write the tree.
#[derive(Debug, Clone, Copy, PartialEq, Eq)]
pub struct Unsupported;

impl Unsupported {
    /// Which primitive this cloner calls.
    pub fn backend(&self) -> (r: CloneBackend)
        ensures
            r == CloneBackend::Unavailable,
    {
        CloneBackend::Unavailable
    }

    /// Whether cloning a directory is cheaper than descending file by file.
    pub fn clones_directories(&self) -> (r: bool)
        ensures
            !r,
    {
        false
    }
}

/// The operating systems the cloning layer tells apart.
#[derive(Debug, Clone, Copy, PartialEq, Eq)]
pub enum Platform {
    MacOs,
    Linux,
    Android,
    Windows,
    Other,
}

/// The cloner a platform gets.
#[derive(Debug, Clone, Copy, PartialEq, Eq)]
pub enum Cloner {
    Clonefile(Clonefile),
    Reflink(Reflink),
    Unsupported(Unsupported),
}

/// The backend a platform's cloner uses: APFS clonefile on macOS, FICLONE on Linux and
/// Android, ReFS block cloning on Windows, none elsewhere.
pub open spec fn platform_backend(platform: Platform) -> CloneBackend {
    match platform {
        Platform::MacOs => CloneBackend::Apfs,
        Platform::Linux | Platform::Android => CloneBackend::Ficlone,
        Platform::Windows => CloneBackend::Refs,
        Platform::Other => CloneBackend::Unavailable,
    }
}

impl Cloner {
    /// Which primitive this cloner calls.
    pub fn backend(&self) -> (r: CloneBackend)
        ensures
            r == match self {
                Cloner::Clonefile(_) => CloneBackend::Apfs,
                Cloner::Reflink(c) => c.reported(),
                Cloner::Unsupported(_) => CloneBackend::Unavailable,
            },
    {
        match self {
            Cloner::Clonefile(c) => c.backend(),
            Cloner::Reflink(c) => c.backend(),
            Cloner::Unsupported(c) => c.backend(),
        }
    }

    /// Whether cloning a directory is cheaper than descending file by file.
    pub fn clones_directories(&self) -> (r: bool)
        ensures
            r == (self is Clonefile),
    {
        match self {
            Cloner::Clonefile(c) => c.clones_directories(),
            Cloner::Reflink(c) => c.clones_directories(),
            Cloner::Unsupported(c) => c.clones_directories(),
        }
    }
}

/// The cloner for a platform: clonefile on macOS, reflink-copy on Linux, Android and
/// Windows, and the always-failing one elsewhere.
pub fn cloner_for(platform: Platform) -> (r: Cloner)
    ensures
        match platform {
            Platform::MacOs => r is Clonefile,
            Platform::Linux | Platform::Android | Platform::Windows => r is Reflink,
            Platform::Other => r is Unsupported,
        },
        match r {
            Cloner::Clonefile(_) => platform_backend(platform) == CloneBackend::Apfs,
            Cloner::Reflink(c) => c.reported() == platform_backend(platform),
            Cloner::Unsupported(_) => platform_backend(platform) == CloneBackend::Unavailable,
        },
{
    match platform {
        Platform::MacOs => Cloner::Clonefile(Clonefile),
        Platform::Linux | Platform::Android => Cloner::Reflink(Reflink::new(CloneBackend::Ficlone)),
        Platform::Windows => Cloner::Reflink(Reflink::new(CloneBackend::Refs)),
        Platform::Other => Cloner::Unsupported(Unsupported),
    }
}

} // verus!
