//! What the scratch index that tells git which paths are already on disk has to be.
//!
//! Git replaces it with the real index at the end, so it carries no extensions; what
//! matters is its version and that every mode in it is one the index format knows.
use vstd::prelude::*;
use vstd::utf8::encode_utf8;

use crate::tree::{parse_radix_u32, radix_u32};

verus! {

/// The only index version this writes. Git keeps whatever version it reads, so a
/// repository asking for any other version is left to check itself out.
pub const SUPPORTED_VERSION: u32 = 2;

/// A character Unicode gives the `White_Space` property, which is what `str::trim` removes.
pub open spec fn is_white_space(c: char) -> bool {
    ||| ('\u{9}' <= c <= '\u{d}')
    ||| c == ' '
    ||| c == '\u{85}'
    ||| c == '\u{a0}'
    ||| c == '\u{1680}'
    ||| ('\u{2000}' <= c <= '\u{200a}')
    ||| c == '\u{2028}'
    ||| c == '\u{2029}'
    ||| c == '\u{202f}'
    ||| c == '\u{205f}'
    ||| c == '\u{3000}'
}

/// A text without its leading white space.
pub open spec fn trim_start(text: Seq<char>) -> Seq<char>
    decreases text.len(),
{
    if text.len() > 0 && is_white_space(text[0]) {
        trim_start(text.drop_first())
    } else {
        text
    }
}

/// A text without its trailing white space.
pub open spec fn trim_end(text: Seq<char>) -> Seq<char>
    decreases text.len(),
{
    if text.len() > 0 && is_white_space(text.last()) {
        trim_end(text.drop_last())
    } else {
        text
    }
}

/// A text without its leading and trailing white space.
pub open spec fn trimmed(text: Seq<char>) -> Seq<char> {
    trim_end(trim_start(text))
}

/// Removes leading and trailing white space.
///
/// Calls `str::trim`. Trusted, as its documentation says, to remove exactly the leading
/// and trailing characters with the Unicode `White_Space` property.
#[verifier::external_body]
fn trim(text: &str) -> (r: &str)
    ensures
        r@ == trimmed(text@),
{
    text.trim()
}

/// The version a configuration text asks for: the text, trimmed, read as a decimal
/// `u32` the way `str::parse` reads one.
pub open spec fn version_in(text: Seq<char>) -> Option<u32> {
    radix_u32(encode_utf8(trimmed(text)), 10)
}

/// The version a fresh index gets: `GIT_INDEX_VERSION` if set, else `index.version`,
/// else 4 when `feature.manyFiles` is on, where a value that is not a number counts as
/// absent; a requested version outside 2 to 4 gives 2.
pub open spec fn fresh_index_version(
    environment: Option<Seq<char>>,
    configured: Option<Seq<char>>,
    many_files: bool,
) -> u32 {
    let chosen = if environment is Some {
        environment
    } else {
        configured
    };
    let parsed = match chosen {
        Some(text) => version_in(text),
        None => None,
    };
    let requested = if parsed is Some {
        parsed
    } else if many_files {
        Some(4u32)
    } else {
        None
    };
    match requested {
        Some(version) => if 2 <= version <= 4 {
            version
        } else {
            SUPPORTED_VERSION
        },
        None => SUPPORTED_VERSION,
    }
}

/// Reads a configured version.
fn read_version(text: &str) -> (r: Option<u32>)
    ensures
        r == version_in(text@),
{
    let bytes = trim(text).as_bytes();
    parse_radix_u32(bytes, 10)
}

/// The version git would give a fresh index, following the same order git does.
///
/// This matters because git keeps the version of the index it reads: a scratch index in
/// the wrong version would decide the version of the final index too, which is observable.
/// `git worktree add --no-checkout` writes no index at all, so the answer has to come from
/// the environment and the configuration rather than from a file.
pub fn default_version(environment: Option<&str>, configured: Option<&str>, many_files: bool) -> (r: u32)
    ensures
        r == fresh_index_version(environment.deep_view(), configured.deep_view(), many_files),
        2 <= r <= 4,
{
    let chosen = match environment {
        Some(text) => Some(text),
        None => configured,
    };
    let parsed = match chosen {
        Some(text) => read_version(text),
        None => None,
    };
    let requested = match parsed {
        Some(version) => Some(version),
        None => if many_files {
            Some(4u32)
        } else {
            None
        },
    };
    match requested {
        Some(version) => if 2 <= version && version <= 4 {
            version
        } else {
            SUPPORTED_VERSION
        },
        None => SUPPORTED_VERSION,
    }
}

/// The mode bits the index format knows: the union of its directory, file, executable,
/// symlink and gitlink modes.
pub open spec fn known_mode(mode: u32) -> bool {
    mode & 0o160755u32 == mode
}

/// Whether the index format can record `mode`.
///
/// Calls `gix_index::entry::Mode::from_bits`. Trusted, as the bitflags source behind it
/// shows, to accept exactly the modes with no bit outside the known flags.
#[verifier::external_body]
fn mode_is_known(mode: u32) -> (r: bool)
    ensures
        r == known_mode(mode),
{
    gix_index::entry::Mode::from_bits(mode).is_some()
}

/// The first mode in `modes` the index cannot record, if there is one. Writing the
/// scratch index fails on it before anything is written.
pub fn unknown_mode(modes: &[u32]) -> (r: Option<u32>)
    ensures
        match r {
            Some(mode) => exists|i: int|
                0 <= i < modes@.len() && modes@[i] == mode && !known_mode(mode) && forall|j: int|
                    0 <= j < i ==> known_mode(#[trigger] modes@[j]),
            None => forall|j: int| 0 <= j < modes@.len() ==> known_mode(#[trigger] modes@[j]),
        },
{
    let mut i: usize = 0;
    while i < modes.len()
        invariant
            i <= modes@.len(),
            forall|j: int| 0 <= j < i ==> known_mode(#[trigger] modes@[j]),
        decreases modes@.len() - i,
    {
        if !mode_is_known(modes[i]) {
            return Some(modes[i]);
        }
        i = i + 1;
    }
    None
}

} // verus!
