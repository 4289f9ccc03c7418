# git-sprout, verified core

`git sprout add` grows a new git worktree out of copy-on-write clones of a checkout that
already exists, instead of writing every file again. This crate holds the parts of that
tool that decide things, written in Verus and proved against their contracts.

## Layout

- `src/` — the verified library (crate `git_sprout`):
  - `bytes` — byte-string helpers: splitting, prefixes, the byte order of paths, UTF-8
    decoding.
  - `pathmap` — maps and sets keyed by repository paths, kept in path order.
  - `tree` — reading `git ls-tree -r -t -z` into a listing of blobs, trees and submodules;
    object ids; `.gitattributes` detection; directory parts of paths.
  - `attributes` — reading `git check-attr -z` and deciding whether a checkout would
    rewrite a path's bytes.
  - `plan` — sorting verified paths, choosing whole subtrees to clone, and the laws the
    plan keeps.
  - `paths` — path equality as `std::path::Path` compares paths, under Unix or Windows
    rules.
  - `source` — reading `git worktree list --porcelain`, and ordering and filtering
    candidate checkouts.
  - `scratch_index` — the index version a fresh index gets and the modes it can record.
  - `stats`, `clone`, `request`, `delegate` — run statistics, the cloner each platform
    gets, why a request is not accelerated, and the exit code git's status becomes.
- `app/` — the process-facing side: running git, signals, block-clone system calls,
  reading the source index, writing the index file, reading directories, and the statistics report.
- `tests/` — tests of the library on concrete values.
