//! Picks which existing checkout a new worktree is grown from.
//!
//! Candidates come from `git worktree list --porcelain`; the winner is the one whose
//! HEAD differs from the target commit in the fewest paths.
use vstd::prelude::*;
use vstd::utf8::{decode_utf8, valid_utf8};

use crate::paths::{same_path, same_path_as, PathStyle};
use crate::bytes::{
    ascii, ascii_bytes, copy_range, has_prefix, same_bytes, split, split_on, starts_with,
    text_strict, views,
};

verus! {

/// How many candidates are worth scoring. Beyond this the scoring costs more than it saves.
pub const CANDIDATE_LIMIT: usize = 5;

/// One entry of `git worktree list --porcelain`.
#[derive(Debug, Clone, PartialEq, Eq)]
pub struct Worktree {
    /// The worktree's path, as the raw bytes git printed.
    pub path: Vec<u8>,
    pub head: Option<String>,
    pub bare: bool,
    pub prunable: bool,
}

/// What an entry says, as values.
pub struct WorktreeView {
    pub path: Seq<u8>,
    pub head: Option<Seq<char>>,
    pub bare: bool,
    pub prunable: bool,
}

impl View for Worktree {
    type V = WorktreeView;

    open spec fn view(&self) -> WorktreeView {
        WorktreeView {
            path: self.path@,
            head: match self.head {
                Some(head) => Some(head@),
                None => None,
            },
            bare: self.bare,
            prunable: self.prunable,
        }
    }
}

/// The views of a sequence of worktrees.
pub open spec fn worktree_views(w: Seq<Worktree>) -> Seq<WorktreeView> {
    w.map_values(|x: Worktree| x@)
}

/// The text of a `HEAD` line's object id: its UTF-8 decoding, or nothing if it is not
/// valid UTF-8.
pub open spec fn head_text(bytes: Seq<u8>) -> Option<Seq<char>> {
    if valid_utf8(bytes) {
        Some(decode_utf8(bytes))
    } else {
        None
    }
}

/// The entries finished so far, and the one being read.
pub struct ListState {
    pub done: Seq<WorktreeView>,
    pub current: Option<WorktreeView>,
}

/// The state after reading one more line of the listing.
pub open spec fn read_line(state: ListState, line: Seq<u8>) -> ListState {
    let closed = match state.current {
        Some(w) => state.done.push(w),
        None => state.done,
    };
    if line.len() == 0 {
        ListState { done: closed, current: None }
    } else if starts_with(line, ascii("worktree "@)) {
        ListState {
            done: closed,
            current: Some(WorktreeView { path: line.skip(9), head: None, bare: false, prunable: false }),
        }
    } else {
        match state.current {
            None => state,
            Some(w) => if starts_with(line, ascii("HEAD "@)) {
                ListState { current: Some(WorktreeView { head: head_text(line.skip(5)), ..w }), ..state }
            } else if line == ascii("bare"@) {
                ListState { current: Some(WorktreeView { bare: true, ..w }), ..state }
            } else if line == ascii("prunable"@) || starts_with(line, ascii("prunable "@)) {
                ListState { current: Some(WorktreeView { prunable: true, ..w }), ..state }
            } else {
                state
            },
        }
    }
}

/// The state after reading the first `n` lines.
pub open spec fn list_state(lines: Seq<Seq<u8>>, n: int) -> ListState
    decreases n,
{
    if n <= 0 {
        ListState { done: Seq::empty(), current: None }
    } else {
        read_line(list_state(lines, n - 1), lines[n - 1])
    }
}

/// The worktrees `git worktree list --porcelain` describes: each starts at a `worktree`
/// line and runs to the next one or to a blank line; `HEAD`, `bare` and `prunable` lines
/// fill it in, and lines before the first entry are ignored.
pub open spec fn listed_worktrees(output: Seq<u8>) -> Seq<WorktreeView> {
    let lines = split_on(output, 0x0a);
    let last = list_state(lines, lines.len() as int);
    match last.current {
        Some(w) => last.done.push(w),
        None => last.done,
    }
}

/// A line of the listing other than a blank one or one opening with `worktree `, `HEAD `,
/// `bare` or `prunable` (a `branch` or `detached` line, say) leaves the entries read so far,
/// and the one being read, exactly as they were.
pub proof fn law_other_lines_change_nothing(state: ListState, line: Seq<u8>)
    requires
        line.len() > 0,
        !starts_with(line, ascii("worktree "@)),
        !starts_with(line, ascii("HEAD "@)),
        line != ascii("bare"@),
        line != ascii("prunable"@),
        !starts_with(line, ascii("prunable "@)),
    ensures
        read_line(state, line) == state,
{
}

/// A `HEAD <oid>` line gives the entry being read that object id as its head (its text,
/// or none if the bytes are not UTF-8) and changes nothing else; so an entry's head is the
/// one its last `HEAD` line names.
pub proof fn law_head_lines_set_the_head(state: ListState, oid: Seq<u8>)
    requires
        state.current is Some,
    ensures
        ({
            let after = read_line(state, ascii("HEAD "@) + oid);
            let w = state.current.unwrap();
            &&& after.done == state.done
            &&& after.current == Some(WorktreeView { head: head_text(oid), ..w })
        }),
{
    reveal_strlit("HEAD ");
    reveal_strlit("worktree ");
    let line = ascii("HEAD "@) + oid;
    assert(line.take(5) =~= ascii("HEAD "@));
    assert(line.skip(5) =~= oid);
    assert(line[0] == 0x48u8);
    assert(ascii("worktree "@)[0] == 0x77u8);
    assert(!starts_with(line, ascii("worktree "@))) by {
        if starts_with(line, ascii("worktree "@)) {
            assert(line.take(9)[0] == line[0]);
        }
    }
}

/// A `worktree <path>` line closes the entry being read, if any, and opens a fresh one
/// at exactly the bytes after the tag, with no head and neither bare nor prunable.
pub proof fn law_worktree_lines_open_an_entry(state: ListState, path: Seq<u8>)
    ensures
        ({
            let after = read_line(state, ascii("worktree "@) + path);
            &&& after.done == match state.current {
                Some(w) => state.done.push(w),
                None => state.done,
            }
            &&& after.current == Some(WorktreeView { path, head: None, bare: false, prunable: false })
        }),
{
    reveal_strlit("worktree ");
    let line = ascii("worktree "@) + path;
    assert(line.take(9) =~= ascii("worktree "@));
    assert(line.skip(9) =~= path);
}

/// Parses `git worktree list --porcelain`.
pub fn parse_list(output: &[u8]) -> (r: Vec<Worktree>)
    ensures
        worktree_views(r@) == listed_worktrees(output@),
{
    proof {
        reveal_strlit("worktree ");
        reveal_strlit("HEAD ");
        reveal_strlit("bare");
        reveal_strlit("prunable");
        reveal_strlit("prunable ");
    }
    let worktree_tag = ascii_bytes("worktree ");
    let head_tag = ascii_bytes("HEAD ");
    let bare_line = ascii_bytes("bare");
    let prunable_line = ascii_bytes("prunable");
    let prunable_tag = ascii_bytes("prunable ");
    let lines = split(output, 0x0a);
    let ghost spec_lines = split_on(output@, 0x0a);
    assert(spec_lines.len() == lines@.len());
    let mut worktrees: Vec<Worktree> = Vec::new();
    let mut current: Option<Worktree> = None;
    let mut i: usize = 0;
    assert(worktree_views(worktrees@) =~= Seq::<WorktreeView>::empty());
    while i < lines.len()
        invariant
            spec_lines == split_on(output@, 0x0a),
            views(lines@) == spec_lines,
            i <= lines@.len(),
            worktree_tag@ == ascii("worktree "@),
            worktree_tag@.len() == 9,
            head_tag@ == ascii("HEAD "@),
            head_tag@.len() == 5,
            bare_line@ == ascii("bare"@),
            prunable_line@ == ascii("prunable"@),
            prunable_tag@ == ascii("prunable "@),
            list_state(spec_lines, i as int) == (ListState {
                done: worktree_views(worktrees@),
                current: match current {
                    Some(w) => Some(w@),
                    None => None,
                },
            }),
        decreases lines@.len() - i,
    {
        let line = lines[i].as_slice();
        assert(line@ == spec_lines[i as int]);
        let ghost before = list_state(spec_lines, i as int);
        if line.len() == 0 {
            if let Some(w) = current {
                worktrees.push(w);
            }
            current = None;
            assert(worktree_views(worktrees@) =~= read_line(before, line@).done);
        } else if has_prefix(line, worktree_tag) {
            if let Some(w) = current {
                worktrees.push(w);
            }
            let path = copy_range(line, 9, line.len());
            assert(path@ =~= line@.skip(9));
            current = Some(Worktree { path, head: None, bare: false, prunable: false });
            assert(worktree_views(worktrees@) =~= read_line(before, line@).done);
        } else {
            match current {
                None => {
                    current = None;
                },
                Some(w) => {
                    let mut w = w;
                    if has_prefix(line, head_tag) {
                        let id = vstd::slice::slice_subrange(line, 5, line.len());
                        assert(id@ =~= line@.skip(5));
                        w.head = text_strict(id);
                    } else if same_bytes(line, bare_line) {
                        w.bare = true;
                    } else if same_bytes(line, prunable_line) || has_prefix(line, prunable_tag) {
                        w.prunable = true;
                    }
                    current = Some(w);
                },
            }
        }
        assert(spec_lines.take(i + 1).len() == i + 1);
        i = i + 1;
    }
    if let Some(w) = current {
        worktrees.push(w);
    }
    assert(worktree_views(worktrees@) =~= listed_worktrees(output@));
    worktrees
}


/// When a path was last modified, as seconds and nanoseconds from the Unix epoch.
#[derive(Clone, Copy, Debug, PartialEq, Eq)]
pub struct Modified {
    pub secs: i64,
    pub nanos: u32,
}

/// The order `Option<SystemTime>` sorts by: no time first, then earlier times.
pub open spec fn modified_before(a: Option<Modified>, b: Option<Modified>) -> bool {
    match (a, b) {
        (None, Some(_)) => true,
        (Some(x), Some(y)) => x.secs < y.secs || (x.secs == y.secs && x.nanos < y.nanos),
        _ => false,
    }
}

/// Whether `a` sorts before `b`.
fn is_modified_before(a: Option<Modified>, b: Option<Modified>) -> (r: bool)
    ensures
        r == modified_before(a, b),
{
    match (a, b) {
        (None, Some(_)) => true,
        (Some(x), Some(y)) => x.secs < y.secs || (x.secs == y.secs && x.nanos < y.nanos),
        _ => false,
    }
}

/// Candidate `i` comes after candidate `j` among the rest: the rest run from the most
/// recently modified down, and among equal times the later-listed first, which is what
/// a stable ascending sort followed by a reversal gives.
pub open spec fn ranks_after(modified: Seq<Option<Modified>>, i: int, j: int) -> bool {
    modified_before(modified[i], modified[j]) || (modified[i] == modified[j] && i < j)
}

/// The first entry, among the first `n`, whose path equals `path`.
pub open spec fn first_with_path(worktrees: Seq<WorktreeView>, path: Seq<u8>, n: int, style: PathStyle) -> Option<int>
    decreases n,
{
    if n <= 0 {
        None
    } else {
        match first_with_path(worktrees, path, n - 1, style) {
            Some(i) => Some(i),
            None => if same_path_as(worktrees[n - 1].path, path, style) {
                Some(n - 1)
            } else {
                None
            },
        }
    }
}

proof fn lemma_first_with_path_stays(worktrees: Seq<WorktreeView>, path: Seq<u8>, n: int, m: int, style: PathStyle)
    requires
        0 <= n <= m,
        first_with_path(worktrees, path, n, style) is Some,
    ensures
        first_with_path(worktrees, path, m, style) == first_with_path(worktrees, path, n, style),
    decreases m - n,
{
    if m > n {
        lemma_first_with_path_stays(worktrees, path, n, m - 1, style);
    }
}

/// The entries taken first: the checkout the command runs in, then the main worktree
/// (the first listed) unless it is that same checkout.
pub open spec fn leading_choices(worktrees: Seq<WorktreeView>, current: Option<Seq<u8>>, style: PathStyle) -> Seq<usize> {
    let first = match current {
        Some(path) => match first_with_path(worktrees, path, worktrees.len() as int, style) {
            Some(i) => seq![i as usize],
            None => Seq::<usize>::empty(),
        },
        None => Seq::<usize>::empty(),
    };
    if worktrees.len() > 0 && !(first.len() > 0 && same_path_as(worktrees[first[0] as int].path, worktrees[0].path, style)) {
        first.push(0usize)
    } else {
        first
    }
}

/// The bytes of a path that may be absent.
pub open spec fn path_of(path: Option<&[u8]>) -> Option<Seq<u8>> {
    match path {
        Some(p) => Some(p@),
        None => None,
    }
}

/// Whether entry `i` shares its path with an entry already taken.
pub open spec fn already_taken(worktrees: Seq<WorktreeView>, taken: Seq<usize>, i: int, style: PathStyle) -> bool {
    exists|k: int| 0 <= k < taken.len() && same_path_as(worktrees[taken[k] as int].path, worktrees[i].path, style)
}

/// Whether entry `i` shares its path with an entry already taken.
fn is_taken(worktrees: &[Worktree], taken: &Vec<usize>, i: usize, style: PathStyle) -> (r: bool)
    requires
        i < worktrees@.len(),
        forall|k: int| 0 <= k < taken@.len() ==> taken@[k] < worktrees@.len(),
    ensures
        r == already_taken(worktree_views(worktrees@), taken@, i as int, style),
{
    let ghost w = worktree_views(worktrees@);
    let mut k: usize = 0;
    while k < taken.len()
        invariant
            k <= taken@.len(),
            i < worktrees@.len(),
            w == worktree_views(worktrees@),
            forall|q: int| 0 <= q < taken@.len() ==> taken@[q] < worktrees@.len(),
            forall|q: int| 0 <= q < k ==> !same_path_as(w[taken@[q] as int].path, w[i as int].path, style),
        decreases taken@.len() - k,
    {
        let t = taken[k];
        assert(w[t as int].path == worktrees@[t as int].path@);
        assert(w[i as int].path == worktrees@[i as int].path@);
        if same_path(worktrees[t].path.as_slice(), worktrees[i].path.as_slice(), style) {
            return true;
        }
        k = k + 1;
    }
    false
}

/// Orders the candidates the way ties should be broken: the checkout the command was run
/// from, then the main worktree, then the rest, most recently modified first. The result
/// lists positions in `worktrees`; `modified` gives each entry's modification time.
pub fn in_preference_order(
    worktrees: &[Worktree],
    current: Option<&[u8]>,
    modified: &[Option<Modified>],
    style: PathStyle,
) -> (r: Vec<usize>)
    requires
        modified@.len() == worktrees@.len(),
    ensures
        ({
            let w = worktree_views(worktrees@);
            let lead = leading_choices(w, path_of(current), style);
            let rest = r@.skip(lead.len() as int);
            &&& lead.len() <= r@.len()
            &&& r@.take(lead.len() as int) == lead
            &&& forall|k: int| 0 <= k < rest.len() ==> #[trigger] rest[k] < w.len() && !already_taken(w, lead, rest[k] as int, style)
            &&& forall|i: int| 0 <= i < w.len() && !already_taken(w, lead, i, style) ==> rest.contains(i as usize)
            &&& forall|a: int, b: int| 0 <= a < b < rest.len() ==> ranks_after(modified@, #[trigger] rest[b] as int, #[trigger] rest[a] as int)
        }),
{
    let ghost w = worktree_views(worktrees@);
    let mut ordered: Vec<usize> = Vec::new();
    // The checkout the command runs in.
    if let Some(path) = current {
        let mut found: Option<usize> = None;
        let mut i: usize = 0;
        while i < worktrees.len() && found.is_none()
            invariant
                i <= worktrees@.len(),
                w == worktree_views(worktrees@),
                found is None ==> first_with_path(w, path@, i as int, style) is None,
                found matches Some(k) ==> first_with_path(w, path@, i as int, style) == Some(k as int) && k < worktrees@.len(),
            decreases worktrees@.len() - i,
        {
            assert(w[i as int].path == worktrees@[i as int].path@);
            if same_path(worktrees[i].path.as_slice(), path, style) {
                found = Some(i);
            }
            i = i + 1;
        }
        proof {
            if found is Some {
                lemma_first_with_path_stays(w, path@, i as int, w.len() as int, style);
            }
        }
        if let Some(k) = found {
            ordered.push(k);
        }
    }
    // The main worktree, unless it is the same checkout.
    if worktrees.len() > 0 {
        let same = ordered.len() > 0 && same_path(worktrees[ordered[0]].path.as_slice(), worktrees[0].path.as_slice(), style);
        proof {
            if ordered@.len() > 0 {
                assert(w[ordered@[0] as int].path == worktrees@[ordered@[0] as int].path@);
            }
            assert(w[0].path == worktrees@[0].path@);
        }
        if !same {
            ordered.push(0);
        }
    }
    let ghost lead = ordered@;
    assert(lead =~= leading_choices(w, path_of(current), style));
    // The rest, most recently modified first.
    let mut rest: Vec<usize> = Vec::new();
    let mut i: usize = 0;
    while i < worktrees.len()
        invariant
            i <= worktrees@.len(),
            modified@.len() == worktrees@.len(),
            w == worktree_views(worktrees@),
            ordered@ == lead,
            forall|k: int| 0 <= k < lead.len() ==> lead[k] < worktrees@.len(),
            forall|k: int| 0 <= k < rest@.len() ==> #[trigger] rest@[k] < i && !already_taken(w, lead, rest@[k] as int, style),
            forall|j: int| 0 <= j < i && !already_taken(w, lead, j, style) ==> rest@.contains(j as usize),
            forall|a: int, b: int| 0 <= a < b < rest@.len() ==> ranks_after(modified@, #[trigger] rest@[b] as int, #[trigger] rest@[a] as int),
        decreases worktrees@.len() - i,
    {
        if !is_taken(worktrees, &ordered, i, style) {
            let mi = modified[i];
            let mut p: usize = 0;
            while p < rest.len() && is_modified_before(mi, modified[rest[p]])
                invariant
                    p <= rest@.len(),
                    i < modified@.len(),
                    mi == modified@[i as int],
                    forall|k: int| 0 <= k < rest@.len() ==> #[trigger] rest@[k] < i,
                    forall|q: int| 0 <= q < p ==> modified_before(mi, modified@[#[trigger] rest@[q] as int]),
                decreases rest@.len() - p,
            {
                p = p + 1;
            }
            let ghost old_rest = rest@;
            proof {
                assert forall|q: int| p <= q < old_rest.len() implies ranks_after(modified@, #[trigger] old_rest[q] as int, i as int) by {
                    if q > p {
                        assert(ranks_after(modified@, old_rest[q] as int, old_rest[p as int] as int));
                    }
                }
            }
            rest.insert(p, i);
            assert forall|a: int, b: int| 0 <= a < b < rest@.len() implies ranks_after(modified@, #[trigger] rest@[b] as int, #[trigger] rest@[a] as int) by {
                if b < p {
                } else if a < p && b == p {
                } else if a < p {
                    assert(rest@[b] == old_rest[b - 1]);
                    assert(ranks_after(modified@, old_rest[b - 1] as int, old_rest[p as int] as int) || b - 1 == p);
                } else if a == p {
                    assert(rest@[b] == old_rest[b - 1]);
                } else {
                    assert(rest@[a] == old_rest[a - 1]);
                    assert(rest@[b] == old_rest[b - 1]);
                }
            }
            assert forall|j: int| 0 <= j < i + 1 && !already_taken(w, lead, j, style) implies rest@.contains(j as usize) by {
                if j == i {
                    assert(rest@[p as int] == i);
                } else {
                    let k = choose|k: int| 0 <= k < old_rest.len() && old_rest[k] == j as usize;
                    if k < p {
                        assert(rest@[k] == j as usize);
                    } else {
                        assert(rest@[k + 1] == j as usize);
                    }
                }
            }
        }
        i = i + 1;
    }
    let ghost rest_view = rest@;
    ordered.append(&mut rest);
    assert(ordered@.skip(lead.len() as int) =~= rest_view);
    assert(ordered@.take(lead.len() as int) =~= lead);
    ordered
}

/// What the filesystem says of a candidate checkout.
#[derive(Clone, Copy, Debug, PartialEq, Eq)]
pub struct OnDisk {
    /// The path is a directory.
    pub is_dir: bool,
    /// The device it lives on, where the platform reports one.
    pub device: Option<u64>,
}

/// Whether a worktree can serve as the source: not bare, not prunable, not the
/// destination itself, a directory, and on the destination's device where both devices
/// are known, because a block clone cannot cross volumes.
pub open spec fn can_serve(w: WorktreeView, destination: Seq<u8>, destination_device: Option<u64>, disk: OnDisk, style: PathStyle) -> bool {
    &&& !w.bare
    &&& !w.prunable
    &&& !same_path_as(w.path, destination, style)
    &&& disk.is_dir
    &&& match (destination_device, disk.device) {
        (Some(d), Some(c)) => d == c,
        _ => true,
    }
}

/// The entries of `order`, among its first `n`, that can serve, in order.
pub open spec fn serving(
    worktrees: Seq<WorktreeView>,
    order: Seq<usize>,
    destination: Seq<u8>,
    destination_device: Option<u64>,
    disk: Seq<OnDisk>,
    n: int,
    style: PathStyle,
) -> Seq<usize>
    decreases n,
{
    if n <= 0 {
        Seq::empty()
    } else {
        let before = serving(worktrees, order, destination, destination_device, disk, n - 1, style);
        let i = order[n - 1] as int;
        if can_serve(worktrees[i], destination, destination_device, disk[i], style) {
            before.push(order[n - 1])
        } else {
            before
        }
    }
}

/// At most the first `CANDIDATE_LIMIT` entries of a sequence.
pub open spec fn at_most_limit(s: Seq<usize>) -> Seq<usize> {
    if s.len() <= CANDIDATE_LIMIT {
        s
    } else {
        s.take(CANDIDATE_LIMIT as int)
    }
}

/// The candidates worth scoring: the first `CANDIDATE_LIMIT` entries of `order` that can
/// serve. `disk[i]` is what the filesystem says of `worktrees[i]`.
pub fn candidates(
    worktrees: &[Worktree],
    order: &[usize],
    destination: &[u8],
    destination_device: Option<u64>,
    disk: &[OnDisk],
    style: PathStyle,
) -> (r: Vec<usize>)
    requires
        disk@.len() == worktrees@.len(),
        forall|k: int| 0 <= k < order@.len() ==> #[trigger] order@[k] < worktrees@.len(),
    ensures
        r@ == at_most_limit(
            serving(worktree_views(worktrees@), order@, destination@, destination_device, disk@, order@.len() as int, style),
        ),
{
    let ghost w = worktree_views(worktrees@);
    let mut chosen: Vec<usize> = Vec::new();
    let mut k: usize = 0;
    while k < order.len()
        invariant
            k <= order@.len(),
            w == worktree_views(worktrees@),
            disk@.len() == worktrees@.len(),
            forall|q: int| 0 <= q < order@.len() ==> #[trigger] order@[q] < worktrees@.len(),
            chosen@ == at_most_limit(serving(w, order@, destination@, destination_device, disk@, k as int, style)),
        decreases order@.len() - k,
    {
        let i = order[k];
        let worktree = &worktrees[i];
        let facts = disk[i];
        assert(w[i as int] == worktree@);
        let device_matches = match (destination_device, facts.device) {
            (Some(d), Some(c)) => d == c,
            _ => true,
        };
        let serves = !worktree.bare && !worktree.prunable && !same_path(worktree.path.as_slice(), destination, style)
            && facts.is_dir && device_matches;
        let ghost before = serving(w, order@, destination@, destination_device, disk@, k as int, style);
        if serves && chosen.len() < CANDIDATE_LIMIT {
            chosen.push(i);
        }
        proof {
            let after = serving(w, order@, destination@, destination_device, disk@, k + 1, style);
            if serves && before.len() >= CANDIDATE_LIMIT {
                assert(after.take(CANDIDATE_LIMIT as int) =~= before.take(CANDIDATE_LIMIT as int));
            }
        }
        k = k + 1;
    }
    chosen
}

/// The position of the smallest count, the earliest one among equals; `None` when there
/// are no counts.
pub fn closest(counts: &[usize]) -> (r: Option<usize>)
    ensures
        r is None <==> counts@.len() == 0,
        r matches Some(k) ==> k < counts@.len() && (forall|j: int| 0 <= j < counts@.len() ==> counts@[k as int] <= #[trigger] counts@[j])
            && (forall|j: int| 0 <= j < k ==> counts@[k as int] < #[trigger] counts@[j]),
{
    if counts.len() == 0 {
        return None;
    }
    let mut best: usize = 0;
    let mut j: usize = 1;
    while j < counts.len()
        invariant
            best < j <= counts@.len(),
            forall|q: int| 0 <= q < j ==> counts@[best as int] <= #[trigger] counts@[q],
            forall|q: int| 0 <= q < best ==> counts@[best as int] < #[trigger] counts@[q],
        decreases counts@.len() - j,
    {
        if counts[j] < counts[best] {
            best = j;
        }
        j = j + 1;
    }
    Some(best)
}

/// How many times `b` occurs in `s`.
pub open spec fn occurrences(s: Seq<u8>, b: u8) -> nat
    decreases s.len(),
{
    if s.len() == 0 {
        0
    } else {
        occurrences(s.drop_last(), b) + if s.last() == b {
            1nat
        } else {
            0nat
        }
    }
}

/// How many paths a candidate's HEAD differs from the target commit in, given what
/// `git diff-tree -r -z --name-only` printed: one NUL-terminated path each. `None`, for a
/// candidate without a HEAD or a diff that failed, counts as the most possible.
pub fn differing_paths(diff: Option<&[u8]>) -> (r: usize)
    ensures
        match diff {
            Some(output) => r == occurrences(output@, 0),
            None => r == usize::MAX,
        },
{
    match diff {
        None => usize::MAX,
        Some(output) => {
            let mut count: usize = 0;
            let mut i: usize = 0;
            while i < output.len()
                invariant
                    i <= output@.len(),
                    count == occurrences(output@.take(i as int), 0),
                    count <= i,
                decreases output@.len() - i,
            {
                assert(output@.take(i + 1).drop_last() =~= output@.take(i as int));
                if output[i] == 0 {
                    count = count + 1;
                }
                i = i + 1;
            }
            assert(output@.take(i as int) =~= output@);
            count
        },
    }
}

} // verus!
