//! Turns two tree listings and the source index into the set of paths to clone.
//!
//! Nothing enters the plan that has not passed every check.
use vstd::prelude::*;

use crate::bytes::{
    lemma_bytes_lt_asymmetric, lemma_prefix_sorts_first, views, bytes_lt, copy_bytes, copy_range, has_prefix, lemma_prefixed_between, lemma_prefixed_not_before,
    starts_with,
};
use crate::pathmap::{strictly_sorted, PathMap, PathSet};
use crate::tree::{
    is_attributes_file, is_attributes_path, directory_of, directory_part, first_keys, lemma_directory_part, Blob, Listing, ListingView, Oid,
};

verus! {

/// A file's modification time as the index records it.
#[derive(Clone, Copy, Debug, PartialEq, Eq)]
pub struct Time {
    /// Seconds since the Unix epoch.
    pub secs: u32,
    /// Nanoseconds within that second.
    pub nsecs: u32,
}

/// A path the plan intends to materialise by cloning.
#[derive(Debug, Clone, PartialEq, Eq)]
pub struct Planned {
    pub path: Vec<u8>,
    /// The mode from the tree. Never the mode the source file happens to carry.
    pub mode: u32,
    pub oid: Oid,
    /// The source file's modification time, as the source index records it.
    pub mtime: Time,
}

/// What a planned path says, as values.
pub struct PlannedView {
    pub path: Seq<u8>,
    pub mode: u32,
    pub oid: Seq<u8>,
    pub mtime: Time,
}

impl View for Planned {
    type V = PlannedView;

    open spec fn view(&self) -> PlannedView {
        PlannedView { path: self.path@, mode: self.mode, oid: self.oid@, mtime: self.mtime }
    }
}

impl Planned {
    /// A second copy of this planned path.
    pub fn duplicate(&self) -> (r: Planned)
        ensures
            r@ == self@,
    {
        Planned { path: copy_bytes(self.path.as_slice()), mode: self.mode, oid: self.oid.duplicate(), mtime: self.mtime }
    }
}

/// The views of a sequence of planned paths.
pub open spec fn planned_views(p: Seq<Planned>) -> Seq<PlannedView> {
    p.map_values(|x: Planned| x@)
}

/// What the stat checks concluded about one path.
#[derive(Clone, Copy, Debug, PartialEq, Eq)]
pub enum Verdict {
    /// The source file may stand in for a checkout.
    Clone,
    /// The stat data fell in the racily-clean window; git has to settle it.
    AskGit,
    /// The source file cannot stand in.
    Reject,
}

/// The outcome of checking one target blob against the source: the verdict and the
/// modification time the source index records.
#[derive(Clone, Copy, Debug, PartialEq, Eq)]
pub struct Judgement {
    pub verdict: Verdict,
    pub mtime: Time,
}

/// What the verification pass concluded about the target tree.
#[derive(Debug)]
pub struct Verified {
    /// Paths whose source file may stand in for a checkout.
    pub paths: Vec<Planned>,
    /// Paths whose stat data fell in the racily-clean window, for git to settle.
    pub racy: Vec<Planned>,
    /// How many blobs the target tree holds in total.
    pub considered: usize,
}

impl Default for Verified {
    /// Nothing considered, nothing verified.
    fn default() -> (r: Self)
        ensures
            r.paths@.len() == 0,
            r.racy@.len() == 0,
            r.considered == 0,
    {
        Verified { paths: Vec::new(), racy: Vec::new(), considered: 0 }
    }
}

/// The planned path for the `i`-th blob of a listing.
pub open spec fn planned_blob(target: &Listing, i: int, mtime: Time) -> PlannedView {
    PlannedView {
        path: target.blobs.keys()[i],
        mode: target.blobs.values()[i].0,
        oid: target.blobs.values()[i].1,
        mtime,
    }
}

/// The blobs, among the first `n`, judged with `verdict`, in tree order.
pub open spec fn judged_as(target: &Listing, judged: Seq<Option<Judgement>>, verdict: Verdict, n: int) -> Seq<
    PlannedView,
>
    decreases n,
{
    if n <= 0 {
        Seq::empty()
    } else {
        let before = judged_as(target, judged, verdict, n - 1);
        match judged[n - 1] {
            Some(j) => if j.verdict == verdict {
                before.push(planned_blob(target, n - 1, j.mtime))
            } else {
                before
            },
            None => before,
        }
    }
}

/// Whether the index answers a lookup of its path with this entry: an ordinary entry
/// (stage 0), or our side of a conflict (stage 2).
pub open spec fn answers_for_path(entry: IndexEntry) -> bool {
    entry.stage == 0 || entry.stage == 2
}

/// For each path, where the index entry that answers for it stands among the first `n`
/// entries: the first one at that path that `answers_for_path`.
pub open spec fn entry_positions(index: Seq<IndexEntry>, n: int) -> Map<Seq<u8>, usize>
    decreases n,
{
    if n <= 0 {
        Map::empty()
    } else {
        let before = entry_positions(index, n - 1);
        let entry = index[n - 1];
        if answers_for_path(entry) && !before.contains_key(entry.path@) {
            before.insert(entry.path@, (n - 1) as usize)
        } else {
            before
        }
    }
}

/// Every position found points at an entry, before `n`, at that path, that answers for it.
proof fn lemma_entry_positions(index: Seq<IndexEntry>, n: int)
    requires
        0 <= n <= index.len(),
        index.len() <= usize::MAX,
    ensures
        forall|p: Seq<u8>|
            #[trigger] entry_positions(index, n).contains_key(p) ==> {
                let k = entry_positions(index, n)[p] as int;
                &&& 0 <= k < n
                &&& index[k].path@ == p
                &&& answers_for_path(index[k])
            },
    decreases n,
{
    if n > 0 {
        lemma_entry_positions(index, n - 1);
    }
}

/// Whether `path` lies under one of the poisoned prefixes. A prefix is a directory as
/// `directory_of` gives it, with its slash, or empty for the whole tree; it poisons every
/// path that starts with it.
pub open spec fn poisoned_by(path: Seq<u8>, poisoned: Seq<Seq<u8>>) -> bool {
    exists|i: int| 0 <= i < poisoned.len() && starts_with(path, #[trigger] poisoned[i])
}

/// Whether `path` lies under one of the poisoned prefixes.
pub fn is_poisoned(path: &[u8], poisoned: &[Vec<u8>]) -> (r: bool)
    ensures
        r == poisoned_by(path@, views(poisoned@)),
{
    let mut i: usize = 0;
    while i < poisoned.len()
        invariant
            i <= poisoned@.len(),
            forall|j: int| 0 <= j < i ==> !starts_with(path@, #[trigger] views(poisoned@)[j]),
        decreases poisoned@.len() - i,
    {
        if has_prefix(path, poisoned[i].as_slice()) {
            assert(views(poisoned@)[i as int] == poisoned@[i as int]@);
            return true;
        }
        i = i + 1;
    }
    false
}

/// Whether an index entry may stand in for a target blob: it records the very object and
/// mode the tree names.
pub open spec fn stands_in_for(entry: IndexEntry, blob: (u32, Seq<u8>)) -> bool {
    entry.mode == blob.0 && entry.oid@ == blob.1
}

/// Whether the index entry records the object and mode the tree names for the blob.
pub fn entry_can_stand_in(blob: &Blob, entry: &IndexEntry) -> (r: bool)
    ensures
        r == stands_in_for(*entry, blob@),
{
    entry.mode == blob.mode && entry.oid.same(&blob.oid)
}

/// What the checks conclude about the `i`-th blob of the target: nothing for a poisoned
/// path, one the index lacks, or one whose entry cannot stand in for the blob; otherwise
/// the stat verdict of the entry that answers for the path, and the modification time it
/// records.
pub open spec fn judgement_for(target: &Listing, index: Seq<IndexEntry>, poisoned: Seq<Seq<u8>>, i: int) -> Option<
    Judgement,
> {
    let path = target.blobs.keys()[i];
    let positions = entry_positions(index, index.len() as int);
    if poisoned_by(path, poisoned) || !positions.contains_key(path) {
        None
    } else {
        let entry = index[positions[path] as int];
        if stands_in_for(entry, target.blobs.values()[i]) {
            Some(Judgement { verdict: entry.verdict, mtime: entry.mtime })
        } else {
            None
        }
    }
}

/// What the checks conclude about each blob of the target, in tree order.
pub open spec fn judgements(target: &Listing, index: Seq<IndexEntry>, poisoned: Seq<Seq<u8>>) -> Seq<
    Option<Judgement>,
> {
    Seq::new(target.blobs.keys().len(), |i: int| judgement_for(target, index, poisoned, i))
}

/// The paths of a sequence of planned paths, in order.
pub open spec fn path_order(planned: Seq<PlannedView>) -> Seq<Seq<u8>> {
    planned.map_values(|p: PlannedView| p.path)
}

/// A planned path that verification may return under `verdict`: a blob of the target with
/// the tree's mode and object id, not poisoned, and found in the index at its path, in an
/// entry that answers for the path, records that object and mode, carries the planned
/// modification time and got that verdict.
pub open spec fn drawn_from_index(
    target: ListingView,
    index: Seq<IndexEntry>,
    poisoned: Seq<Seq<u8>>,
    verdict: Verdict,
    planned: PlannedView,
) -> bool {
    &&& target.blobs.contains_key(planned.path)
    &&& target.blobs[planned.path] == (planned.mode, planned.oid)
    &&& !poisoned_by(planned.path, poisoned)
    &&& exists|k: int|
        #![trigger index[k]]
        0 <= k < index.len() && index[k].path@ == planned.path && answers_for_path(index[k]) && index[k].mode
            == planned.mode && index[k].oid@ == planned.oid && index[k].mtime == planned.mtime && index[k].verdict
            == verdict
}

/// Applies every check that does not depend on git re-reading a file's content. Each blob
/// of the target is looked up in the source index; a poisoned path, one the index lacks,
/// or one whose entry records another object or mode is passed over, and the rest are
/// sorted by the stat verdict of their entry, carrying the modification time it records.
pub fn verify_paths(target: &Listing, index: &[IndexEntry], poisoned: &[Vec<u8>]) -> (r: Verified)
    requires
        target.wf(),
    ensures
        r.considered == target.blobs.keys().len(),
        planned_views(r.paths@) == judged_as(
            target,
            judgements(target, index@, views(poisoned@)),
            Verdict::Clone,
            target.blobs.keys().len() as int,
        ),
        planned_views(r.racy@) == judged_as(
            target,
            judgements(target, index@, views(poisoned@)),
            Verdict::AskGit,
            target.blobs.keys().len() as int,
        ),
        forall|k: int|
            0 <= k < r.paths@.len() ==> drawn_from_index(
                target@,
                index@,
                views(poisoned@),
                Verdict::Clone,
                #[trigger] r.paths@[k]@,
            ),
        forall|k: int|
            0 <= k < r.racy@.len() ==> drawn_from_index(
                target@,
                index@,
                views(poisoned@),
                Verdict::AskGit,
                #[trigger] r.racy@[k]@,
            ),
        strictly_sorted(path_order(planned_views(r.paths@))),
        strictly_sorted(path_order(planned_views(r.racy@))),
        forall|a: int, b: int|
            0 <= a < r.paths@.len() && 0 <= b < r.racy@.len() ==> #[trigger] r.paths@[a].path@
                != #[trigger] r.racy@[b].path@,
{
    let mut positions: PathMap<usize> = PathMap::new();
    let mut e: usize = 0;
    while e < index.len()
        invariant
            e <= index@.len(),
            positions.wf(),
            positions.map() == entry_positions(index@, e as int),
        decreases index@.len() - e,
    {
        let entry = &index[e];
        if (entry.stage == 0 || entry.stage == 2) && !positions.contains_key(entry.path.as_slice()) {
            positions.insert(copy_bytes(entry.path.as_slice()), e);
        }
        e = e + 1;
    }
    proof {
        lemma_entry_positions(index@, index@.len() as int);
    }
    let ghost judged = judgements(target, index@, views(poisoned@));
    let mut verified = Verified { paths: Vec::new(), racy: Vec::new(), considered: target.blobs.len() };
    let mut i: usize = 0;
    assert(planned_views(verified.paths@) =~= Seq::<PlannedView>::empty());
    assert(planned_views(verified.racy@) =~= Seq::<PlannedView>::empty());
    while i < target.blobs.len()
        invariant
            target.wf(),
            i <= target.blobs.keys().len(),
            positions.wf(),
            positions.map() == entry_positions(index@, index@.len() as int),
            forall|p: Seq<u8>|
                #[trigger] entry_positions(index@, index@.len() as int).contains_key(p) ==> {
                    let k = entry_positions(index@, index@.len() as int)[p] as int;
                    &&& 0 <= k < index@.len()
                    &&& index@[k].path@ == p
                    &&& answers_for_path(index@[k])
                },
            judged == judgements(target, index@, views(poisoned@)),
            verified.considered == target.blobs.keys().len(),
            planned_views(verified.paths@) == judged_as(target, judged, Verdict::Clone, i as int),
            planned_views(verified.racy@) == judged_as(target, judged, Verdict::AskGit, i as int),
        decreases target.blobs.keys().len() - i,
    {
        let path = target.blobs.key_at(i);
        let blob = target.blobs.value_at(i);
        let mut outcome: Option<Judgement> = None;
        if !is_poisoned(path, poisoned) {
            if let Some(at) = positions.get(path) {
                let entry = &index[*at];
                if entry_can_stand_in(blob, entry) {
                    outcome = Some(Judgement { verdict: entry.verdict, mtime: entry.mtime });
                }
            }
        }
        assert(outcome == judged[i as int]);
        if let Some(judgement) = outcome {
            let planned = Planned {
                path: copy_bytes(path),
                mode: blob.mode,
                oid: blob.oid.duplicate(),
                mtime: judgement.mtime,
            };
            match judgement.verdict {
                Verdict::Clone => {
                    verified.paths.push(planned);
                    assert(planned_views(verified.paths@) =~= judged_as(target, judged, Verdict::Clone, i + 1));
                },
                Verdict::AskGit => {
                    verified.racy.push(planned);
                    assert(planned_views(verified.racy@) =~= judged_as(target, judged, Verdict::AskGit, i + 1));
                },
                Verdict::Reject => {},
            }
        }
        i = i + 1;
    }
    proof {
        law_verified_paths_come_from_the_index(target, index@, views(poisoned@), Verdict::Clone);
        law_verified_paths_come_from_the_index(target, index@, views(poisoned@), Verdict::AskGit);
        law_clone_and_racy_are_disjoint(target, judged);
        let n = target.blobs.keys().len() as int;
        assert forall|k: int| 0 <= k < verified.paths@.len() implies drawn_from_index(
            target@,
            index@,
            views(poisoned@),
            Verdict::Clone,
            #[trigger] verified.paths@[k]@,
        ) by {
            assert(planned_views(verified.paths@)[k] == verified.paths@[k]@);
        }
        assert forall|k: int| 0 <= k < verified.racy@.len() implies drawn_from_index(
            target@,
            index@,
            views(poisoned@),
            Verdict::AskGit,
            #[trigger] verified.racy@[k]@,
        ) by {
            assert(planned_views(verified.racy@)[k] == verified.racy@[k]@);
        }
        assert forall|a: int, b: int| 0 <= a < verified.paths@.len() && 0 <= b < verified.racy@.len() implies #[trigger] verified.paths@[a].path@
            != #[trigger] verified.racy@[b].path@ by {
            assert(planned_views(verified.paths@)[a] == verified.paths@[a]@);
            assert(planned_views(verified.racy@)[b] == verified.racy@[b]@);
            assert(judged.len() == n);
            assert(planned_views(verified.paths@)[a].path != planned_views(verified.racy@)[b].path);
        }
    }
    verified
}

/// Whether `planned` is the `i`-th blob of the target, judged with `verdict`, for some `i`
/// before `n`.
pub open spec fn judged_blob(
    target: &Listing,
    judged: Seq<Option<Judgement>>,
    verdict: Verdict,
    n: int,
    planned: PlannedView,
) -> bool {
    exists|i: int|
        #![trigger judged[i]]
        0 <= i < n && (judged[i] matches Some(j) && j.verdict == verdict && planned == planned_blob(target, i, j.mtime))
}

/// Verification only sorts the target's own blobs: every path it returns under a verdict
/// is a blob of the target tree, with the tree's mode and object id, judged with that
/// verdict; so no path is both cloned and left to git as racy.
pub proof fn law_verified_paths_are_target_blobs(
    target: &Listing,
    judged: Seq<Option<Judgement>>,
    verdict: Verdict,
    n: int,
)
    requires
        0 <= n <= judged.len(),
    ensures
        forall|k: int|
            0 <= k < judged_as(target, judged, verdict, n).len() ==> judged_blob(
                target,
                judged,
                verdict,
                n,
                #[trigger] judged_as(target, judged, verdict, n)[k],
            ),
    decreases n,
{
    if n > 0 {
        law_verified_paths_are_target_blobs(target, judged, verdict, n - 1);
        let before = judged_as(target, judged, verdict, n - 1);
        let now = judged_as(target, judged, verdict, n);
        assert forall|k: int| 0 <= k < now.len() implies judged_blob(target, judged, verdict, n, #[trigger] now[k]) by {
            if k < before.len() {
                assert(now[k] == before[k]);
                assert(judged_blob(target, judged, verdict, n - 1, before[k]));
                let i = choose|i: int|
                    #![trigger judged[i]]
                    0 <= i < n - 1 && (judged[i] matches Some(j) && j.verdict == verdict && before[k] == planned_blob(target, i, j.mtime));
                assert(judged[i] is Some);
            } else {
                assert(judged[n - 1] is Some);
            }
        }
    }
}

/// The paths verification returns under one verdict come in strictly ascending order.
proof fn lemma_judged_as_sorted(target: &Listing, judged: Seq<Option<Judgement>>, verdict: Verdict, n: int)
    requires
        target.wf(),
        0 <= n <= judged.len(),
        n <= target.blobs.keys().len(),
    ensures
        strictly_sorted(path_order(judged_as(target, judged, verdict, n))),
    decreases n,
{
    if n > 0 {
        lemma_judged_as_sorted(target, judged, verdict, n - 1);
        law_verified_paths_are_target_blobs(target, judged, verdict, n - 1);
        let before = judged_as(target, judged, verdict, n - 1);
        let keys = target.blobs.keys();
        assert forall|k: int| 0 <= k < before.len() implies bytes_lt(#[trigger] before[k].path, keys[n - 1]) by {
            assert(judged_blob(target, judged, verdict, n - 1, before[k]));
            let i = choose|i: int|
                #![trigger judged[i]]
                0 <= i < n - 1 && (judged[i] matches Some(j) && j.verdict == verdict && before[k] == planned_blob(
                    target,
                    i,
                    j.mtime,
                ));
            assert(judged[i] is Some);
        }
        match judged[n - 1] {
            Some(j) => if j.verdict == verdict {
                let now = before.push(planned_blob(target, n - 1, j.mtime));
                assert(path_order(now) =~= path_order(before).push(keys[n - 1]));
                assert forall|a: int, b: int| 0 <= a < b < path_order(now).len() implies bytes_lt(
                    #[trigger] path_order(now)[a],
                    #[trigger] path_order(now)[b],
                ) by {
                    if b == before.len() {
                        assert(path_order(now)[a] == before[a].path);
                    } else {
                        assert(path_order(now)[a] == path_order(before)[a]);
                        assert(path_order(now)[b] == path_order(before)[b]);
                    }
                }
            },
            None => {},
        }
    }
}

/// No path is both cloned and left to git as racy: each blob gets one verdict at most.
pub proof fn law_clone_and_racy_are_disjoint(target: &Listing, judged: Seq<Option<Judgement>>)
    requires
        target.wf(),
        judged.len() == target.blobs.keys().len(),
    ensures
        ({
            let n = judged.len() as int;
            let cloned = judged_as(target, judged, Verdict::Clone, n);
            let racy = judged_as(target, judged, Verdict::AskGit, n);
            forall|a: int, b: int|
                0 <= a < cloned.len() && 0 <= b < racy.len() ==> #[trigger] cloned[a].path != #[trigger] racy[b].path
        }),
{
    let n = judged.len() as int;
    let cloned = judged_as(target, judged, Verdict::Clone, n);
    let racy = judged_as(target, judged, Verdict::AskGit, n);
    law_verified_paths_are_target_blobs(target, judged, Verdict::Clone, n);
    law_verified_paths_are_target_blobs(target, judged, Verdict::AskGit, n);
    let keys = target.blobs.keys();
    assert forall|a: int, b: int| 0 <= a < cloned.len() && 0 <= b < racy.len() implies #[trigger] cloned[a].path
        != #[trigger] racy[b].path by {
        assert(judged_blob(target, judged, Verdict::Clone, n, cloned[a]));
        assert(judged_blob(target, judged, Verdict::AskGit, n, racy[b]));
        let i = choose|i: int|
            #![trigger judged[i]]
            0 <= i < n && (judged[i] matches Some(j) && j.verdict == Verdict::Clone && cloned[a] == planned_blob(
                target,
                i,
                j.mtime,
            ));
        let i2 = choose|i: int|
            #![trigger judged[i]]
            0 <= i < n && (judged[i] matches Some(j) && j.verdict == Verdict::AskGit && racy[b] == planned_blob(
                target,
                i,
                j.mtime,
            ));
        if i < i2 {
            assert(bytes_lt(keys[i], keys[i2]));
            crate::bytes::lemma_bytes_lt_irreflexive(keys[i]);
        } else if i2 < i {
            assert(bytes_lt(keys[i2], keys[i]));
            crate::bytes::lemma_bytes_lt_irreflexive(keys[i]);
        }
    }
}

/// Every path verification returns under a verdict is a blob of the target, with the
/// tree's mode and object id, that is not poisoned and that the source index holds at its
/// path, in an entry that records that object and mode, carries the modification time the
/// path is planned with and got that verdict; and the paths come in strictly ascending
/// order.
pub proof fn law_verified_paths_come_from_the_index(
    target: &Listing,
    index: Seq<IndexEntry>,
    poisoned: Seq<Seq<u8>>,
    verdict: Verdict,
)
    requires
        target.wf(),
        index.len() <= usize::MAX,
    ensures
        ({
            let planned = judged_as(
                target,
                judgements(target, index, poisoned),
                verdict,
                target.blobs.keys().len() as int,
            );
            &&& forall|k: int|
                0 <= k < planned.len() ==> drawn_from_index(target@, index, poisoned, verdict, #[trigger] planned[k])
            &&& strictly_sorted(path_order(planned))
        }),
{
    let judged = judgements(target, index, poisoned);
    let n = target.blobs.keys().len() as int;
    let planned = judged_as(target, judged, verdict, n);
    law_verified_paths_are_target_blobs(target, judged, verdict, n);
    lemma_judged_as_sorted(target, judged, verdict, n);
    lemma_entry_positions(index, index.len() as int);
    let positions = entry_positions(index, index.len() as int);
    assert forall|k: int| 0 <= k < planned.len() implies drawn_from_index(
        target@,
        index,
        poisoned,
        verdict,
        #[trigger] planned[k],
    ) by {
        assert(judged_blob(target, judged, verdict, n, planned[k]));
        let i = choose|i: int|
            #![trigger judged[i]]
            0 <= i < n && (judged[i] matches Some(j) && j.verdict == verdict && planned[k] == planned_blob(
                target,
                i,
                j.mtime,
            ));
        assert(judged[i] == judgement_for(target, index, poisoned, i));
        let path = target.blobs.keys()[i];
        assert(positions.contains_key(path));
        let at = positions[path] as int;
        target.blobs.lemma_map_at(i);
        assert(index[at].path@ == planned[k].path);
    }
}

/// Every path a listing names: blobs, trees and submodules.
pub open spec fn listed_paths(listing: ListingView) -> Set<Seq<u8>> {
    listing.blobs.dom() + listing.trees.dom() + listing.gitlinks
}

/// The directory a path sits in, without the trailing slash; empty at the root.
pub open spec fn parent_key(path: Seq<u8>) -> Seq<u8> {
    let d = directory_part(path);
    if d.len() > 0 {
        d.drop_last()
    } else {
        d
    }
}

/// The last component of a path.
pub open spec fn name_part(path: Seq<u8>) -> Seq<u8> {
    path.skip(directory_part(path).len() as int)
}

/// The immediate children of every directory that holds one of `paths`, keyed by the
/// directory path.
pub open spec fn children_of(paths: Set<Seq<u8>>) -> Map<Seq<u8>, Set<Seq<u8>>> {
    Map::new(
        |d: Seq<u8>| exists|p: Seq<u8>| paths.contains(p) && parent_key(p) == d,
        |d: Seq<u8>| Set::new(|n: Seq<u8>| exists|p: Seq<u8>| paths.contains(p) && parent_key(p) == d && name_part(p) == n),
    )
}

/// Records `path` as a child of its directory.
fn add_child(children: &mut PathMap<PathSet>, path: &[u8], Ghost(seen): Ghost<Set<Seq<u8>>>)
    requires
        old(children).wf(),
        forall|s: PathSet| #[trigger] old(children).stored().contains(s) ==> s.wf(),
        old(children).map() == children_of(seen),
    ensures
        final(children).wf(),
        forall|s: PathSet| #[trigger] final(children).stored().contains(s) ==> s.wf(),
        final(children).map() == children_of(seen.insert(path@)),
{
    let directory = directory_of(path);
    proof { lemma_directory_part(path@); }
    let name = copy_range(path, directory.len(), path.len());
    assert(name@ =~= name_part(path@));
    let key_len = if directory.len() > 0 { directory.len() - 1 } else { 0 };
    let key = copy_range(path, 0, key_len);
    assert(key@ =~= parent_key(path@));
    let ghost before = children.map();
    let ghost after = children_of(seen.insert(path@));
    match children.position(key.as_slice()) {
        Some(i) => {
            proof { old(children).lemma_lengths(); }
            let mut names = children.replace_value_at(i, PathSet::new());
            assert(old(children).stored().contains(old(children).stored()[i as int]));
            proof { old(children).lemma_map_at(i as int); }
            let ghost old_names = names@;
            names.insert(name);
            children.replace_value_at(i, names);
            proof {
                assert forall|s: PathSet| #[trigger] children.stored().contains(s) implies s.wf() by {
                    let j = choose|j: int| 0 <= j < children.stored().len() && children.stored()[j] == s;
                    if j != i {
                        assert(old(children).stored()[j] == s);
                        assert(old(children).stored().contains(s));
                    }
                }
                assert(old_names == before[key@]);
                assert(after[key@] =~= before[key@].insert(name@)) by {
                    assert forall|n: Seq<u8>| #[trigger] before[key@].insert(name@).contains(n) implies after[key@].contains(n) by {
                        if n != name@ {
                            let p = choose|p: Seq<u8>| seen.contains(p) && parent_key(p) == key@ && name_part(p) == n;
                            assert(seen.insert(path@).contains(p));
                        }
                    }
                }
                assert(seen.insert(path@).contains(path@) && parent_key(path@) == key@);
                assert(after.contains_key(key@));
                assert(children.map() == before.insert(key@, after[key@]));
                assert(before.insert(key@, after[key@]) =~= after) by {
                    assert forall|d: Seq<u8>| #[trigger] after.contains_key(d) implies before.insert(key@, before[key@].insert(name@)).contains_key(d) by {
                        if d != key@ {
                            let p = choose|p: Seq<u8>| seen.insert(path@).contains(p) && parent_key(p) == d;
                            assert(seen.contains(p));
                        }
                    }
                    assert forall|d: Seq<u8>| #[trigger] before.contains_key(d) implies after.contains_key(d) by {
                        let p = choose|p: Seq<u8>| seen.contains(p) && parent_key(p) == d;
                        assert(seen.insert(path@).contains(p));
                    }
                    assert forall|d: Seq<u8>| after.contains_key(d) && d != key@ implies #[trigger] after[d] =~= before[d] by {
                        assert forall|n: Seq<u8>| #[trigger] after[d].contains(n) implies before[d].contains(n) by {
                            let p = choose|p: Seq<u8>| seen.insert(path@).contains(p) && parent_key(p) == d && name_part(p) == n;
                            assert(seen.contains(p));
                        }
                        assert forall|n: Seq<u8>| #[trigger] before[d].contains(n) implies after[d].contains(n) by {
                            let p = choose|p: Seq<u8>| seen.contains(p) && parent_key(p) == d && name_part(p) == n;
                            assert(seen.insert(path@).contains(p));
                        }
                    }
                }
            }
        },
        None => {
            let mut names = PathSet::new();
            names.insert(name);
            children.insert(key, names);
            proof {
                assert forall|s: PathSet| #[trigger] children.stored().contains(s) implies s.wf() by {
                    if !old(children).stored().contains(s) {
                        assert(s == names);
                    }
                }
                assert(after[key@] =~= Set::<Seq<u8>>::empty().insert(name@)) by {
                    assert forall|n: Seq<u8>| #[trigger] after[key@].contains(n) implies n == name@ by {
                        let p = choose|p: Seq<u8>| seen.insert(path@).contains(p) && parent_key(p) == key@ && name_part(p) == n;
                        if p != path@ {
                            assert(seen.contains(p));
                            assert(before.contains_key(key@));
                        }
                    }
                }
                assert(seen.insert(path@).contains(path@) && parent_key(path@) == key@);
                assert(after.contains_key(key@));
                assert(children.map() == before.insert(key@, after[key@]));
                assert(before.insert(key@, after[key@]) =~= after) by {
                    assert forall|d: Seq<u8>| #[trigger] after.contains_key(d) implies before.insert(key@, Set::<Seq<u8>>::empty().insert(name@)).contains_key(d) by {
                        if d != key@ {
                            let p = choose|p: Seq<u8>| seen.insert(path@).contains(p) && parent_key(p) == d;
                            assert(seen.contains(p));
                        }
                    }
                    assert forall|d: Seq<u8>| #[trigger] before.contains_key(d) implies after.contains_key(d) by {
                        let p = choose|p: Seq<u8>| seen.contains(p) && parent_key(p) == d;
                        assert(seen.insert(path@).contains(p));
                    }
                    assert forall|d: Seq<u8>| after.contains_key(d) && d != key@ implies #[trigger] after[d] =~= before[d] by {
                        assert forall|n: Seq<u8>| #[trigger] after[d].contains(n) implies before[d].contains(n) by {
                            let p = choose|p: Seq<u8>| seen.insert(path@).contains(p) && parent_key(p) == d && name_part(p) == n;
                            assert(seen.contains(p));
                        }
                        assert forall|n: Seq<u8>| #[trigger] before[d].contains(n) implies after[d].contains(n) by {
                            let p = choose|p: Seq<u8>| seen.contains(p) && parent_key(p) == d && name_part(p) == n;
                            assert(seen.insert(path@).contains(p));
                        }
                    }
                }
            }
        },
    }
}

proof fn lemma_first_keys_all<W>(m: &PathMap<W>)
    where W: View,
    requires
        m.wf(),
    ensures
        first_keys(m.keys(), m.keys().len() as int) == m.map().dom(),
{
    assert forall|p: Seq<u8>| #[trigger] first_keys(m.keys(), m.keys().len() as int).contains(p) <==> m.map().dom().contains(p) by {
        m.lemma_domain(p);
    }
    assert(first_keys(m.keys(), m.keys().len() as int) =~= m.map().dom());
}

proof fn lemma_first_keys_step(keys: Seq<Seq<u8>>, i: int)
    requires
        0 <= i < keys.len(),
    ensures
        first_keys(keys, i + 1) == first_keys(keys, i).insert(keys[i]),
{
    assert forall|p: Seq<u8>| #[trigger] first_keys(keys, i + 1).contains(p) <==> first_keys(keys, i).insert(keys[i]).contains(p) by {
        if first_keys(keys, i + 1).contains(p) && p != keys[i] {
            let j = choose|j: int| 0 <= j < i + 1 && keys[j] == p;
            assert(first_keys(keys, i).contains(p));
        }
        if first_keys(keys, i).contains(p) {
            let j = choose|j: int| 0 <= j < i && keys[j] == p;
        }
    }
    assert(first_keys(keys, i + 1) =~= first_keys(keys, i).insert(keys[i]));
}

/// The immediate children of every directory in the tree, keyed by the directory path.
pub fn children_by_directory(listing: &Listing) -> (r: PathMap<PathSet>)
    requires
        listing.wf(),
    ensures
        r.wf(),
        forall|s: PathSet| #[trigger] r.stored().contains(s) ==> s.wf(),
        r.map() == children_of(listed_paths(listing@)),
{
    let mut children: PathMap<PathSet> = PathMap::new();
    assert(children.map() =~= children_of(Set::<Seq<u8>>::empty()));
    let ghost mut seen = Set::<Seq<u8>>::empty();
    let mut i: usize = 0;
    while i < listing.blobs.len()
        invariant
            listing.wf(),
            i <= listing.blobs.keys().len(),
            children.wf(),
            forall|s: PathSet| #[trigger] children.stored().contains(s) ==> s.wf(),
            seen == first_keys(listing.blobs.keys(), i as int),
            children.map() == children_of(seen),
        decreases listing.blobs.keys().len() - i,
    {
        add_child(&mut children, listing.blobs.key_at(i), Ghost(seen));
        proof {
            lemma_first_keys_step(listing.blobs.keys(), i as int);
            seen = seen.insert(listing.blobs.keys()[i as int]);
        }
        i = i + 1;
    }
    let ghost blobs_seen = seen;
    proof { lemma_first_keys_all(&listing.blobs); }
    let mut i: usize = 0;
    while i < listing.trees.len()
        invariant
            listing.wf(),
            i <= listing.trees.keys().len(),
            children.wf(),
            forall|s: PathSet| #[trigger] children.stored().contains(s) ==> s.wf(),
            seen == blobs_seen + first_keys(listing.trees.keys(), i as int),
            children.map() == children_of(seen),
        decreases listing.trees.keys().len() - i,
    {
        add_child(&mut children, listing.trees.key_at(i), Ghost(seen));
        proof {
            lemma_first_keys_step(listing.trees.keys(), i as int);
            assert(blobs_seen + first_keys(listing.trees.keys(), i + 1) =~= seen.insert(listing.trees.keys()[i as int]));
            seen = seen.insert(listing.trees.keys()[i as int]);
        }
        i = i + 1;
    }
    proof {
        lemma_first_keys_all(&listing.trees);
    }
    let ghost trees_seen = seen;
    let mut i: usize = 0;
    while i < listing.gitlinks.len()
        invariant
            listing.wf(),
            i <= listing.gitlinks.keys().len(),
            children.wf(),
            forall|s: PathSet| #[trigger] children.stored().contains(s) ==> s.wf(),
            seen == trees_seen + first_keys(listing.gitlinks.keys(), i as int),
            children.map() == children_of(seen),
        decreases listing.gitlinks.keys().len() - i,
    {
        add_child(&mut children, listing.gitlinks.key_at(i), Ghost(seen));
        proof {
            lemma_first_keys_step(listing.gitlinks.keys(), i as int);
            assert(trees_seen + first_keys(listing.gitlinks.keys(), i + 1) =~= seen.insert(listing.gitlinks.keys()[i as int]));
            seen = seen.insert(listing.gitlinks.keys()[i as int]);
        }
        i = i + 1;
    }
    proof {
        listing.gitlinks.lemma_set();
        assert forall|p: Seq<u8>| #[trigger] first_keys(listing.gitlinks.keys(), listing.gitlinks.keys().len() as int).contains(p) <==> listing.gitlinks.set().contains(p) by {
            if listing.gitlinks.keys().contains(p) {
                let j = choose|j: int| 0 <= j < listing.gitlinks.keys().len() && listing.gitlinks.keys()[j] == p;
            }
        }
        assert(seen =~= listed_paths(listing@));
    }
    children
}

/// The paths under `directory`: those that start with it and a slash.
pub open spec fn under(path: Seq<u8>, directory: Seq<u8>) -> bool {
    starts_with(path, directory.push(0x2f))
}

/// Every blob under `directory` is verified, there is at least one, and no submodule sits
/// inside it.
pub open spec fn subtree_verified(target: ListingView, directory: Seq<u8>, verified: Set<Seq<u8>>) -> bool {
    &&& forall|p: Seq<u8>| target.blobs.contains_key(p) && under(p, directory) ==> verified.contains(p)
    &&& exists|p: Seq<u8>| target.blobs.contains_key(p) && under(p, directory)
    &&& !exists|g: Seq<u8>| target.gitlinks.contains(g) && under(g, directory)
}

/// Every blob under `directory` is verified, there is at least one, and no submodule sits
/// inside it.
pub fn subtree_is_fully_verified(target: &Listing, directory: &[u8], verified: &PathSet) -> (r: bool)
    requires
        target.wf(),
        verified.wf(),
    ensures
        r == subtree_verified(target@, directory@, verified@),
{
    let mut prefix = copy_bytes(directory);
    prefix.push(0x2f);
    let ghost p = prefix@;
    assert(p == directory@.push(0x2f));
    let (found, start) = target.blobs.locate(prefix.as_slice());
    proof {
        crate::bytes::lemma_bytes_lt_irreflexive(p);
        assert forall|j: int| 0 <= j < start implies !under(#[trigger] target.blobs.keys()[j], directory@) by {
            if under(target.blobs.keys()[j], directory@) {
                lemma_prefixed_not_before(target.blobs.keys()[j], p);
            }
        }
        assert forall|q: int| start <= q < target.blobs.keys().len() implies !bytes_lt(#[trigger] target.blobs.keys()[q], p) by {
            if found && q == start {
            } else {
                crate::bytes::lemma_bytes_lt_asymmetric(p, target.blobs.keys()[q]);
            }
        }
    }
    let mut blobs: usize = 0;
    let mut j = start;
    while j < target.blobs.len() && has_prefix(target.blobs.key_at(j), prefix.as_slice())
        invariant
            target.wf(),
            verified.wf(),
            prefix@ == p,
            p == directory@.push(0x2f),
            forall|q: int| 0 <= q < start ==> !under(#[trigger] target.blobs.keys()[q], directory@),
            start <= j <= target.blobs.keys().len(),
            blobs == j - start,
            forall|q: int| start <= q < target.blobs.keys().len() ==> !bytes_lt(#[trigger] target.blobs.keys()[q], p),
            forall|q: int| start <= q < j ==> under(#[trigger] target.blobs.keys()[q], directory@) && verified@.contains(
                target.blobs.keys()[q],
            ),
        decreases target.blobs.keys().len() - j,
    {
        if !verified.contains(target.blobs.key_at(j)) {
            proof {
                target.blobs.lemma_map_at(j as int);
                assert(under(target.blobs.keys()[j as int], directory@));
                assert(!verified@.contains(target.blobs.keys()[j as int]));
            }
            return false;
        }
        blobs = blobs + 1;
        j = j + 1;
    }
    proof {
        // Every blob under the directory lies in `start..j`.
        assert forall|q: int| j <= q < target.blobs.keys().len() implies !under(#[trigger] target.blobs.keys()[q], directory@) by {
            if under(target.blobs.keys()[q], directory@) && q > j {
                assert(bytes_lt(target.blobs.keys()[j as int], target.blobs.keys()[q]));
                lemma_prefixed_between(target.blobs.keys()[j as int], target.blobs.keys()[q], p);
            }
        }
        assert forall|q: Seq<u8>| target@.blobs.contains_key(q) && under(q, directory@) implies verified@.contains(q) by {
            target.blobs.lemma_domain(q);
            let k = choose|k: int| 0 <= k < target.blobs.keys().len() && target.blobs.keys()[k] == q;
        }
    }
    if blobs == 0 {
        proof {
            if exists|q: Seq<u8>| target@.blobs.contains_key(q) && under(q, directory@) {
                let q = choose|q: Seq<u8>| target@.blobs.contains_key(q) && under(q, directory@);
                target.blobs.lemma_domain(q);
                let k = choose|k: int| 0 <= k < target.blobs.keys().len() && target.blobs.keys()[k] == q;
                assert(under(target.blobs.keys()[k], directory@));
            }
        }
        return false;
    }
    proof {
        target.blobs.lemma_map_at(start as int);
        assert(target@.blobs.contains_key(target.blobs.keys()[start as int]));
    }
    let first_link = target.gitlinks.lower_bound(prefix.as_slice());
    if first_link < target.gitlinks.len() && has_prefix(target.gitlinks.key_at(first_link), prefix.as_slice()) {
        proof {
            target.gitlinks.lemma_set();
            let g = target.gitlinks.keys()[first_link as int];
            assert(target.gitlinks.keys().contains(g));
            assert(target@.gitlinks.contains(g));
            assert(p == directory@.push(0x2f));
            assert(under(g, directory@));
        }
        return false;
    }
    proof {
        target.gitlinks.lemma_set();
        if exists|g: Seq<u8>| target@.gitlinks.contains(g) && under(g, directory@) {
            let g = choose|g: Seq<u8>| target@.gitlinks.contains(g) && under(g, directory@);
            let k = choose|k: int| 0 <= k < target.gitlinks.keys().len() && target.gitlinks.keys()[k] == g;
            if k < first_link {
                lemma_prefixed_not_before(g, p);
            } else if k > first_link {
                assert(bytes_lt(target.gitlinks.keys()[first_link as int], g));
                lemma_prefixed_between(target.gitlinks.keys()[first_link as int], g, p);
            }
        }
    }
    true
}

/// A subtree counts as fully verified only if every blob beneath it is verified, at any
/// depth: each blob of the target whose path starts with the directory and a slash.
pub proof fn law_every_blob_beneath_a_verified_subtree_is_verified(
    target: ListingView,
    directory: Seq<u8>,
    verified: Set<Seq<u8>>,
    path: Seq<u8>,
)
    requires
        subtree_verified(target, directory, verified),
        target.blobs.contains_key(path),
        starts_with(path, directory.push(0x2f)),
    ensures
        verified.contains(path),
{
}

/// The length of the longest path in `paths`.
pub open spec fn longest(paths: Seq<Seq<u8>>) -> nat
    decreases paths.len(),
{
    if paths.len() == 0 {
        0
    } else {
        let before = longest(paths.drop_last());
        if paths.last().len() > before {
            paths.last().len()
        } else {
            before
        }
    }
}

proof fn lemma_longest(paths: Seq<Seq<u8>>, i: int)
    requires
        0 <= i < paths.len(),
    ensures
        paths[i].len() <= longest(paths),
    decreases paths.len(),
{
    if i < paths.len() - 1 {
        lemma_longest(paths.drop_last(), i);
    }
}

/// Whether the source directory at `directory` holds exactly the tracked entries, at every
/// depth: `children` maps each tracked directory to the names it should hold, `listed`
/// each readable source directory to the names it does hold. Subdirectories are followed
/// as long as they are no longer than `bound`.
pub open spec fn holds_only(
    children: Map<Seq<u8>, Set<Seq<u8>>>,
    listed: Map<Seq<u8>, Set<Seq<u8>>>,
    directory: Seq<u8>,
    bound: nat,
) -> bool
    decreases bound - directory.len(),
{
    &&& children.contains_key(directory)
    &&& listed.contains_key(directory)
    &&& listed[directory] == children[directory]
    &&& forall|name: Seq<u8>| #[trigger] children[directory].contains(name) ==> {
        let child = directory.push(0x2f) + name;
        (children.contains_key(child) && child.len() <= bound) ==> holds_only(children, listed, child, bound)
    }
}

fn holds_only_within(children: &PathMap<PathSet>, listed: &PathMap<PathSet>, directory: &[u8], bound: usize) -> (r: bool)
    requires
        children.wf(),
        listed.wf(),
        forall|s: PathSet| #[trigger] children.stored().contains(s) ==> s.wf(),
        forall|s: PathSet| #[trigger] listed.stored().contains(s) ==> s.wf(),
        directory@.len() <= bound,
    ensures
        r == holds_only(children.map(), listed.map(), directory@, bound as nat),
    decreases bound - directory@.len(),
{
    let expected = match children.get(directory) {
        Some(expected) => expected,
        None => return false,
    };
    let seen = match listed.get(directory) {
        Some(seen) => seen,
        None => return false,
    };
    if !seen.same_as(expected) {
        return false;
    }
    let ghost m = children.map();
    let mut i: usize = 0;
    while i < expected.len()
        invariant
            children.wf(),
            listed.wf(),
            forall|s: PathSet| #[trigger] children.stored().contains(s) ==> s.wf(),
            forall|s: PathSet| #[trigger] listed.stored().contains(s) ==> s.wf(),
            expected.wf(),
            directory@.len() <= bound,
            m == children.map(),
            m.contains_key(directory@),
            m[directory@] == expected@,
            i <= expected.keys().len(),
            forall|k: int| 0 <= k < i ==> {
                let child = directory@.push(0x2f) + #[trigger] expected.keys()[k];
                (m.contains_key(child) && child.len() <= bound) ==> holds_only(m, listed.map(), child, bound as nat)
            },
        decreases expected.keys().len() - i,
    {
        let name = expected.key_at(i);
        let mut child = copy_bytes(directory);
        let mut k: usize = 0;
        child.push(0x2f);
        let ghost stem = child@;
        while k < name.len()
            invariant
                k <= name@.len(),
                child@ == stem + name@.take(k as int),
            decreases name@.len() - k,
        {
            child.push(name[k]);
            assert(child@ =~= stem + name@.take(k + 1));
            k = k + 1;
        }
        assert(name@.take(k as int) =~= name@);
        assert(child@ =~= directory@.push(0x2f) + name@);
        if child.len() <= bound && children.contains_key(child.as_slice()) {
            if !holds_only_within(children, listed, child.as_slice(), bound) {
                proof {
                    expected.lemma_set();
                    assert(expected.keys().contains(name@));
                    assert(m[directory@].contains(name@));
                }
                return false;
            }
        }
        i = i + 1;
    }
    proof {
        expected.lemma_set();
        assert forall|name: Seq<u8>| #[trigger] m[directory@].contains(name) implies ({
            let child = directory@.push(0x2f) + name;
            (m.contains_key(child) && child.len() <= bound) ==> holds_only(m, listed.map(), child, bound as nat)
        }) by {
            let k = choose|k: int| 0 <= k < expected.keys().len() && expected.keys()[k] == name;
        }
    }
    true
}

/// Whether the source directory at `directory` holds exactly the tracked entries, at every
/// depth. `children` maps each tracked directory to the names it should hold (as
/// `children_by_directory` builds it); `listed` maps each source directory that could be
/// read in full to the names it holds, so a directory it lacks is one that could not be
/// read. Untracked or ignored files anywhere below make the answer `false`.
pub fn source_holds_only(listed: &PathMap<PathSet>, directory: &[u8], children: &PathMap<PathSet>) -> (r: bool)
    requires
        children.wf(),
        listed.wf(),
        forall|s: PathSet| #[trigger] children.stored().contains(s) ==> s.wf(),
        forall|s: PathSet| #[trigger] listed.stored().contains(s) ==> s.wf(),
    ensures
        r == holds_only(children.map(), listed.map(), directory@, longest(children.keys())),
{
    let bound = longest_key(children);
    if directory.len() > bound {
        proof {
            if children.map().contains_key(directory@) {
                children.lemma_domain(directory@);
                let k = choose|k: int| 0 <= k < children.keys().len() && children.keys()[k] == directory@;
                lemma_longest(children.keys(), k);
            }
        }
        return false;
    }
    holds_only_within(children, listed, directory, bound)
}

/// The length of the longest path a map holds.
fn longest_key<W: View>(m: &PathMap<W>) -> (r: usize)
    ensures
        r == longest(m.keys()),
{
    let mut r: usize = 0;
    let mut i: usize = 0;
    while i < m.len()
        invariant
            i <= m.keys().len(),
            r == longest(m.keys().take(i as int)),
        decreases m.keys().len() - i,
    {
        assert(m.keys().take(i + 1).drop_last() =~= m.keys().take(i as int));
        let key = m.key_at(i);
        if key.len() > r {
            r = key.len();
        }
        i = i + 1;
    }
    assert(m.keys().take(i as int) =~= m.keys());
    r
}

/// The length of the longest path a set holds.
fn longest_member(m: &PathSet) -> (r: usize)
    ensures
        r == longest(m.keys()),
{
    let mut r: usize = 0;
    let mut i: usize = 0;
    while i < m.len()
        invariant
            i <= m.keys().len(),
            r == longest(m.keys().take(i as int)),
        decreases m.keys().len() - i,
    {
        assert(m.keys().take(i + 1).drop_last() =~= m.keys().take(i as int));
        let key = m.key_at(i);
        if key.len() > r {
            r = key.len();
        }
        i = i + 1;
    }
    assert(m.keys().take(i as int) =~= m.keys());
    r
}

/// The length of the longest path a listing names.
pub open spec fn listing_bound(target: &Listing) -> nat {
    let b = longest(target.blobs.keys());
    let t = longest(target.trees.keys());
    let g = longest(target.gitlinks.keys());
    let bt = if b > t {
        b
    } else {
        t
    };
    if bt > g {
        bt
    } else {
        g
    }
}

/// The paths a sequence of planned paths names.
pub open spec fn planned_paths(planned: Seq<PlannedView>) -> Set<Seq<u8>> {
    Set::new(|p: Seq<u8>| exists|i: int| 0 <= i < planned.len() && planned[i].path == p)
}

/// Whether `path` lies under one of `directories`.
pub open spec fn covered_by(path: Seq<u8>, directories: Seq<Seq<u8>>) -> bool {
    exists|k: int| 0 <= k < directories.len() && under(path, #[trigger] directories[k])
}

/// Whether the subtree at `path`, whose target tree oid is `oid`, can be cloned in one
/// call, given the directories chosen before it: it lies under none of them, the source
/// records the same tree oid for it, every blob under it is verified and there is one, no
/// submodule sits inside it, nothing exists at its destination, and the source directory
/// holds exactly the tracked entries and nothing else.
pub open spec fn clonable_directory(
    target: &Listing,
    source: ListingView,
    verified: Set<Seq<u8>>,
    occupied: Set<Seq<u8>>,
    listed: Map<Seq<u8>, Set<Seq<u8>>>,
    before: Seq<Seq<u8>>,
    path: Seq<u8>,
    oid: Seq<u8>,
) -> bool {
    &&& !covered_by(path, before)
    &&& source.trees.contains_key(path)
    &&& source.trees[path] == oid
    &&& subtree_verified(target@, path, verified)
    &&& !occupied.contains(path)
    &&& holds_only(children_of(listed_paths(target@)), listed, path, listing_bound(target))
}

/// The subtrees chosen among the first `n` trees of the target, in tree order.
pub open spec fn chosen_directories(
    target: &Listing,
    source: ListingView,
    verified: Set<Seq<u8>>,
    occupied: Set<Seq<u8>>,
    listed: Map<Seq<u8>, Set<Seq<u8>>>,
    n: int,
) -> Seq<Seq<u8>>
    decreases n,
{
    if n <= 0 {
        Seq::empty()
    } else {
        let before = chosen_directories(target, source, verified, occupied, listed, n - 1);
        let path = target.trees.keys()[n - 1];
        if clonable_directory(target, source, verified, occupied, listed, before, path, target.trees.values()[n - 1]) {
            before.push(path)
        } else {
            before
        }
    }
}

/// The planned paths, among the first `n`, that lie under none of `directories`.
pub open spec fn outside_directories(planned: Seq<PlannedView>, directories: Seq<Seq<u8>>, n: int) -> Seq<PlannedView>
    decreases n,
{
    if n <= 0 {
        Seq::empty()
    } else {
        let before = outside_directories(planned, directories, n - 1);
        if covered_by(planned[n - 1].path, directories) {
            before
        } else {
            before.push(planned[n - 1])
        }
    }
}

/// The work to do, once the racy paths have been settled and directories chosen.
#[derive(Debug)]
pub struct Plan {
    /// Subtrees to clone in a single call, topmost only, in tree order.
    pub directories: Vec<Vec<u8>>,
    /// Paths to clone one at a time, because no chosen directory covers them.
    pub files: Vec<Planned>,
    /// Every path the plan materialises, including those inside a cloned directory.
    pub materialised: Vec<Planned>,
}

impl Default for Plan {
    /// Nothing to clone.
    fn default() -> (r: Self)
        ensures
            r.directories@.len() == 0,
            r.files@.len() == 0,
            r.materialised@.len() == 0,
    {
        Plan { directories: Vec::new(), files: Vec::new(), materialised: Vec::new() }
    }
}

/// Whether `path` lies under one of the `prefixes` (each a directory and a slash).
fn is_covered(path: &[u8], prefixes: &Vec<Vec<u8>>, Ghost(directories): Ghost<Seq<Seq<u8>>>) -> (r: bool)
    requires
        prefixes@.len() == directories.len(),
        forall|k: int| 0 <= k < prefixes@.len() ==> #[trigger] prefixes@[k]@ == directories[k].push(0x2f),
    ensures
        r == covered_by(path@, directories),
{
    let mut k: usize = 0;
    while k < prefixes.len()
        invariant
            k <= prefixes@.len(),
            prefixes@.len() == directories.len(),
            forall|q: int| 0 <= q < prefixes@.len() ==> #[trigger] prefixes@[q]@ == directories[q].push(0x2f),
            forall|q: int| 0 <= q < k ==> !under(path@, #[trigger] directories[q]),
        decreases prefixes@.len() - k,
    {
        if has_prefix(path, prefixes[k].as_slice()) {
            assert(under(path@, directories[k as int]));
            return true;
        }
        k = k + 1;
    }
    false
}

/// Chooses the subtrees worth cloning in one call and splits the rest into single files.
///
/// A subtree qualifies only when both sides record the same tree oid, every blob under it
/// is verified, and the source directory holds exactly the tracked entries and nothing
/// else. That last condition is what keeps untracked and ignored files out of the new
/// worktree: a directory clone copies whatever is on disk, so anything on disk that the
/// tree does not name disqualifies the whole subtree. `occupied` holds the tree paths
/// that already exist at the destination; `listed` maps each readable source directory to
/// the names it holds.
pub fn assemble(
    target: &Listing,
    source: &Listing,
    verified: Vec<Planned>,
    clone_directories: bool,
    occupied: &PathSet,
    listed: &PathMap<PathSet>,
) -> (r: Plan)
    requires
        target.wf(),
        source.wf(),
        occupied.wf(),
        listed.wf(),
        forall|s: PathSet| #[trigger] listed.stored().contains(s) ==> s.wf(),
    ensures
        ({
            let chosen = if clone_directories {
                chosen_directories(
                    target,
                    source@,
                    planned_paths(planned_views(verified@)),
                    occupied@,
                    listed.map(),
                    target.trees.keys().len() as int,
                )
            } else {
                Seq::empty()
            };
            &&& planned_views(r.materialised@) == planned_views(verified@)
            &&& views(r.directories@) == chosen
            &&& planned_views(r.files@) == outside_directories(planned_views(verified@), chosen, verified@.len() as int)
        }),
{
    let ghost planned = planned_views(verified@);
    let ghost verified_set = planned_paths(planned);
    let ghost chosen: Seq<Seq<u8>> = Seq::empty();
    let mut directories: Vec<Vec<u8>> = Vec::new();
    let mut covered: Vec<Vec<u8>> = Vec::new();
    if clone_directories {
        // The verified paths, as a set.
        let mut verified_paths = PathSet::new();
        let mut i: usize = 0;
        while i < verified.len()
            invariant
                i <= verified@.len(),
                planned == planned_views(verified@),
                verified_paths.wf(),
                verified_paths@ == planned_paths(planned.take(i as int)),
            decreases verified@.len() - i,
        {
            verified_paths.insert(copy_bytes(verified[i].path.as_slice()));
            proof {
                assert(planned[i as int].path == verified@[i as int].path@);
                assert(planned.take(i + 1) =~= planned.take(i as int).push(planned[i as int]));
                let next = planned.take(i + 1);
                let prev = planned.take(i as int);
                assert(verified_paths@ =~= planned_paths(next)) by {
                    assert forall|p: Seq<u8>| #[trigger] planned_paths(next).contains(p) implies verified_paths@.contains(p) by {
                        let j = choose|j: int| 0 <= j < next.len() && next[j].path == p;
                        if j < i {
                            assert(prev[j].path == p);
                        }
                    }
                    assert forall|p: Seq<u8>| #[trigger] verified_paths@.contains(p) implies planned_paths(next).contains(p) by {
                        if p != planned[i as int].path {
                            let j = choose|j: int| 0 <= j < prev.len() && prev[j].path == p;
                            assert(next[j].path == p);
                        } else {
                            assert(next[i as int].path == p);
                        }
                    }
                }
            }
            i = i + 1;
        }
        assert(planned.take(verified@.len() as int) =~= planned);
        let children = children_by_directory(target);
        let b = longest_key(&target.blobs);
        let t = longest_key(&target.trees);
        let g = longest_member(&target.gitlinks);
        let bt = if b > t { b } else { t };
        let bound = if bt > g { bt } else { g };
        let mut n: usize = 0;
        while n < target.trees.len()
            invariant
                target.wf(),
                source.wf(),
                occupied.wf(),
                listed.wf(),
                forall|s: PathSet| #[trigger] listed.stored().contains(s) ==> s.wf(),
                children.wf(),
                forall|s: PathSet| #[trigger] children.stored().contains(s) ==> s.wf(),
                children.map() == children_of(listed_paths(target@)),
                verified_paths.wf(),
                verified_paths@ == verified_set,
                bound == listing_bound(target),
                n <= target.trees.keys().len(),
                chosen == chosen_directories(target, source@, verified_set, occupied@, listed.map(), n as int),
                views(directories@) == chosen,
                covered@.len() == chosen.len(),
                forall|k: int| 0 <= k < covered@.len() ==> #[trigger] covered@[k]@ == chosen[k].push(0x2f),
            decreases target.trees.keys().len() - n,
        {
            let path = target.trees.key_at(n);
            let oid = target.trees.value_at(n);
            proof {
                lemma_longest(target.trees.keys(), n as int);
            }
            let same_oid = match source.trees.get(path) {
                Some(source_oid) => source_oid.same(oid),
                None => false,
            };
            let take = !is_covered(path, &covered, Ghost(chosen)) && same_oid
                && subtree_is_fully_verified(target, path, &verified_paths) && !occupied.contains(path)
                && holds_only_within(&children, listed, path, bound);
            if take {
                let mut prefix = copy_bytes(path);
                prefix.push(0x2f);
                covered.push(prefix);
                directories.push(copy_bytes(path));
                proof {
                    chosen = chosen.push(path@);
                }
                assert(views(directories@) =~= chosen);
            }
            n = n + 1;
        }
    }
    assert(views(directories@) == (if clone_directories {
        chosen_directories(target, source@, verified_set, occupied@, listed.map(), target.trees.keys().len() as int)
    } else {
        Seq::<Seq<u8>>::empty()
    }));
    let mut files: Vec<Planned> = Vec::new();
    let mut i: usize = 0;
    while i < verified.len()
        invariant
            i <= verified@.len(),
            planned == planned_views(verified@),
            views(directories@) == chosen,
            covered@.len() == chosen.len(),
            forall|k: int| 0 <= k < covered@.len() ==> #[trigger] covered@[k]@ == chosen[k].push(0x2f),
            planned_views(files@) == outside_directories(planned, chosen, i as int),
        decreases verified@.len() - i,
    {
        assert(planned[i as int] == verified@[i as int]@);
        if !is_covered(verified[i].path.as_slice(), &covered, Ghost(chosen)) {
            files.push(verified[i].duplicate());
            assert(planned_views(files@) =~= outside_directories(planned, chosen, i + 1));
        }
        i = i + 1;
    }
    Plan { directories, files, materialised: verified }
}

/// A path under a directory sorts after it.
proof fn lemma_under_sorts_after(path: Seq<u8>, directory: Seq<u8>)
    requires
        under(path, directory),
    ensures
        bytes_lt(directory, path),
{
    assert(path.take(directory.len() as int) =~= directory) by {
        assert forall|i: int| 0 <= i < directory.len() implies path[i] == directory[i] by {
            assert(path.take(directory.len() + 1 as int)[i] == directory.push(0x2f)[i]);
        }
    }
    lemma_prefix_sorts_first(directory, path);
}

/// Every chosen directory is one of the target's trees, among the first `n`.
pub proof fn lemma_chosen_are_trees(
    target: &Listing,
    source: ListingView,
    verified: Set<Seq<u8>>,
    occupied: Set<Seq<u8>>,
    listed: Map<Seq<u8>, Set<Seq<u8>>>,
    n: int,
)
    requires
        0 <= n <= target.trees.keys().len(),
    ensures
        forall|a: int| 0 <= a < chosen_directories(target, source, verified, occupied, listed, n).len() ==> exists|k: int|
            0 <= k < n && #[trigger] chosen_directories(target, source, verified, occupied, listed, n)[a] == target.trees.keys()[k],
    decreases n,
{
    if n > 0 {
        lemma_chosen_are_trees(target, source, verified, occupied, listed, n - 1);
        let before = chosen_directories(target, source, verified, occupied, listed, n - 1);
        let c = chosen_directories(target, source, verified, occupied, listed, n);
        assert forall|a: int| 0 <= a < c.len() implies exists|k: int| 0 <= k < n && #[trigger] c[a] == target.trees.keys()[k] by {
            if a < before.len() {
                assert(c[a] == before[a]);
                let k = choose|k: int| 0 <= k < n - 1 && before[a] == target.trees.keys()[k];
                assert(c[a] == target.trees.keys()[k]);
            } else {
                assert(c[a] == target.trees.keys()[n - 1]);
            }
        }
    }
}

/// The plan clones topmost directories only: no chosen directory lies under another.
pub proof fn law_chosen_directories_are_topmost(
    target: &Listing,
    source: ListingView,
    verified: Set<Seq<u8>>,
    occupied: Set<Seq<u8>>,
    listed: Map<Seq<u8>, Set<Seq<u8>>>,
    n: int,
)
    requires
        target.wf(),
        0 <= n <= target.trees.keys().len(),
    ensures
        ({
            let c = chosen_directories(target, source, verified, occupied, listed, n);
            forall|a: int, b: int| 0 <= a < c.len() && 0 <= b < c.len() ==> !under(#[trigger] c[a], #[trigger] c[b])
        }),
    decreases n,
{
    if n > 0 {
        law_chosen_directories_are_topmost(target, source, verified, occupied, listed, n - 1);
        lemma_chosen_are_trees(target, source, verified, occupied, listed, n - 1);
        let before = chosen_directories(target, source, verified, occupied, listed, n - 1);
        let c = chosen_directories(target, source, verified, occupied, listed, n);
        let path = target.trees.keys()[n - 1];
        if c.len() > before.len() {
            assert forall|a: int, b: int| 0 <= a < c.len() && 0 <= b < c.len() implies !under(#[trigger] c[a], #[trigger] c[b]) by {
                if a < before.len() && b < before.len() {
                    assert(c[a] == before[a] && c[b] == before[b]);
                } else if a == before.len() && b < before.len() {
                    assert(!covered_by(path, before));
                    assert(c[b] == before[b]);
                } else if a < before.len() && b == before.len() {
                    if under(c[a], c[b]) {
                        assert(c[a] == before[a]);
                        let k = choose|k: int| 0 <= k < n - 1 && before[a] == target.trees.keys()[k];
                        lemma_under_sorts_after(c[a], path);
                        assert(bytes_lt(target.trees.keys()[k], path));
                        lemma_bytes_lt_asymmetric(path, c[a]);
                    }
                } else {
                    if under(path, path) {
                        lemma_under_sorts_after(path, path);
                        crate::bytes::lemma_bytes_lt_irreflexive(path);
                    }
                }
            }
        }
    }
}

/// Every directory the plan clones whole passed every check: the source records the
/// same tree oid for it, every blob under it is verified and there is at least one, no
/// submodule sits inside it, nothing exists at its destination, and its source directory
/// holds exactly the tracked entries.
pub proof fn law_chosen_directories_pass_every_check(
    target: &Listing,
    source: ListingView,
    verified: Set<Seq<u8>>,
    occupied: Set<Seq<u8>>,
    listed: Map<Seq<u8>, Set<Seq<u8>>>,
    n: int,
)
    requires
        target.wf(),
        0 <= n <= target.trees.keys().len(),
    ensures
        forall|a: int| 0 <= a < chosen_directories(target, source, verified, occupied, listed, n).len() ==> {
            let d = #[trigger] chosen_directories(target, source, verified, occupied, listed, n)[a];
            &&& target@.trees.contains_key(d)
            &&& source.trees.contains_key(d)
            &&& source.trees[d] == target@.trees[d]
            &&& subtree_verified(target@, d, verified)
            &&& !occupied.contains(d)
            &&& holds_only(children_of(listed_paths(target@)), listed, d, listing_bound(target))
            &&& forall|p: Seq<u8>| target@.blobs.contains_key(p) && starts_with(p, d.push(0x2f)) ==> verified.contains(p)
        },
    decreases n,
{
    if n > 0 {
        law_chosen_directories_pass_every_check(target, source, verified, occupied, listed, n - 1);
        let before = chosen_directories(target, source, verified, occupied, listed, n - 1);
        let c = chosen_directories(target, source, verified, occupied, listed, n);
        target.trees.lemma_map_at(n - 1);
        assert forall|a: int| 0 <= a < c.len() implies {
            let d = #[trigger] c[a];
            &&& target@.trees.contains_key(d)
            &&& source.trees.contains_key(d)
            &&& source.trees[d] == target@.trees[d]
            &&& subtree_verified(target@, d, verified)
            &&& !occupied.contains(d)
            &&& holds_only(children_of(listed_paths(target@)), listed, d, listing_bound(target))
            &&& forall|p: Seq<u8>| target@.blobs.contains_key(p) && starts_with(p, d.push(0x2f)) ==> verified.contains(p)
        } by {
            if a < before.len() {
                assert(c[a] == before[a]);
            }
            let d = c[a];
            assert forall|p: Seq<u8>| target@.blobs.contains_key(p) && starts_with(p, d.push(0x2f)) implies verified.contains(p) by {
                law_every_blob_beneath_a_verified_subtree_is_verified(target@, d, verified, p);
            }
        }
    }
}

/// The single files and the cloned directories between them cover every verified path
/// exactly once: a path is cloned as a file precisely when no chosen directory covers it,
/// and every file is one of the verified paths, in their order.
pub proof fn law_files_and_directories_partition(
    planned: Seq<PlannedView>,
    directories: Seq<Seq<u8>>,
    n: int,
)
    requires
        0 <= n <= planned.len(),
    ensures
        forall|i: int| 0 <= i < n ==> (covered_by(#[trigger] planned[i].path, directories)
            <==> !outside_directories(planned, directories, n).contains(planned[i])),
        forall|k: int| 0 <= k < outside_directories(planned, directories, n).len() ==> {
            let f = #[trigger] outside_directories(planned, directories, n)[k];
            !covered_by(f.path, directories) && planned.take(n).contains(f)
        },
    decreases n,
{
    if n > 0 {
        law_files_and_directories_partition(planned, directories, n - 1);
        let before = outside_directories(planned, directories, n - 1);
        let now = outside_directories(planned, directories, n);
        assert forall|k: int| 0 <= k < now.len() implies {
            let f = #[trigger] now[k];
            !covered_by(f.path, directories) && planned.take(n).contains(f)
        } by {
            if k < before.len() {
                assert(now[k] == before[k]);
                let prev = planned.take(n - 1);
                let j = choose|j: int| 0 <= j < prev.len() && prev[j] == before[k];
                assert(planned.take(n)[j] == before[k]);
            } else {
                assert(planned.take(n)[n - 1] == planned[n - 1]);
            }
        }
        assert forall|i: int| 0 <= i < n implies (covered_by(#[trigger] planned[i].path, directories)
            <==> !now.contains(planned[i])) by {
            if covered_by(planned[i].path, directories) {
                if now.contains(planned[i]) {
                    let k = choose|k: int| 0 <= k < now.len() && now[k] == planned[i];
                }
            } else if i < n - 1 {
                let k = choose|k: int| 0 <= k < before.len() && before[k] == planned[i];
                assert(now[k] == planned[i]);
            } else {
                assert(now[now.len() - 1] == planned[i]);
            }
        }
    }
}

/// Without directory cloning every verified path is cloned as a single file.
pub proof fn law_no_directories_means_every_file(planned: Seq<PlannedView>, n: int)
    requires
        0 <= n <= planned.len(),
    ensures
        outside_directories(planned, Seq::empty(), n) == planned.take(n),
    decreases n,
{
    if n > 0 {
        law_no_directories_means_every_file(planned, n - 1);
        assert(planned.take(n) =~= planned.take(n - 1).push(planned[n - 1]));
    } else {
        assert(planned.take(0) =~= Seq::<PlannedView>::empty());
    }
}

/// One entry of the source index, as values: where it stands, what it records, and what
/// its stat data says of the file on disk.
#[derive(Clone, Debug)]
pub struct IndexEntry {
    pub path: Vec<u8>,
    /// The merge stage: 0 for an ordinary entry; 1, 2 and 3 for the sides of a conflict.
    pub stage: u8,
    /// The mode the index records.
    pub mode: u32,
    pub oid: Oid,
    /// The file's modification time, as the index records it.
    pub mtime: Time,
    /// The stat verdict for the file; `Reject` where the file could not be read.
    pub verdict: Verdict,
}

/// The `.gitattributes` files among the first `n` index entries, path to object id (a
/// later entry for a path replaces an earlier one), and the paths, in index order, whose
/// stat data does not vouch for the file.
pub open spec fn attribute_entries(entries: Seq<IndexEntry>, n: int) -> (Map<Seq<u8>, Seq<u8>>, Seq<Seq<u8>>)
    decreases n,
{
    if n <= 0 {
        (Map::empty(), Seq::empty())
    } else {
        let (files, suspect) = attribute_entries(entries, n - 1);
        let entry = entries[n - 1];
        if !is_attributes_path(entry.path@) {
            (files, suspect)
        } else {
            (
                files.insert(entry.path@, entry.oid@),
                if entry.verdict == Verdict::Clone {
                    suspect
                } else {
                    suspect.push(entry.path@)
                },
            )
        }
    }
}

/// Whether one of the first `n` index entries is a `.gitattributes` file at `path` whose
/// stat verdict is not `Clone`.
pub open spec fn unvouched_attribute_file(entries: Seq<IndexEntry>, n: int, path: Seq<u8>) -> bool {
    exists|i: int|
        #![trigger entries[i]]
        0 <= i < n && entries[i].path@ == path && is_attributes_path(path) && entries[i].verdict != Verdict::Clone
}

/// Every `.gitattributes` entry of the source index lands in the files, and it is
/// suspect whenever its stat verdict is not `Clone` (git must settle it, or the file
/// could not be vouched for at all); nothing else is listed as suspect.
pub proof fn law_unvouched_attribute_files_are_suspect(entries: Seq<IndexEntry>, n: int)
    requires
        0 <= n <= entries.len(),
    ensures
        forall|i: int|
            0 <= i < n && is_attributes_path(#[trigger] entries[i].path@) ==> attribute_entries(entries, n).0.contains_key(
                entries[i].path@,
            ),
        forall|i: int|
            0 <= i < n && is_attributes_path(#[trigger] entries[i].path@) && entries[i].verdict != Verdict::Clone
                ==> attribute_entries(entries, n).1.contains(entries[i].path@),
        forall|k: int|
            0 <= k < attribute_entries(entries, n).1.len() ==> unvouched_attribute_file(
                entries,
                n,
                #[trigger] attribute_entries(entries, n).1[k],
            ),
        forall|p: Seq<u8>|
            #[trigger] attribute_entries(entries, n).0.contains_key(p) ==> is_attributes_path(p) && exists|i: int|
                0 <= i < n && entries[i].path@ == p,
    decreases n,
{
    if n > 0 {
        law_unvouched_attribute_files_are_suspect(entries, n - 1);
        let files = attribute_entries(entries, n - 1).0;
        let suspect = attribute_entries(entries, n - 1).1;
        let files2 = attribute_entries(entries, n).0;
        let suspect2 = attribute_entries(entries, n).1;
        let e = entries[n - 1];
        assert forall|i: int|
            0 <= i < n && is_attributes_path(#[trigger] entries[i].path@) && entries[i].verdict != Verdict::Clone
                implies suspect2.contains(entries[i].path@) by {
            if i < n - 1 && is_attributes_path(e.path@) && e.verdict != Verdict::Clone {
                let k = choose|k: int| 0 <= k < suspect.len() && suspect[k] == entries[i].path@;
                assert(suspect2[k] == suspect[k]);
            }
            if i == n - 1 {
                assert(suspect2[suspect.len() as int] == e.path@);
            }
        }
        assert forall|k: int| 0 <= k < suspect2.len() implies unvouched_attribute_file(entries, n, #[trigger] suspect2[k]) by {
            if k < suspect.len() {
                if is_attributes_path(e.path@) && e.verdict != Verdict::Clone {
                    assert(suspect2[k] == suspect[k]);
                }
                assert(unvouched_attribute_file(entries, n - 1, suspect[k]));
                let i = choose|i: int|
                    #![trigger entries[i]]
                    0 <= i < n - 1 && entries[i].path@ == suspect[k] && is_attributes_path(suspect[k])
                        && entries[i].verdict != Verdict::Clone;
                assert(entries[i].path@ == suspect2[k]);
            } else {
                assert(entries[n - 1].path@ == suspect2[k]);
            }
        }
        assert forall|p: Seq<u8>| #[trigger] files2.contains_key(p) implies is_attributes_path(p) && exists|i: int|
            0 <= i < n && entries[i].path@ == p by {
            if files.contains_key(p) {
                let i = choose|i: int| 0 <= i < n - 1 && entries[i].path@ == p;
                assert(entries[i].path@ == p);
            } else {
                assert(entries[n - 1].path@ == p);
            }
        }
    }
}

/// The `.gitattributes` blobs the source index records, split into the ones its stat cache
/// vouches for and the ones only git can settle by re-reading the file.
pub fn source_attribute_files(entries: &[IndexEntry]) -> (r: (PathMap<Oid>, Vec<Vec<u8>>))
    ensures
        r.0.wf(),
        r.0.map() == attribute_entries(entries@, entries@.len() as int).0,
        views(r.1@) == attribute_entries(entries@, entries@.len() as int).1,
{
    let mut files: PathMap<Oid> = PathMap::new();
    let mut suspect: Vec<Vec<u8>> = Vec::new();
    let mut i: usize = 0;
    assert(views(suspect@) =~= Seq::<Seq<u8>>::empty());
    while i < entries.len()
        invariant
            i <= entries@.len(),
            files.wf(),
            files.map() == attribute_entries(entries@, i as int).0,
            views(suspect@) == attribute_entries(entries@, i as int).1,
        decreases entries@.len() - i,
    {
        let entry = &entries[i];
        if is_attributes_file(entry.path.as_slice()) {
            files.insert(copy_bytes(entry.path.as_slice()), entry.oid.duplicate());
            if !matches!(entry.verdict, Verdict::Clone) {
                suspect.push(copy_bytes(entry.path.as_slice()));
                assert(views(suspect@) =~= attribute_entries(entries@, i + 1).1);
            }
        }
        i = i + 1;
    }
    (files, suspect)
}

} // verus!
