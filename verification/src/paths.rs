//! Path equality as `std::path::Path` compares paths, component by component, under the
//! rules of Unix or of Windows.
//!
//! On Unix a path is an optional root followed by names between `/` separators. On
//! Windows both `/` and `\` separate, and a path may open with a prefix: a drive (`C:`),
//! a share (`\\server\share`), a device (`\\.\COM1`) or one of the verbatim forms
//! (`\\?\...`), inside which only `\` separates and `.` is kept.
use vstd::prelude::*;

use crate::bytes::{copy_range, same_bytes, views};

verus! {

/// Which platform's path rules apply.
#[derive(Clone, Copy, Debug, PartialEq, Eq)]
pub enum PathStyle {
    Unix,
    Windows,
}

/// Whether `b` separates components under `style`.
pub open spec fn is_separator(style: PathStyle, b: u8) -> bool {
    b == 0x2f || (style == PathStyle::Windows && b == 0x5c)
}

/// Whether `b` separates components in a path body: after a verbatim prefix only `\`
/// does.
pub open spec fn body_separator(style: PathStyle, verbatim: bool, b: u8) -> bool {
    if verbatim {
        b == 0x5c
    } else {
        is_separator(style, b)
    }
}

/// Where the first separator of `s` stands, or its length if there is none.
pub open spec fn separator_at(s: Seq<u8>, style: PathStyle, verbatim: bool) -> int
    decreases s.len(),
{
    if s.len() == 0 {
        0
    } else if body_separator(style, verbatim, s[0]) {
        0
    } else {
        1 + separator_at(s.drop_first(), style, verbatim)
    }
}

proof fn lemma_separator_at(s: Seq<u8>, style: PathStyle, verbatim: bool)
    ensures
        0 <= separator_at(s, style, verbatim) <= s.len(),
        forall|j: int| 0 <= j < separator_at(s, style, verbatim) ==> !body_separator(style, verbatim, #[trigger] s[j]),
        separator_at(s, style, verbatim) < s.len() ==> body_separator(style, verbatim, s[separator_at(s, style, verbatim)]),
    decreases s.len(),
{
    if s.len() > 0 && !body_separator(style, verbatim, s[0]) {
        lemma_separator_at(s.drop_first(), style, verbatim);
        assert forall|j: int| 0 <= j < separator_at(s, style, verbatim) implies !body_separator(style, verbatim, #[trigger] s[j]) by {
            if j > 0 {
                assert(s[j] == s.drop_first()[j - 1]);
            }
        }
    }
}

/// The first separator is the only position with no separator before it that is a
/// separator or the end.
proof fn lemma_separator_unique(s: Seq<u8>, style: PathStyle, verbatim: bool, k: int)
    requires
        0 <= k <= s.len(),
        forall|j: int| 0 <= j < k ==> !body_separator(style, verbatim, #[trigger] s[j]),
        k < s.len() ==> body_separator(style, verbatim, s[k]),
    ensures
        separator_at(s, style, verbatim) == k,
    decreases s.len(),
{
    if k > 0 {
        assert(!body_separator(style, verbatim, s[0]));
        assert forall|j: int| 0 <= j < k - 1 implies !body_separator(style, verbatim, #[trigger] s.drop_first()[j]) by {
            assert(s.drop_first()[j] == s[j + 1]);
        }
        lemma_separator_unique(s.drop_first(), style, verbatim, k - 1);
    }
}

/// The component `s` opens with: the bytes before its first separator (Windows rules).
pub open spec fn component_of(s: Seq<u8>, verbatim: bool) -> Seq<u8> {
    s.take(separator_at(s, PathStyle::Windows, verbatim))
}

/// What follows that component and its separator; nothing if there is no separator.
pub open spec fn after_component(s: Seq<u8>, verbatim: bool) -> Seq<u8> {
    let i = separator_at(s, PathStyle::Windows, verbatim);
    if i < s.len() {
        s.skip(i + 1)
    } else {
        Seq::empty()
    }
}

/// A Windows path prefix, as `std::path::Prefix` tells them apart.
pub enum PrefixView {
    /// `\\?\name`
    Verbatim(Seq<u8>),
    /// `\\?\UNC\server\share`
    VerbatimUnc(Seq<u8>, Seq<u8>),
    /// `\\?\C:`, with the drive letter in upper case.
    VerbatimDisk(u8),
    /// `\\.\device`
    DeviceNs(Seq<u8>),
    /// `\\server\share`
    Unc(Seq<u8>, Seq<u8>),
    /// `C:`, with the drive letter in upper case.
    Disk(u8),
}

/// Either separator byte, as the prefix parser reads them.
pub open spec fn slashy(b: u8) -> bool {
    b == 0x2f || b == 0x5c
}

/// An ASCII letter.
pub open spec fn is_letter(b: u8) -> bool {
    (0x41 <= b <= 0x5a) || (0x61 <= b <= 0x7a)
}

/// An ASCII letter in upper case.
pub open spec fn upper(b: u8) -> u8 {
    if 0x61 <= b <= 0x7a {
        (b - 0x20) as u8
    } else {
        b
    }
}

/// `s` opens with a drive: a letter and a colon.
pub open spec fn opens_with_drive(s: Seq<u8>) -> bool {
    s.len() >= 2 && s[1] == 0x3a && is_letter(s[0])
}

/// The prefix a path opens with under Windows rules, if any.
pub open spec fn windows_prefix(p: Seq<u8>) -> Option<PrefixView> {
    if p.len() >= 2 && slashy(p[0]) && slashy(p[1]) {
        if p.len() >= 4 && p[0] == 0x5c && p[1] == 0x5c && p[2] == 0x3f && p[3] == 0x5c {
            if p.len() >= 8 && p[4] == 0x55 && p[5] == 0x4e && p[6] == 0x43 && slashy(p[7]) {
                let rest = p.skip(8);
                Some(PrefixView::VerbatimUnc(component_of(rest, true), component_of(after_component(rest, true), true)))
            } else {
                let rest = p.skip(4);
                if opens_with_drive(rest) && (rest.len() == 2 || slashy(rest[2])) {
                    Some(PrefixView::VerbatimDisk(upper(rest[0])))
                } else {
                    Some(PrefixView::Verbatim(component_of(rest, true)))
                }
            }
        } else if p.len() >= 4 && p[2] == 0x2e && slashy(p[3]) {
            Some(PrefixView::DeviceNs(component_of(p.skip(4), false)))
        } else {
            let rest = p.skip(2);
            let server = component_of(rest, false);
            let share = component_of(after_component(rest, false), false);
            if server.len() > 0 && share.len() > 0 {
                Some(PrefixView::Unc(server, share))
            } else {
                None
            }
        }
    } else if opens_with_drive(p) {
        Some(PrefixView::Disk(upper(p[0])))
    } else {
        None
    }
}

/// How many bytes a prefix takes.
pub open spec fn prefix_length(prefix: Option<PrefixView>) -> nat {
    match prefix {
        None => 0,
        Some(p) => match p {
            PrefixView::Verbatim(x) => 4 + x.len(),
            PrefixView::VerbatimUnc(x, y) => 8 + x.len() + if y.len() > 0 {
                1 + y.len()
            } else {
                0
            },
            PrefixView::VerbatimDisk(_) => 6,
            PrefixView::DeviceNs(x) => 4 + x.len(),
            PrefixView::Unc(x, y) => 2 + x.len() + if y.len() > 0 {
                1 + y.len()
            } else {
                0
            },
            PrefixView::Disk(_) => 2,
        },
    }
}

/// A verbatim prefix, after which only `\` separates and `.` is kept.
pub open spec fn is_verbatim(prefix: Option<PrefixView>) -> bool {
    match prefix {
        Some(PrefixView::Verbatim(_)) | Some(PrefixView::VerbatimUnc(_, _)) | Some(PrefixView::VerbatimDisk(_)) => true,
        _ => false,
    }
}

/// A share or device prefix, which implies a root even without a separator after it.
pub open spec fn implies_root(prefix: Option<PrefixView>) -> bool {
    match prefix {
        Some(PrefixView::DeviceNs(_)) | Some(PrefixView::Unc(_, _)) => true,
        _ => false,
    }
}

/// The prefix of `path` under `style`; Unix paths have none.
pub open spec fn path_prefix(path: Seq<u8>, style: PathStyle) -> Option<PrefixView> {
    if style == PathStyle::Windows {
        windows_prefix(path)
    } else {
        None
    }
}

/// A separator follows the prefix.
pub open spec fn physical_root(path: Seq<u8>, style: PathStyle) -> bool {
    let n = prefix_length(path_prefix(path, style)) as int;
    n < path.len() && is_separator(style, path[n])
}

/// The path opens with a `.` component, which `Path` keeps: no prefix, no root, and `.`
/// alone or followed by a separator.
pub open spec fn current_dir_first(path: Seq<u8>, style: PathStyle) -> bool {
    &&& path_prefix(path, style) is None
    &&& !physical_root(path, style)
    &&& path.len() > 0
    &&& path[0] == 0x2e
    &&& (path.len() == 1 || is_separator(style, path[1]))
}

/// Whether a piece between separators is a component: not empty, and not `.` unless the
/// path is verbatim.
pub open spec fn kept(piece: Seq<u8>, verbatim: bool) -> bool {
    piece.len() > 0 && (verbatim || piece != seq![0x2eu8])
}

/// The components of a path body, in order.
pub open spec fn names_of(body: Seq<u8>, style: PathStyle, verbatim: bool) -> Seq<Seq<u8>>
    decreases body.len(),
{
    let i = separator_at(body, style, verbatim);
    let piece = body.take(i);
    let here = if kept(piece, verbatim) {
        seq![piece]
    } else {
        Seq::<Seq<u8>>::empty()
    };
    if 0 <= i < body.len() {
        here + names_of(body.skip(i + 1), style, verbatim)
    } else {
        here
    }
}

/// What `Path` compares two paths by: the prefix, whether there is a root, and the
/// components after them (a leading `.` included, as `.`).
pub struct ComponentsView {
    pub prefix: Option<PrefixView>,
    pub root: bool,
    pub names: Seq<Seq<u8>>,
}

/// Where the body of a path starts: after its prefix, its root and a leading `.`.
pub open spec fn body_start(path: Seq<u8>, style: PathStyle) -> int {
    prefix_length(path_prefix(path, style)) + (if physical_root(path, style) {
        1int
    } else {
        0
    }) + (if current_dir_first(path, style) {
        1int
    } else {
        0
    })
}

/// The components of a path under `style`.
pub open spec fn path_components(path: Seq<u8>, style: PathStyle) -> ComponentsView {
    let prefix = path_prefix(path, style);
    ComponentsView {
        prefix,
        root: physical_root(path, style) || implies_root(prefix),
        names: (if current_dir_first(path, style) {
            seq![seq![0x2eu8]]
        } else {
            Seq::<Seq<u8>>::empty()
        }) + names_of(path.skip(body_start(path, style)), style, is_verbatim(prefix)),
    }
}

/// Whether two paths are equal as `Path` compares them under `style`: repeated
/// separators, a trailing separator and `.` components other than a leading one make no
/// difference, and on Windows `/` and `\` are one separator and drive letters ignore case.
pub open spec fn same_path_as(a: Seq<u8>, b: Seq<u8>, style: PathStyle) -> bool {
    path_components(a, style) == path_components(b, style)
}

/// A Windows path prefix.
enum PathPrefix {
    Verbatim(Vec<u8>),
    VerbatimUnc(Vec<u8>, Vec<u8>),
    VerbatimDisk(u8),
    DeviceNs(Vec<u8>),
    Unc(Vec<u8>, Vec<u8>),
    Disk(u8),
}

impl View for PathPrefix {
    type V = PrefixView;

    closed spec fn view(&self) -> PrefixView {
        match self {
            PathPrefix::Verbatim(x) => PrefixView::Verbatim(x@),
            PathPrefix::VerbatimUnc(x, y) => PrefixView::VerbatimUnc(x@, y@),
            PathPrefix::VerbatimDisk(d) => PrefixView::VerbatimDisk(*d),
            PathPrefix::DeviceNs(x) => PrefixView::DeviceNs(x@),
            PathPrefix::Unc(x, y) => PrefixView::Unc(x@, y@),
            PathPrefix::Disk(d) => PrefixView::Disk(*d),
        }
    }
}

spec fn prefix_view(p: Option<PathPrefix>) -> Option<PrefixView> {
    match p {
        Some(x) => Some(x@),
        None => None,
    }
}

fn separates(style: PathStyle, verbatim: bool, b: u8) -> (r: bool)
    ensures
        r == body_separator(style, verbatim, b),
{
    if verbatim {
        b == 0x5c
    } else {
        b == 0x2f || (matches!(style, PathStyle::Windows) && b == 0x5c)
    }
}

/// Where the first separator at or after `from` stands, or the length of `s`.
fn find_separator(s: &[u8], from: usize, style: PathStyle, verbatim: bool) -> (r: usize)
    requires
        from <= s@.len(),
    ensures
        r == from + separator_at(s@.skip(from as int), style, verbatim),
        from <= r <= s@.len(),
{
    let mut k = from;
    while k < s.len() && !separates(style, verbatim, s[k])
        invariant
            from <= k <= s@.len(),
            forall|j: int| from <= j < k ==> !body_separator(style, verbatim, #[trigger] s@[j]),
        decreases s@.len() - k,
    {
        k = k + 1;
    }
    proof {
        let t = s@.skip(from as int);
        assert forall|j: int| 0 <= j < k - from implies !body_separator(style, verbatim, #[trigger] t[j]) by {
            assert(t[j] == s@[from + j]);
        }
        if k < s@.len() {
            assert(t[k - from] == s@[k as int]);
        }
        lemma_separator_unique(t, style, verbatim, k - from);
    }
    k
}

/// The component of `s[from..]` (Windows rules) and where what follows it starts.
fn component(s: &[u8], from: usize, verbatim: bool) -> (r: (Vec<u8>, usize))
    requires
        from <= s@.len(),
    ensures
        r.0@ == component_of(s@.skip(from as int), verbatim),
        from <= r.1 <= s@.len(),
        s@.skip(r.1 as int) == after_component(s@.skip(from as int), verbatim),
        r.1 == s@.len() || r.1 == from + r.0@.len() + 1,
        from + r.0@.len() <= s@.len(),
{
    let end = find_separator(s, from, PathStyle::Windows, verbatim);
    let piece = copy_range(s, from, end);
    let t = Ghost(s@.skip(from as int));
    assert(piece@ =~= t@.take(end - from));
    if end < s.len() {
        assert(s@.skip(end + 1) =~= t@.skip(end - from + 1));
        (piece, end + 1)
    } else {
        assert(s@.skip(end as int) =~= Seq::<u8>::empty());
        (piece, end)
    }
}

fn slash(b: u8) -> (r: bool)
    ensures
        r == slashy(b),
{
    b == 0x2f || b == 0x5c
}

fn letter(b: u8) -> (r: bool)
    ensures
        r == is_letter(b),
{
    (0x41 <= b && b <= 0x5a) || (0x61 <= b && b <= 0x7a)
}

fn upper_case(b: u8) -> (r: u8)
    ensures
        r == upper(b),
{
    if 0x61 <= b && b <= 0x7a {
        b - 0x20
    } else {
        b
    }
}

/// The prefix `p` opens with under Windows rules, and how many bytes it takes.
fn windows_prefix_of(p: &[u8]) -> (r: (Option<PathPrefix>, usize))
    ensures
        prefix_view(r.0) == windows_prefix(p@),
        r.1 == prefix_length(windows_prefix(p@)),
        r.1 <= p@.len(),
{
    let n = p.len();
    if n >= 2 && slash(p[0]) && slash(p[1]) {
        if n >= 4 && p[0] == 0x5c && p[1] == 0x5c && p[2] == 0x3f && p[3] == 0x5c {
            if n >= 8 && p[4] == 0x55 && p[5] == 0x4e && p[6] == 0x43 && slash(p[7]) {
                let (server, next) = component(p, 8, true);
                let (share, after) = component(p, next, true);
                proof {
                    assert(p@.skip(8).skip(0) =~= p@.skip(8));
                }
                let ghost rest = p@.skip(8);
                assert(server@ == component_of(rest, true));
                assert(share@ == component_of(after_component(rest, true), true));
                let len = if share.len() > 0 {
                    8 + server.len() + 1 + share.len()
                } else {
                    8 + server.len()
                };
                return (Some(PathPrefix::VerbatimUnc(server, share)), len);
            }
            let ghost rest = p@.skip(4);
            if n >= 6 && p[5] == 0x3a && letter(p[4]) && (n == 6 || slash(p[6])) {
                assert(rest[0] == p@[4] && rest[1] == p@[5]);
                if n > 6 {
                    assert(rest[2] == p@[6]);
                }
                return (Some(PathPrefix::VerbatimDisk(upper_case(p[4]))), 6);
            }
            proof {
                if opens_with_drive(rest) && (rest.len() == 2 || slashy(rest[2])) {
                    assert(rest[0] == p@[4] && rest[1] == p@[5]);
                    if rest.len() > 2 {
                        assert(rest[2] == p@[6]);
                    }
                }
            }
            let (name, _) = component(p, 4, true);
            let len = 4 + name.len();
            return (Some(PathPrefix::Verbatim(name)), len);
        }
        if n >= 4 && p[2] == 0x2e && slash(p[3]) {
            let (name, _) = component(p, 4, false);
            let len = 4 + name.len();
            return (Some(PathPrefix::DeviceNs(name)), len);
        }
        let (server, next) = component(p, 2, false);
        let (share, _) = component(p, next, false);
        if server.len() > 0 && share.len() > 0 {
            let len = 2 + server.len() + 1 + share.len();
            return (Some(PathPrefix::Unc(server, share)), len);
        }
        return (None, 0);
    }
    if n >= 2 && p[1] == 0x3a && letter(p[0]) {
        return (Some(PathPrefix::Disk(upper_case(p[0]))), 2);
    }
    (None, 0)
}

/// The components of `path` under `style`.
struct Components {
    prefix: Option<PathPrefix>,
    root: bool,
    names: Vec<Vec<u8>>,
}

/// Whether the piece `s[from..to]` is a component.
fn is_kept(s: &[u8], from: usize, to: usize, verbatim: bool) -> (r: bool)
    requires
        from <= to <= s@.len(),
    ensures
        r == kept(s@.subrange(from as int, to as int), verbatim),
{
    let ghost piece = s@.subrange(from as int, to as int);
    if to == from {
        return false;
    }
    if verbatim {
        return true;
    }
    if to == from + 1 && s[from] == 0x2e {
        assert(piece =~= seq![0x2eu8]);
        return false;
    }
    proof {
        if piece == seq![0x2eu8] {
            assert(piece.len() == 1);
            assert(piece[0] == s@[from as int]);
        }
    }
    true
}

/// The components of the body `s[start..]`.
fn body_names(s: &[u8], start: usize, style: PathStyle, verbatim: bool) -> (r: Vec<Vec<u8>>)
    requires
        start <= s@.len(),
    ensures
        views(r@) == names_of(s@.skip(start as int), style, verbatim),
{
    let mut names: Vec<Vec<u8>> = Vec::new();
    let mut pos = start;
    let mut done = false;
    let ghost target = names_of(s@.skip(start as int), style, verbatim);
    assert(views(names@) + target =~= target);
    while !done
        invariant
            start <= pos <= s@.len(),
            target == names_of(s@.skip(start as int), style, verbatim),
            !done ==> views(names@) + names_of(s@.skip(pos as int), style, verbatim) == target,
            done ==> views(names@) == target,
        decreases s@.len() - pos + (if done {
            0int
        } else {
            1int
        }),
    {
        let end = find_separator(s, pos, style, verbatim);
        let ghost t = s@.skip(pos as int);
        let ghost before = views(names@);
        proof {
            lemma_separator_at(t, style, verbatim);
            assert(t.take(end - pos) =~= s@.subrange(pos as int, end as int));
        }
        let keep = is_kept(s, pos, end, verbatim);
        if keep {
            names.push(copy_range(s, pos, end));
            assert(views(names@) =~= before.push(t.take(end - pos)));
        }
        let ghost here = if keep {
            seq![t.take(end - pos)]
        } else {
            Seq::<Seq<u8>>::empty()
        };
        assert(views(names@) =~= before + here);
        if end < s.len() {
            assert(t.skip(end - pos + 1) =~= s@.skip(end + 1));
            assert(names_of(t, style, verbatim) == here + names_of(s@.skip(end + 1), style, verbatim));
            assert(views(names@) + names_of(s@.skip(end + 1), style, verbatim) =~= before + names_of(t, style, verbatim));
            pos = end + 1;
        } else {
            assert(names_of(t, style, verbatim) == here);
            done = true;
        }
    }
    names
}

fn components_of(path: &[u8], style: PathStyle) -> (r: Components)
    ensures
        prefix_view(r.prefix) == path_components(path@, style).prefix,
        r.root == path_components(path@, style).root,
        views(r.names@) == path_components(path@, style).names,
{
    let (prefix, n) = match style {
        PathStyle::Windows => windows_prefix_of(path),
        PathStyle::Unix => (None, 0),
    };
    let verbatim = match &prefix {
        Some(PathPrefix::Verbatim(_)) | Some(PathPrefix::VerbatimUnc(_, _)) | Some(PathPrefix::VerbatimDisk(_)) => true,
        _ => false,
    };
    let implied = match &prefix {
        Some(PathPrefix::DeviceNs(_)) | Some(PathPrefix::Unc(_, _)) => true,
        _ => false,
    };
    let physical = n < path.len() && separates(style, false, path[n]);
    let current = prefix.is_none() && !physical && path.len() > 0 && path[0] == 0x2e && (path.len() == 1
        || separates(style, false, path[1]));
    let mut start = n;
    if physical {
        start = start + 1;
    }
    if current {
        start = start + 1;
    }
    assert(verbatim == is_verbatim(path_prefix(path@, style)));
    assert(start == body_start(path@, style));
    let rest = body_names(path, start, style, verbatim);
    let mut names: Vec<Vec<u8>> = Vec::new();
    if current {
        let dot: Vec<u8> = vec![0x2eu8];
        assert(dot@ =~= seq![0x2eu8]);
        names.push(dot);
    }
    let ghost lead = views(names@);
    assert(lead =~= (if current_dir_first(path@, style) {
        seq![seq![0x2eu8]]
    } else {
        Seq::<Seq<u8>>::empty()
    }));
    let ghost tail = views(rest@);
    let mut rest = rest;
    names.append(&mut rest);
    assert(views(names@) =~= lead + tail);
    Components { prefix, root: physical || implied, names }
}

fn same_prefix(a: &Option<PathPrefix>, b: &Option<PathPrefix>) -> (r: bool)
    ensures
        r == (prefix_view(*a) == prefix_view(*b)),
{
    match (a, b) {
        (None, None) => true,
        (Some(PathPrefix::Verbatim(x)), Some(PathPrefix::Verbatim(y))) => same_bytes(x.as_slice(), y.as_slice()),
        (Some(PathPrefix::VerbatimUnc(x1, x2)), Some(PathPrefix::VerbatimUnc(y1, y2))) => same_bytes(x1.as_slice(), y1.as_slice())
            && same_bytes(x2.as_slice(), y2.as_slice()),
        (Some(PathPrefix::VerbatimDisk(x)), Some(PathPrefix::VerbatimDisk(y))) => *x == *y,
        (Some(PathPrefix::DeviceNs(x)), Some(PathPrefix::DeviceNs(y))) => same_bytes(x.as_slice(), y.as_slice()),
        (Some(PathPrefix::Unc(x1, x2)), Some(PathPrefix::Unc(y1, y2))) => same_bytes(x1.as_slice(), y1.as_slice())
            && same_bytes(x2.as_slice(), y2.as_slice()),
        (Some(PathPrefix::Disk(x)), Some(PathPrefix::Disk(y))) => *x == *y,
        _ => false,
    }
}

/// Whether two paths are equal as `Path` compares them under `style`.
pub fn same_path(a: &[u8], b: &[u8], style: PathStyle) -> (r: bool)
    ensures
        r == same_path_as(a@, b@, style),
{
    let x = components_of(a, style);
    let y = components_of(b, style);
    if !same_prefix(&x.prefix, &y.prefix) || x.root != y.root || x.names.len() != y.names.len() {
        proof {
            let ca = path_components(a@, style);
            let cb = path_components(b@, style);
            if x.names@.len() != y.names@.len() {
                assert(views(x.names@).len() != views(y.names@).len());
                assert(ca.names.len() != cb.names.len());
            } else if x.root != y.root {
                assert(ca.root != cb.root);
            } else {
                assert(ca.prefix != cb.prefix);
            }
            assert(ca != cb);
            assert(!same_path_as(a@, b@, style));
        }
        return false;
    }
    let mut i: usize = 0;
    while i < x.names.len()
        invariant
            i <= x.names@.len(),
            x.names@.len() == y.names@.len(),
            views(x.names@) == path_components(a@, style).names,
            views(y.names@) == path_components(b@, style).names,
            forall|j: int| 0 <= j < i ==> x.names@[j]@ == y.names@[j]@,
        decreases x.names@.len() - i,
    {
        if !same_bytes(x.names[i].as_slice(), y.names[i].as_slice()) {
            assert(views(x.names@)[i as int] != views(y.names@)[i as int]);
            return false;
        }
        i = i + 1;
    }
    assert(views(x.names@) =~= views(y.names@));
    true
}

/// A separator appended to a body adds no component.
proof fn lemma_names_trailing(body: Seq<u8>, style: PathStyle, verbatim: bool, b: u8)
    requires
        body_separator(style, verbatim, b),
    ensures
        names_of(body.push(b), style, verbatim) == names_of(body, style, verbatim),
    decreases body.len(),
{
    let longer = body.push(b);
    lemma_separator_at(body, style, verbatim);
    let i = separator_at(body, style, verbatim);
    assert forall|j: int| 0 <= j < i implies !body_separator(style, verbatim, #[trigger] longer[j]) by {
        assert(longer[j] == body[j]);
    }
    if i < body.len() {
        assert(longer[i] == body[i]);
    }
    lemma_separator_unique(longer, style, verbatim, i);
    assert(longer.take(i) =~= body.take(i));
    let empty = Seq::<u8>::empty();
    lemma_separator_at(empty, style, verbatim);
    assert(names_of(empty, style, verbatim) =~= Seq::<Seq<u8>>::empty());
    if i < body.len() {
        assert(longer.skip(i + 1) =~= body.skip(i + 1).push(b));
        lemma_names_trailing(body.skip(i + 1), style, verbatim, b);
    } else {
        assert(longer.skip(i + 1) =~= empty);
        let here = if kept(body.take(i), verbatim) {
            seq![body.take(i)]
        } else {
            Seq::<Seq<u8>>::empty()
        };
        assert(here + Seq::<Seq<u8>>::empty() =~= here);
    }
}

/// Path equality is an equivalence under either style: reflexive, symmetric and
/// transitive.
pub proof fn law_same_path_is_an_equivalence(a: Seq<u8>, b: Seq<u8>, c: Seq<u8>, style: PathStyle)
    ensures
        same_path_as(a, a, style),
        same_path_as(a, b, style) ==> same_path_as(b, a, style),
        same_path_as(a, b, style) && same_path_as(b, c, style) ==> same_path_as(a, c, style),
{
}

/// On Unix a trailing separator makes no difference to which path a non-empty path names.
pub proof fn law_trailing_separator_is_ignored(path: Seq<u8>)
    requires
        path.len() > 0,
    ensures
        same_path_as(path, path.push(0x2f), PathStyle::Unix),
{
    let style = PathStyle::Unix;
    let longer = path.push(0x2f);
    assert(longer[0] == path[0]);
    if path.len() > 1 {
        assert(longer[1] == path[1]);
    }
    let start = body_start(path, style);
    assert(start == body_start(longer, style));
    assert(start <= path.len());
    assert(longer.skip(start) =~= path.skip(start).push(0x2f));
    lemma_names_trailing(path.skip(start), style, false, 0x2f);
}

} // verus!
