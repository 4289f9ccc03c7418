//! Reads `git ls-tree -r -t -z` into the path maps the clone plan works from.
//!
//! Paths stay raw bytes because git path names are not required to be UTF-8.
use vstd::prelude::*;

use crate::bytes::{
    ascii, ascii_bytes, copy_bytes, copy_range, ends_with, has_suffix, same_bytes, split,
    split_on, views,
};
use crate::pathmap::{PathMap, PathSet};

verus! {

/// A hexadecimal digit, either case.
pub open spec fn is_hex_digit(b: u8) -> bool {
    (0x30 <= b <= 0x39) || (0x61 <= b <= 0x66) || (0x41 <= b <= 0x46)
}

/// The value of a hexadecimal digit.
pub open spec fn hex_value(b: u8) -> int {
    if 0x30 <= b <= 0x39 {
        b - 0x30
    } else if 0x61 <= b <= 0x66 {
        b - 0x61 + 10
    } else {
        b - 0x41 + 10
    }
}

/// The bytes a hexadecimal string spells, two digits to a byte.
pub open spec fn hex_decoded(hex: Seq<u8>) -> Seq<u8> {
    Seq::new(hex.len() / 2, |i: int| (hex_value(hex[2 * i]) * 16 + hex_value(hex[2 * i + 1])) as u8)
}

/// What `ObjectId::from_hex` accepts: 40 hexadecimal digits (SHA-1) or 64 (SHA-256).
pub open spec fn is_object_id_hex(hex: Seq<u8>) -> bool {
    &&& (hex.len() == 40 || hex.len() == 64)
    &&& forall|i: int| 0 <= i < hex.len() ==> is_hex_digit(#[trigger] hex[i])
}

/// Decodes a hexadecimal object id into its raw bytes.
///
/// Calls `gix_hash::ObjectId::from_hex`, built with SHA-1 and SHA-256. Trusted, as its
/// source shows, to accept exactly 40 or 64 hexadecimal digits of either case and to hold
/// the bytes they spell.
#[verifier::external_body]
fn decode_object_id(hex: &[u8]) -> (r: Option<Vec<u8>>)
    ensures
        r is Some <==> is_object_id_hex(hex@),
        r matches Some(bytes) ==> bytes@ == hex_decoded(hex@),
{
    gix_hash::ObjectId::from_hex(hex).ok().map(|id| id.as_slice().to_vec())
}

/// The name of a git object: the raw bytes of its hash.
#[derive(Clone, Debug, PartialEq, Eq)]
pub struct Oid {
    bytes: Vec<u8>,
}

impl View for Oid {
    type V = Seq<u8>;

    closed spec fn view(&self) -> Seq<u8> {
        self.bytes@
    }
}

impl Oid {
    /// The object id written in `hex`, or `None` if it is not a SHA-1 or SHA-256 id.
    pub fn from_hex(hex: &[u8]) -> (r: Option<Oid>)
        ensures
            r is Some <==> is_object_id_hex(hex@),
            r matches Some(oid) ==> oid@ == hex_decoded(hex@),
    {
        match decode_object_id(hex) {
            Some(bytes) => Some(Oid { bytes }),
            None => None,
        }
    }

    /// The raw bytes of the hash.
    pub fn as_bytes(&self) -> (r: &[u8])
        ensures
            r@ == self@,
    {
        self.bytes.as_slice()
    }

    /// An object id with the given raw bytes.
    pub fn from_bytes(bytes: Vec<u8>) -> (r: Oid)
        ensures
            r@ == bytes@,
    {
        Oid { bytes }
    }

    /// A second copy of this id.
    pub fn duplicate(&self) -> (r: Oid)
        ensures
            r@ == self@,
    {
        Oid { bytes: copy_bytes(self.bytes.as_slice()) }
    }

    /// Whether two ids name the same object.
    pub fn same(&self, other: &Oid) -> (r: bool)
        ensures
            r == (self@ == other@),
    {
        same_bytes(self.bytes.as_slice(), other.bytes.as_slice())
    }
}

/// A tracked file or symlink in a commit's tree.
#[derive(Clone, Debug, PartialEq, Eq)]
pub struct Blob {
    /// The mode recorded in the tree. Never taken from the filesystem.
    pub mode: u32,
    pub oid: Oid,
}

impl View for Blob {
    type V = (u32, Seq<u8>);

    open spec fn view(&self) -> (u32, Seq<u8>) {
        (self.mode, self.oid@)
    }
}

/// Everything one commit's tree contains, indexed by path.
#[derive(Debug, Clone, PartialEq, Eq)]
pub struct Listing {
    pub blobs: PathMap<Blob>,
    pub trees: PathMap<Oid>,
    /// Submodule paths. These are never cloned; git materialises them.
    pub gitlinks: PathSet,
}

/// What a listing holds, as maps.
pub struct ListingView {
    pub blobs: Map<Seq<u8>, (u32, Seq<u8>)>,
    pub trees: Map<Seq<u8>, Seq<u8>>,
    pub gitlinks: Set<Seq<u8>>,
}

impl View for Listing {
    type V = ListingView;

    open spec fn view(&self) -> ListingView {
        ListingView { blobs: self.blobs.map(), trees: self.trees.map(), gitlinks: self.gitlinks.set() }
    }
}

impl Default for Listing {
    /// An empty listing.
    fn default() -> (r: Self)
        ensures
            r.wf(),
            r@.blobs == Map::<Seq<u8>, (u32, Seq<u8>)>::empty(),
            r@.trees == Map::<Seq<u8>, Seq<u8>>::empty(),
            r@.gitlinks == Set::<Seq<u8>>::empty(),
    {
        Listing::new()
    }
}

impl Listing {
    pub open spec fn wf(&self) -> bool {
        self.blobs.wf() && self.trees.wf() && self.gitlinks.wf()
    }

    /// An empty listing.
    pub fn new() -> (r: Listing)
        ensures
            r.wf(),
            r@.blobs == Map::<Seq<u8>, (u32, Seq<u8>)>::empty(),
            r@.trees == Map::<Seq<u8>, Seq<u8>>::empty(),
            r@.gitlinks == Set::<Seq<u8>>::empty(),
    {
        Listing { blobs: PathMap::new(), trees: PathMap::new(), gitlinks: PathSet::new() }
    }

    /// The `.gitattributes` blobs in this tree, keyed by path.
    pub fn attribute_files(&self) -> (r: PathMap<Oid>)
        requires
            self.wf(),
        ensures
            r.wf(),
            r.map() == attribute_files_of(self@.blobs),
    {
        let mut r: PathMap<Oid> = PathMap::new();
        let n = self.blobs.len();
        let mut i: usize = 0;
        while i < n
            invariant
                self.wf(),
                r.wf(),
                i <= n == self.blobs.keys().len(),
                r.map() == attribute_files_of(self@.blobs).restrict(
                    first_keys(self.blobs.keys(), i as int),
                ),
            decreases n - i,
        {
            let path = self.blobs.key_at(i);
            let blob = self.blobs.value_at(i);
            proof {
                self.blobs.lemma_map_at(i as int);
                self.blobs.lemma_lengths();
            }
            if is_attributes_file(path) {
                r.insert(copy_bytes(path), blob.oid.duplicate());
            }
            proof {
                let keys = self.blobs.keys();
                let before = first_keys(keys, i as int);
                assert(first_keys(keys, i + 1) =~= before.insert(keys[i as int])) by {
                    assert forall|p: Seq<u8>| #[trigger] first_keys(keys, i + 1).contains(p) implies before.insert(keys[i as int]).contains(p) by {
                        let j = choose|j: int| 0 <= j < i + 1 && keys[j] == p;
                        if j < i {
                            assert(before.contains(p));
                        }
                    }
                    assert forall|p: Seq<u8>| #[trigger] before.insert(keys[i as int]).contains(p) implies first_keys(keys, i + 1).contains(p) by {
                        if p == keys[i as int] {
                        } else {
                            let j = choose|j: int| 0 <= j < i && keys[j] == p;
                        }
                    }
                }
                assert(r.map() =~= attribute_files_of(self@.blobs).restrict(first_keys(keys, i + 1)));
            }
            i = i + 1;
        }
        proof {
            let keys = self.blobs.keys();
            assert forall|p: Seq<u8>| attribute_files_of(self@.blobs).contains_key(p) implies #[trigger] first_keys(keys, n as int).contains(p) by {
                self.blobs.lemma_domain(p);
                let j = choose|j: int| 0 <= j < keys.len() && keys[j] == p;
            }
            assert(attribute_files_of(self@.blobs).restrict(first_keys(keys, n as int)) =~= attribute_files_of(self@.blobs));
        }
        r
    }
}

/// The first `n` paths of a sequence, as a set.
pub open spec fn first_keys(keys: Seq<Seq<u8>>, n: int) -> Set<Seq<u8>> {
    Set::new(|p: Seq<u8>| exists|j: int| 0 <= j < n && keys[j] == p)
}

/// The `.gitattributes` entries of a blob map, path to object id.
pub open spec fn attribute_files_of(blobs: Map<Seq<u8>, (u32, Seq<u8>)>) -> Map<Seq<u8>, Seq<u8>> {
    Map::new(|p: Seq<u8>| blobs.contains_key(p) && is_attributes_path(p), |p: Seq<u8>| blobs[p].1)
}

/// The name git gives the per-directory attributes file.
pub open spec fn attributes_file_name() -> Seq<u8> {
    ascii(".gitattributes"@)
}

/// Whether a repository-relative path names a per-directory attributes file: the file
/// itself at the root, or one at the end of a directory part.
pub open spec fn is_attributes_path(path: Seq<u8>) -> bool {
    path == attributes_file_name() || ends_with(path, ascii("/.gitattributes"@))
}

/// Whether a repository-relative path names a per-directory attributes file.
pub fn is_attributes_file(path: &[u8]) -> (r: bool)
    ensures
        r == is_attributes_path(path@),
{
    proof {
        reveal_strlit(".gitattributes");
        reveal_strlit("/.gitattributes");
    }
    let name = ascii_bytes(".gitattributes");
    let with_slash = ascii_bytes("/.gitattributes");
    proof {
        assert(with_slash@ =~= seq![0x2fu8] + name@);
        if path@.len() > 14 && ends_with(path@, name@) && path@[path@.len() - 15] == 0x2f {
            assert(path@.skip(path@.len() - 15) =~= seq![0x2fu8] + path@.skip(path@.len() - 14));
        }
        if ends_with(path@, with_slash@) {
            assert(path@[path@.len() - 15] == path@.skip(path@.len() - 15)[0]);
            assert(path@.skip(path@.len() - 14) =~= path@.skip(path@.len() - 15).drop_first());
            assert(with_slash@.drop_first() =~= name@);
        }
    }
    same_bytes(path, name) || (path.len() > name.len() && has_suffix(path, name) && path[path.len()
        - name.len() - 1] == 0x2f)
}

/// The directory part of a path, including the trailing slash. Empty at the root.
pub open spec fn directory_part(path: Seq<u8>) -> Seq<u8>
    decreases path.len(),
{
    if path.len() == 0 {
        path
    } else if path.last() == 0x2f {
        path
    } else {
        directory_part(path.drop_last())
    }
}

/// The directory part is a prefix of the path, ends in a slash unless it is empty, and
/// the rest of the path holds no slash.
pub proof fn lemma_directory_part(path: Seq<u8>)
    ensures
        directory_part(path).len() <= path.len(),
        directory_part(path) == path.take(directory_part(path).len() as int),
        directory_part(path).len() == 0 || directory_part(path).last() == 0x2f,
        forall|i: int| directory_part(path).len() <= i < path.len() ==> path[i] != 0x2f,
    decreases path.len(),
{
    if path.len() == 0 {
        assert(path.take(0) =~= path);
    } else if path.last() == 0x2f {
        assert(path.take(path.len() as int) =~= path);
    } else {
        lemma_directory_part(path.drop_last());
        let d = directory_part(path.drop_last());
        assert(path.take(d.len() as int) =~= path.drop_last().take(d.len() as int));
        assert forall|i: int| d.len() <= i < path.len() implies path[i] != 0x2f by {
            if i < path.len() - 1 {
                assert(path[i] == path.drop_last()[i]);
            }
        }
    }
}

/// The directory part of a path, including the trailing slash. Empty at the root.
pub fn directory_of(path: &[u8]) -> (r: &[u8])
    ensures
        r@ == directory_part(path@),
{
    let mut end = path.len();
    assert(path@.take(path@.len() as int) =~= path@);
    while end > 0
        invariant
            end <= path@.len(),
            directory_part(path@) == directory_part(path@.take(end as int)),
        decreases end,
    {
        assert(path@.take(end as int).last() == path@[end - 1]);
        if path[end - 1] == 0x2f {
            let r = vstd::slice::slice_subrange(path, 0, end);
            assert(path@.take(end as int) =~= r@);
            return r;
        }
        assert(path@.take(end as int).drop_last() =~= path@.take(end - 1));
        end = end - 1;
    }
    let r = vstd::slice::slice_subrange(path, 0, 0);
    assert(path@.take(0) =~= r@);
    r
}

/// The value of a string of digits in `radix` (at most 10), most significant first.
pub open spec fn digits_value(digits: Seq<u8>, radix: int) -> int
    decreases digits.len(),
{
    if digits.len() == 0 {
        0
    } else {
        digits_value(digits.drop_last(), radix) * radix + (digits.last() - 0x30)
    }
}

/// A digit in `radix` (at most 10).
pub open spec fn is_radix_digit(b: u8, radix: int) -> bool {
    0x30 <= b < 0x30 + radix
}

/// `text` without one leading `+`, if it has one.
pub open spec fn unsigned_digits(text: Seq<u8>) -> Seq<u8> {
    if text.len() > 0 && text[0] == 0x2b {
        text.drop_first()
    } else {
        text
    }
}

/// Every byte is a digit in `radix`.
pub open spec fn all_radix_digits(digits: Seq<u8>, radix: int) -> bool {
    forall|i: int| 0 <= i < digits.len() ==> is_radix_digit(#[trigger] digits[i], radix)
}

/// What `u32::from_str_radix` accepts, for a radix of at most 10: an optional `+`, then
/// at least one digit, spelling a value that fits in 32 bits.
pub open spec fn radix_u32(text: Seq<u8>, radix: int) -> Option<u32> {
    let digits = unsigned_digits(text);
    if digits.len() > 0 && all_radix_digits(digits, radix) && digits_value(digits, radix) <= u32::MAX {
        Some(digits_value(digits, radix) as u32)
    } else {
        None
    }
}

proof fn lemma_digits_value_grows(digits: Seq<u8>, radix: int, i: int)
    requires
        2 <= radix <= 10,
        0 <= i <= digits.len(),
        forall|j: int| 0 <= j < digits.len() ==> is_radix_digit(#[trigger] digits[j], radix),
    ensures
        0 <= digits_value(digits.take(i), radix) <= digits_value(digits, radix),
    decreases digits.len(),
{
    if digits.len() > 0 {
        if i == digits.len() {
            assert(digits.take(i) =~= digits);
            lemma_digits_value_grows(digits.drop_last(), radix, 0);
        } else {
            assert(digits.take(i) =~= digits.drop_last().take(i));
            lemma_digits_value_grows(digits.drop_last(), radix, i);
        }
        let d = digits_value(digits.drop_last(), radix);
        assert(d * radix >= d) by (nonlinear_arith)
            requires
                d >= 0,
                radix >= 2,
        ;
    } else {
        assert(digits.take(i) =~= digits);
    }
}

proof fn lemma_radix_u32_none(text: Seq<u8>, radix: int, digits: Seq<u8>, k: int)
    requires
        digits == unsigned_digits(text),
        (0 <= k < digits.len() && !is_radix_digit(digits[k], radix)) || (k == -1 && digits_value(digits, radix) > u32::MAX),
    ensures
        radix_u32(text, radix) is None,
{
    if k >= 0 {
        assert(!all_radix_digits(digits, radix));
    }
}

/// Reads an unsigned 32-bit number in `radix` (2 to 10), as `u32::from_str_radix` does.
pub fn parse_radix_u32(text: &[u8], radix: u32) -> (r: Option<u32>)
    requires
        2 <= radix <= 10,
    ensures
        r == radix_u32(text@, radix as int),
{
    let start: usize = if text.len() > 0 && text[0] == 0x2b { 1 } else { 0 };
    let ghost digits = if text@.len() > 0 && text@[0] == 0x2b { text@.drop_first() } else { text@ };
    assert(digits =~= text@.skip(start as int));
    if start == text.len() {
        return None;
    }
    let mut value: u32 = 0;
    let mut i = start;
    assert(digits.take(0) =~= Seq::<u8>::empty());
    while i < text.len()
        invariant
            start <= i <= text@.len(),
            start < text@.len(),
            digits == text@.skip(start as int),
            digits == unsigned_digits(text@),
            2 <= radix <= 10,
            forall|j: int| 0 <= j < i - start ==> is_radix_digit(#[trigger] digits[j], radix as int),
            value == digits_value(digits.take(i - start), radix as int),
        decreases text@.len() - i,
    {
        let b = text[i];
        assert(digits[i - start] == b);
        if b < 0x30 || b - 0x30 >= radix as u8 {
            proof { lemma_radix_u32_none(text@, radix as int, digits, i - start); }
            return None;
        }
        let digit = (b - 0x30) as u64;
        assert(digits.take(i - start + 1).drop_last() =~= digits.take(i - start));
        assert(value as u64 * radix as u64 <= 0xffff_ffffu64 * 10) by (nonlinear_arith)
            requires
                value <= 0xffff_ffffu64,
                radix <= 10,
        ;
        let next: u64 = value as u64 * radix as u64 + digit;
        assert(next == digits_value(digits.take(i - start + 1), radix as int));
        if next > 0xffff_ffffu64 {
            proof {
                if forall|j: int| 0 <= j < digits.len() ==> is_radix_digit(#[trigger] digits[j], radix as int) {
                    lemma_digits_value_grows(digits, radix as int, i - start + 1);
                    lemma_radix_u32_none(text@, radix as int, digits, -1);
                } else {
                    let k = choose|k: int| 0 <= k < digits.len() && !is_radix_digit(#[trigger] digits[k], radix as int);
                    lemma_radix_u32_none(text@, radix as int, digits, k);
                }
            }
            return None;
        }
        value = next as u32;
        i = i + 1;
    }
    assert(digits.take(i - start) =~= digits);
    Some(value)
}

/// One record of `git ls-tree -r -t -z`, as the tree listing takes it in.
pub enum TreeEntry {
    Blob { path: Vec<u8>, mode: u32, oid: Oid },
    Tree { path: Vec<u8>, oid: Oid },
    Gitlink { path: Vec<u8> },
}

/// What a record says, as values.
pub enum TreeEntryView {
    Blob { path: Seq<u8>, mode: u32, oid: Seq<u8> },
    Tree { path: Seq<u8>, oid: Seq<u8> },
    Gitlink { path: Seq<u8> },
}

impl View for TreeEntry {
    type V = TreeEntryView;

    open spec fn view(&self) -> TreeEntryView {
        match self {
            TreeEntry::Blob { path, mode, oid } => TreeEntryView::Blob { path: path@, mode: *mode, oid: oid@ },
            TreeEntry::Tree { path, oid } => TreeEntryView::Tree { path: path@, oid: oid@ },
            TreeEntry::Gitlink { path } => TreeEntryView::Gitlink { path: path@ },
        }
    }
}

/// The first position of `b` in `s`.
pub open spec fn first_index_of(s: Seq<u8>, b: u8) -> Option<int>
    decreases s.len(),
{
    if s.len() == 0 {
        None
    } else if s[0] == b {
        Some(0)
    } else {
        match first_index_of(s.drop_first(), b) {
            Some(i) => Some(i + 1),
            None => None,
        }
    }
}

pub proof fn lemma_first_index_of(s: Seq<u8>, b: u8, i: int)
    requires
        0 <= i <= s.len(),
        forall|j: int| 0 <= j < i ==> s[j] != b,
    ensures
        i < s.len() && s[i] == b ==> first_index_of(s, b) == Some(i),
        i == s.len() ==> first_index_of(s, b) is None,
    decreases s.len(),
{
    if s.len() > 0 && i > 0 {
        lemma_first_index_of(s.drop_first(), b, i - 1);
    }
}

/// Where `b` first stands in `s`.
pub fn find_byte(s: &[u8], b: u8) -> (r: Option<usize>)
    ensures
        match r {
            Some(i) => i < s@.len() && first_index_of(s@, b) == Some(i as int),
            None => first_index_of(s@, b) is None,
        },
{
    let mut i: usize = 0;
    while i < s.len()
        invariant
            i <= s@.len(),
            forall|j: int| 0 <= j < i ==> s@[j] != b,
        decreases s@.len() - i,
    {
        if s[i] == b {
            proof { lemma_first_index_of(s@, b, i as int); }
            return Some(i);
        }
        i = i + 1;
    }
    proof { lemma_first_index_of(s@, b, i as int); }
    None
}

/// What one non-empty record of `git ls-tree -r -t -z` says: `<mode> SP <kind> SP <oid>
/// TAB <path>`, with the mode in octal and further space-separated fields ignored.
pub open spec fn record_entry(record: Seq<u8>) -> Option<TreeEntryView> {
    match first_index_of(record, 0x09) {
        None => None,
        Some(tab) => {
            let fields = split_on(record.take(tab), 0x20);
            let path = record.skip(tab + 1);
            if fields.len() < 3 {
                None
            } else {
                match radix_u32(fields[0], 8) {
                    None => None,
                    Some(mode) => if !is_object_id_hex(fields[2]) {
                        None
                    } else {
                        let oid = hex_decoded(fields[2]);
                        if fields[1] == ascii("blob"@) {
                            Some(TreeEntryView::Blob { path, mode, oid })
                        } else if fields[1] == ascii("tree"@) {
                            Some(TreeEntryView::Tree { path, oid })
                        } else if fields[1] == ascii("commit"@) {
                            Some(TreeEntryView::Gitlink { path })
                        } else {
                            None
                        }
                    },
                }
            }
        },
    }
}

/// Reads one record.
pub fn parse_record(record: &[u8]) -> (r: Option<TreeEntry>)
    ensures
        match r {
            Some(entry) => record_entry(record@) == Some(entry@),
            None => record_entry(record@) is None,
        },
{
    let tab = match find_byte(record, 0x09) {
        Some(tab) => tab,
        None => return None,
    };
    let meta = vstd::slice::slice_subrange(record, 0, tab);
    assert(meta@ =~= record@.take(tab as int));
    let fields = split(meta, 0x20);
    let ghost spec_fields = split_on(record@.take(tab as int), 0x20);
    assert(views(fields@) == spec_fields);
    if fields.len() < 3 {
        return None;
    }
    assert(fields@[0]@ == spec_fields[0]);
    assert(fields@[1]@ == spec_fields[1]);
    assert(fields@[2]@ == spec_fields[2]);
    let mode = match parse_radix_u32(fields[0].as_slice(), 8) {
        Some(mode) => mode,
        None => return None,
    };
    let oid = match Oid::from_hex(fields[2].as_slice()) {
        Some(oid) => oid,
        None => return None,
    };
    let n = record.len();
    let path = copy_range(record, tab + 1, n);
    assert(path@ =~= record@.skip(tab + 1));
    proof {
        reveal_strlit("blob");
        reveal_strlit("tree");
        reveal_strlit("commit");
    }
    let kind = fields[1].as_slice();
    if same_bytes(kind, ascii_bytes("blob")) {
        Some(TreeEntry::Blob { path, mode, oid })
    } else if same_bytes(kind, ascii_bytes("tree")) {
        Some(TreeEntry::Tree { path, oid })
    } else if same_bytes(kind, ascii_bytes("commit")) {
        Some(TreeEntry::Gitlink { path })
    } else {
        None
    }
}

/// A listing with one more record taken in; a later record for a path replaces an
/// earlier one of the same kind.
pub open spec fn take_in(listing: ListingView, entry: TreeEntryView) -> ListingView {
    match entry {
        TreeEntryView::Blob { path, mode, oid } => ListingView {
            blobs: listing.blobs.insert(path, (mode, oid)),
            ..listing
        },
        TreeEntryView::Tree { path, oid } => ListingView { trees: listing.trees.insert(path, oid), ..listing },
        TreeEntryView::Gitlink { path } => ListingView {
            gitlinks: listing.gitlinks.insert(path),
            ..listing
        },
    }
}

/// The listing the first `n` records describe, or `None` if one of them does not parse.
/// Empty records are skipped.
pub open spec fn listing_of(records: Seq<Seq<u8>>, n: int) -> Option<ListingView>
    decreases n,
{
    if n <= 0 {
        Some(
            ListingView {
                blobs: Map::empty(),
                trees: Map::empty(),
                gitlinks: Set::empty(),
            },
        )
    } else {
        match listing_of(records, n - 1) {
            None => None,
            Some(listing) => if records[n - 1].len() == 0 {
                Some(listing)
            } else {
                match record_entry(records[n - 1]) {
                    None => None,
                    Some(entry) => Some(take_in(listing, entry)),
                }
            },
        }
    }
}

/// What `git ls-tree -r -t -z` output describes: its NUL-separated records, taken in
/// order, or `None` if any non-empty record does not parse.
pub open spec fn parsed_listing(output: Seq<u8>) -> Option<ListingView> {
    listing_of(split_on(output, 0), split_on(output, 0).len() as int)
}

proof fn lemma_listing_of_none(records: Seq<Seq<u8>>, n: int, m: int)
    requires
        0 <= n <= m,
        listing_of(records, n) is None,
    ensures
        listing_of(records, m) is None,
    decreases m - n,
{
    if m > n {
        lemma_listing_of_none(records, n, m - 1);
    }
}

/// Parses the NUL-separated records `git ls-tree -r -t -z` writes.
pub fn parse(output: &[u8]) -> (r: Option<Listing>)
    ensures
        match r {
            Some(listing) => listing.wf() && parsed_listing(output@) == Some(listing@),
            None => parsed_listing(output@) is None,
        },
{
    let records = split(output, 0);
    let ghost spec_records = split_on(output@, 0);
    assert(spec_records.len() == records@.len());
    let mut listing = Listing::new();
    let mut i: usize = 0;
    assert(listing@ == listing_of(spec_records, 0).unwrap());
    while i < records.len()
        invariant
            spec_records == split_on(output@, 0),
            views(records@) == spec_records,
            i <= records@.len(),
            listing.wf(),
            listing_of(spec_records, i as int) == Some(listing@),
        decreases records@.len() - i,
    {
        let record = records[i].as_slice();
        assert(record@ == spec_records[i as int]);
        if record.len() > 0 {
            match parse_record(record) {
                None => {
                    proof { lemma_listing_of_none(spec_records, i + 1, spec_records.len() as int); }

                    return None;
                },
                Some(entry) => {
                    match entry {
                        TreeEntry::Blob { path, mode, oid } => {
                            listing.blobs.insert(path, Blob { mode, oid });
                        },
                        TreeEntry::Tree { path, oid } => {
                            listing.trees.insert(path, oid);
                        },
                        TreeEntry::Gitlink { path } => {
                            listing.gitlinks.insert(path);
                        },
                    }
                },
            }
        }
        i = i + 1;
    }
    Some(listing)
}

/// The path a record names.
pub open spec fn entry_path(entry: TreeEntryView) -> Seq<u8> {
    match entry {
        TreeEntryView::Blob { path, .. } => path,
        TreeEntryView::Tree { path, .. } => path,
        TreeEntryView::Gitlink { path } => path,
    }
}

/// Every record that reads, whatever its kind, names exactly the bytes after its first
/// tab: `<meta> TAB <path>` is keyed by `<path>` itself.
pub proof fn law_records_are_keyed_by_the_bytes_after_the_tab(meta: Seq<u8>, path: Seq<u8>)
    requires
        forall|i: int| 0 <= i < meta.len() ==> meta[i] != 0x09,
    ensures
        record_entry(meta + seq![0x09u8] + path) matches Some(entry) ==> entry_path(entry) == path,
{
    let record = meta + seq![0x09u8] + path;
    assert forall|j: int| 0 <= j < meta.len() implies record[j] != 0x09 by {
        assert(record[j] == meta[j]);
    }
    assert(record[meta.len() as int] == 0x09);
    lemma_first_index_of(record, 0x09, meta.len() as int);
    assert(record.skip(meta.len() as int + 1) =~= path);
}

/// Whether a listing holds `entry`'s path under its kind.
pub open spec fn lists_path(listing: ListingView, entry: TreeEntryView) -> bool {
    match entry {
        TreeEntryView::Blob { path, .. } => listing.blobs.contains_key(path),
        TreeEntryView::Tree { path, .. } => listing.trees.contains_key(path),
        TreeEntryView::Gitlink { path } => listing.gitlinks.contains(path),
    }
}

/// Every non-empty record of the first `n` is listed, under its kind, at the path it names.
proof fn lemma_listing_of_keeps(records: Seq<Seq<u8>>, n: int)
    requires
        0 <= n <= records.len(),
    ensures
        listing_of(records, n) matches Some(listing) ==> forall|k: int|
            0 <= k < n && records[k].len() > 0 ==> (#[trigger] record_entry(records[k]) matches Some(entry) && lists_path(
                listing,
                entry,
            )),
    decreases n,
{
    if n > 0 {
        lemma_listing_of_keeps(records, n - 1);
    }
}

/// Parsing lists every record of the output: a listing comes back only if each non-empty
/// record reads, and then each is found, under its kind, at the path it names (a later
/// record for the same path may replace what it records, never its key).
pub proof fn law_every_record_is_listed(output: Seq<u8>)
    ensures
        parsed_listing(output) matches Some(listing) ==> forall|k: int|
            0 <= k < split_on(output, 0).len() && split_on(output, 0)[k].len() > 0 ==> (#[trigger] record_entry(
                split_on(output, 0)[k],
            ) matches Some(entry) && lists_path(listing, entry)),
{
    lemma_listing_of_keeps(split_on(output, 0), split_on(output, 0).len() as int);
}

} // verus!
