//! Works out which paths a checkout would rewrite on the way to the working tree.
//!
//! A path whose bytes get converted cannot be judged by the index stat cache alone.
use vstd::prelude::*;

use crate::bytes::{ascii, ascii_bytes, lossy_text, same_bytes, same_text, split, split_on, text_lossy, views};
use crate::pathmap::PathMap;

verus! {

/// What `git check-attr` reports for one attribute on one path.
#[derive(Debug, Clone, PartialEq, Eq)]
pub enum Value {
    Unspecified,
    Unset,
    IsSet,
    Named(String),
}

/// A reported value, with a named value as its text.
pub enum ValueView {
    Unspecified,
    Unset,
    IsSet,
    Named(Seq<char>),
}

impl View for Value {
    type V = ValueView;

    open spec fn view(&self) -> ValueView {
        match self {
            Value::Unspecified => ValueView::Unspecified,
            Value::Unset => ValueView::Unset,
            Value::IsSet => ValueView::IsSet,
            Value::Named(name) => ValueView::Named(name@),
        }
    }
}

/// The value `git check-attr` means by the text it printed.
pub open spec fn reported_value(info: Seq<u8>) -> ValueView {
    if info == ascii("unspecified"@) {
        ValueView::Unspecified
    } else if info == ascii("unset"@) {
        ValueView::Unset
    } else if info == ascii("set"@) {
        ValueView::IsSet
    } else {
        ValueView::Named(lossy_text(info))
    }
}

/// A set value, or a named one.
pub open spec fn value_applies(value: ValueView) -> bool {
    value is IsSet || value is Named
}

impl Value {
    /// Reads the value text `git check-attr` printed.
    pub fn parse(info: &[u8]) -> (r: Value)
        ensures
            r@ == reported_value(info@),
    {
        proof {
            reveal_strlit("unspecified");
            reveal_strlit("unset");
            reveal_strlit("set");
        }
        if same_bytes(info, ascii_bytes("unspecified")) {
            Value::Unspecified
        } else if same_bytes(info, ascii_bytes("unset")) {
            Value::Unset
        } else if same_bytes(info, ascii_bytes("set")) {
            Value::IsSet
        } else {
            Value::Named(text_lossy(info))
        }
    }

    /// Whether the attribute is in force: set, or given a value.
    pub fn applies(&self) -> (r: bool)
        ensures
            r == value_applies(self@),
    {
        matches!(self, Value::IsSet | Value::Named(_))
    }

    /// A second copy of this value.
    pub fn duplicate(&self) -> (r: Value)
        ensures
            r@ == self@,
    {
        match self {
            Value::Unspecified => Value::Unspecified,
            Value::Unset => Value::Unset,
            Value::IsSet => Value::IsSet,
            Value::Named(name) => Value::Named(name.clone()),
        }
    }
}

/// The line-ending configuration in force for a worktree.
#[derive(Debug, Clone, Copy, PartialEq, Eq)]
pub struct LineEndings {
    /// `core.autocrlf` is `true` or `input`; either way checkout and add disagree about
    /// line endings, so a clean file need not equal what a checkout would write.
    pub autocrlf: bool,
    /// `core.eol` asks for CRLF in the working tree.
    pub crlf: bool,
}

impl LineEndings {
    /// Reads `core.autocrlf` and `core.eol`, each absent when unset.
    pub fn from_config(autocrlf: Option<&str>, eol: Option<&str>) -> (r: Self)
        ensures
            r.autocrlf == (autocrlf matches Some(value) && (value@ == "true"@ || value@ == "input"@)),
            r.crlf == (eol matches Some(value) && value@ == "crlf"@),
    {
        let autocrlf = match autocrlf {
            Some(value) => same_text(value, "true") || same_text(value, "input"),
            None => false,
        };
        let crlf = match eol {
            Some(value) => same_text(value, "crlf"),
            None => false,
        };
        LineEndings { autocrlf, crlf }
    }
}

/// Where `name` stands among `names`, if it stands anywhere.
pub open spec fn name_position(names: Seq<Seq<char>>, name: Seq<char>) -> int {
    choose|i: int| 0 <= i < names.len() && names[i] == name
}

/// The attributes reported for one path: a map from attribute name to value.
#[derive(Debug, Clone, PartialEq, Eq)]
pub struct Attributes {
    entries: Vec<(String, Value)>,
}

impl View for Attributes {
    type V = Map<Seq<char>, ValueView>;

    closed spec fn view(&self) -> Map<Seq<char>, ValueView> {
        Map::new(
            |name: Seq<char>| self.names().contains(name),
            |name: Seq<char>| self.values()[name_position(self.names(), name)],
        )
    }
}

impl Attributes {
    closed spec fn names(&self) -> Seq<Seq<char>> {
        Seq::new(self.entries@.len(), |i: int| self.entries@[i].0@)
    }

    closed spec fn values(&self) -> Seq<ValueView> {
        Seq::new(self.entries@.len(), |i: int| self.entries@[i].1@)
    }

    /// No attribute is listed twice.
    pub closed spec fn wf(&self) -> bool {
        forall|i: int, j: int| 0 <= i < j < self.names().len() ==> self.names()[i] != self.names()[j]
    }

    proof fn lemma_at(&self, i: int)
        requires
            self.wf(),
            0 <= i < self.names().len(),
        ensures
            self@.contains_key(self.names()[i]),
            self@[self.names()[i]] == self.values()[i],
    {
        let name = self.names()[i];
        assert(self.names().contains(name));
        let j = name_position(self.names(), name);
        assert(j == i);
    }

    /// No attributes at all.
    pub fn new() -> (r: Attributes)
        ensures
            r.wf(),
            r@ == Map::<Seq<char>, ValueView>::empty(),
    {
        let r = Attributes { entries: Vec::new() };
        assert(r@ =~= Map::<Seq<char>, ValueView>::empty());
        r
    }

    /// Where `name` is listed.
    fn position(&self, name: &str) -> (r: Option<usize>)
        requires
            self.wf(),
        ensures
            match r {
                Some(i) => i < self.names().len() && self.names()[i as int] == name@,
                None => !self@.contains_key(name@),
            },
    {
        let mut i: usize = 0;
        while i < self.entries.len()
            invariant
                i <= self.names().len(),
                self.names().len() == self.entries@.len(),
                forall|j: int| 0 <= j < i ==> self.names()[j] != name@,
            decreases self.entries@.len() - i,
        {
            if same_text(self.entries[i].0.as_str(), name) {
                return Some(i);
            }
            i = i + 1;
        }
        None
    }

    /// The value reported for `name`.
    pub fn get(&self, name: &str) -> (r: Option<&Value>)
        requires
            self.wf(),
        ensures
            r is Some <==> self@.contains_key(name@),
            r matches Some(value) ==> value@ == self@[name@],
    {
        match self.position(name) {
            Some(i) => {
                proof { self.lemma_at(i as int); }
                Some(&self.entries[i].1)
            },
            None => None,
        }
    }

    /// Records `value` for `name`, replacing what was reported before.
    pub fn insert(&mut self, name: String, value: Value)
        requires
            old(self).wf(),
        ensures
            final(self).wf(),
            final(self)@ == old(self)@.insert(name@, value@),
    {
        let ghost old_names = self.names();
        let ghost old_values = self.values();
        let ghost old_view = self@;
        let ghost n = name@;
        let ghost v = value@;
        match self.position(name.as_str()) {
            Some(i) => {
                self.entries.set(i, (name, value));
                assert(self.names() =~= old_names);
                assert(self.values() =~= old_values.update(i as int, v));
                assert forall|q: Seq<char>| #[trigger] self@.contains_key(q) == old_view.insert(n, v).contains_key(q) by {
                    if q == n {
                        assert(self.names()[i as int] == q);
                    }
                }
                assert forall|q: Seq<char>| self@.contains_key(q) implies #[trigger] self@[q] == old_view.insert(n, v)[q] by {
                    let j = name_position(self.names(), q);
                    self.lemma_at(j);
                    if j != i {
                        assert(old_names[j] == q);
                        assert(old_names.contains(q));
                        let k = name_position(old_names, q);
                        assert(k == j);
                    }
                }
                assert(self@ =~= old_view.insert(n, v));
            },
            None => {
                self.entries.push((name, value));
                assert(self.names() =~= old_names.push(n));
                assert(self.values() =~= old_values.push(v));
                assert forall|q: Seq<char>| #[trigger] self@.contains_key(q) == old_view.insert(n, v).contains_key(q) by {
                    if q == n {
                        assert(self.names()[old_names.len() as int] == q);
                    } else if old_names.contains(q) {
                        let j = choose|j: int| 0 <= j < old_names.len() && old_names[j] == q;
                        assert(self.names()[j] == q);
                    } else if self.names().contains(q) {
                        let j = choose|j: int| 0 <= j < self.names().len() && self.names()[j] == q;
                        assert(old_names[j] == q);
                    }
                }
                assert forall|q: Seq<char>| self@.contains_key(q) implies #[trigger] self@[q] == old_view.insert(n, v)[q] by {
                    let j = name_position(self.names(), q);
                    self.lemma_at(j);
                    if j < old_names.len() {
                        assert(old_names[j] == q);
                        assert(old_names.contains(q));
                        let k = name_position(old_names, q);
                        assert(k == j);
                    }
                }
                assert(self@ =~= old_view.insert(n, v));
            },
        }
    }

    /// A second copy of these attributes.
    pub fn duplicate(&self) -> (r: Attributes)
        requires
            self.wf(),
        ensures
            r.wf(),
            r@ == self@,
    {
        let mut entries: Vec<(String, Value)> = Vec::new();
        let mut i: usize = 0;
        while i < self.entries.len()
            invariant
                i <= self.entries@.len(),
                entries@.len() == i,
                forall|j: int| 0 <= j < i ==> #[trigger] entries@[j].0@ == self.entries@[j].0@ && entries@[j].1@
                    == self.entries@[j].1@,
            decreases self.entries@.len() - i,
        {
            let name = self.entries[i].0.clone();
            let value = self.entries[i].1.duplicate();
            entries.push((name, value));
            i = i + 1;
        }
        let r = Attributes { entries };
        assert forall|j: int| 0 <= j < r.entries@.len() implies r.values()[j] == self.values()[j] && r.names()[j] == self.names()[j] by {
            assert(r.entries@[j].0@ == self.entries@[j].0@);
        }
        assert(r.names() =~= self.names());
        assert(r.values() =~= self.values());
        assert(r@ =~= self@);
        r
    }
}

/// The value an attribute has for a path, `Unspecified` where nothing was reported.
pub open spec fn attribute(values: Map<Seq<char>, ValueView>, name: Seq<char>) -> ValueView {
    if values.contains_key(name) {
        values[name]
    } else {
        ValueView::Unspecified
    }
}

/// Whether checking a path out would write something other than the blob's own bytes:
/// `ident`, `filter` or `working-tree-encoding` is in force; or the path is not marked
/// binary (`-text`) and `eol`, `text`, `core.autocrlf` or `core.eol=crlf` asks for a
/// line-ending conversion.
pub open spec fn rewrites(values: Map<Seq<char>, ValueView>, endings: LineEndings) -> bool {
    ||| value_applies(attribute(values, "ident"@))
    ||| value_applies(attribute(values, "filter"@))
    ||| value_applies(attribute(values, "working-tree-encoding"@))
    ||| (!(attribute(values, "text"@) is Unset) && (value_applies(attribute(values, "eol"@))
        || value_applies(attribute(values, "text"@)) || endings.autocrlf || endings.crlf))
}

/// Whether `name` is in force for the path.
fn in_force(values: &Attributes, name: &str) -> (r: bool)
    requires
        values.wf(),
    ensures
        r == value_applies(attribute(values@, name@)),
{
    match values.get(name) {
        Some(value) => value.applies(),
        None => false,
    }
}

/// Whether checking this path out would write something other than the blob's own bytes.
///
/// A conversion breaks the rule the clone plan rests on. The index stat cache says the
/// working-tree file is *clean*, which means the file run back through the clean filter
/// equals the blob; it does not mean the file equals what a checkout would write. The two
/// part company whenever the conversion is not reversible: a file with LF endings under
/// `eol=crlf` is clean and yet a checkout would write CRLF. Such a path is left to git,
/// which writes the converted form.
pub fn converts(values: &Attributes, endings: LineEndings) -> (r: bool)
    requires
        values.wf(),
    ensures
        r == rewrites(values@, endings),
{
    if in_force(values, "ident") || in_force(values, "filter") || in_force(
        values,
        "working-tree-encoding",
    ) {
        return true;
    }
    let text_unset = match values.get("text") {
        Some(value) => matches!(value, Value::Unset),
        None => false,
    };
    if text_unset {
        return false;
    }
    if in_force(values, "eol") {
        return true;
    }
    if in_force(values, "text") {
        return true;
    }
    endings.autocrlf || endings.crlf
}

/// Whether the triple starting at field `3 * k` is read: all three fields are there and
/// the path is not empty.
pub open spec fn triple_read(fields: Seq<Seq<u8>>, k: int) -> bool {
    3 * k + 3 <= fields.len() && fields[3 * k].len() > 0
}

/// How many triples are read from field `3 * k` on.
pub open spec fn triples_read_from(fields: Seq<Seq<u8>>, k: int) -> nat
    decreases fields.len() - 3 * k,
{
    if k < 0 || !triple_read(fields, k) {
        0
    } else {
        1 + triples_read_from(fields, k + 1)
    }
}

/// The attributes the first `n` triples report, path to name to value; a later report
/// for the same path and name replaces an earlier one.
pub open spec fn reported_attributes(fields: Seq<Seq<u8>>, n: int) -> Map<
    Seq<u8>,
    Map<Seq<char>, ValueView>,
>
    decreases n,
{
    if n <= 0 {
        Map::empty()
    } else {
        let before = reported_attributes(fields, n - 1);
        let path = fields[3 * (n - 1)];
        let earlier = if before.contains_key(path) {
            before[path]
        } else {
            Map::empty()
        };
        before.insert(
            path,
            earlier.insert(lossy_text(fields[3 * (n - 1) + 1]), reported_value(fields[3 * (n - 1) + 2])),
        )
    }
}

/// What `git check-attr -z` output reports: its NUL-separated fields read three at a time
/// as path, attribute and value, up to the first empty path or incomplete triple.
pub open spec fn check_attr_report(output: Seq<u8>) -> Map<Seq<u8>, Map<Seq<char>, ValueView>> {
    reported_attributes(split_on(output, 0), triples_read_from(split_on(output, 0), 0) as int)
}

proof fn lemma_triples_read_from(fields: Seq<Seq<u8>>, k: int)
    requires
        0 <= k,
        forall|j: int| 0 <= j < k ==> triple_read(fields, j),
    ensures
        triples_read_from(fields, 0) == k + triples_read_from(fields, k),
    decreases k,
{
    if k > 0 {
        lemma_triples_read_from(fields, k - 1);
    }
}

/// Reads the `<path> NUL <attribute> NUL <value> NUL` triples `git check-attr -z` writes.
pub fn parse_check_attr(output: &[u8]) -> (r: PathMap<Attributes>)
    ensures
        r.wf(),
        forall|a: Attributes| #[trigger] r.stored().contains(a) ==> a.wf(),
        r.map() == check_attr_report(output@),
{
    let fields = split(output, 0);
    let ghost spec_fields = split_on(output@, 0);
    let mut paths: PathMap<Attributes> = PathMap::new();
    let mut k: usize = 0;
    while k < fields.len() / 3 && fields[3 * k].len() > 0
        invariant
            spec_fields == split_on(output@, 0),
            views(fields@) == spec_fields,
            3 * k <= fields@.len(),
            forall|j: int| 0 <= j < k ==> triple_read(spec_fields, j),
            paths.wf(),
            forall|a: Attributes| #[trigger] paths.stored().contains(a) ==> a.wf(),
            paths.map() == reported_attributes(spec_fields, k as int),
        decreases fields@.len() - 3 * k,
    {
        let path = fields[3 * k].as_slice();
        let name = text_lossy(fields[3 * k + 1].as_slice());
        let value = Value::parse(fields[3 * k + 2].as_slice());
        assert(path@ == spec_fields[3 * k as int]);
        assert(fields@[3 * k + 1]@ == spec_fields[3 * k + 1]);
        assert(fields@[3 * k + 2]@ == spec_fields[3 * k + 2]);
        let mut attributes = match paths.get(path) {
            Some(existing) => existing.duplicate(),
            None => Attributes::new(),
        };
        attributes.insert(name, value);
        paths.insert(crate::bytes::copy_bytes(path), attributes);
        k = k + 1;
    }
    proof {
        lemma_triples_read_from(spec_fields, k as int);
        assert(!triple_read(spec_fields, k as int));
    }
    paths
}

/// A path marked binary (`-text`) is never rewritten, whatever the line-ending
/// configuration, unless `ident`, a filter or a working-tree encoding applies to it.
pub proof fn law_binary_paths_are_never_rewritten(values: Map<Seq<char>, ValueView>, endings: LineEndings)
    requires
        attribute(values, "text"@) is Unset,
        !value_applies(attribute(values, "ident"@)),
        !value_applies(attribute(values, "filter"@)),
        !value_applies(attribute(values, "working-tree-encoding"@)),
    ensures
        !rewrites(values, endings),
{
}

/// `ident`, a filter or a working-tree encoding always rewrites the bytes, binary or not.
pub proof fn law_content_conversions_always_rewrite(values: Map<Seq<char>, ValueView>, endings: LineEndings)
    requires
        value_applies(attribute(values, "ident"@)) || value_applies(attribute(values, "filter"@))
            || value_applies(attribute(values, "working-tree-encoding"@)),
    ensures
        rewrites(values, endings),
{
}

/// A path with no attributes of its own is rewritten exactly when the configuration asks
/// for line-ending conversion.
pub proof fn law_plain_paths_follow_the_configuration(endings: LineEndings)
    ensures
        rewrites(Map::empty(), endings) == (endings.autocrlf || endings.crlf),
{
}

/// Any path not marked binary whose `eol` attribute is set, or names a line ending, is
/// rewritten on checkout, whatever the configuration and its other attributes.
pub proof fn law_eol_in_force_rewrites(values: Map<Seq<char>, ValueView>, endings: LineEndings)
    requires
        values.contains_key("eol"@),
        values["eol"@] is IsSet || values["eol"@] is Named,
        !(values.contains_key("text"@) && values["text"@] is Unset),
    ensures
        rewrites(values, endings),
{
}

/// Any path whose `text` attribute is set, or names a value, is rewritten on checkout,
/// whatever the configuration and its other attributes.
pub proof fn law_text_in_force_rewrites(values: Map<Seq<char>, ValueView>, endings: LineEndings)
    requires
        values.contains_key("text"@),
        values["text"@] is IsSet || values["text"@] is Named,
    ensures
        rewrites(values, endings),
{
}

/// A path that is not marked binary is rewritten whenever the configuration asks for
/// line-ending conversion (`core.autocrlf` or `core.eol=crlf`), whatever its attributes.
pub proof fn law_configured_conversion_rewrites(values: Map<Seq<char>, ValueView>, endings: LineEndings)
    requires
        endings.autocrlf || endings.crlf,
        !(values.contains_key("text"@) && values["text"@] is Unset),
    ensures
        rewrites(values, endings),
{
}

} // verus!
