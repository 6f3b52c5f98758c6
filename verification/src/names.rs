//! The table of the names that a protobuf file defines or imports, and the
//! errors reported when a name is defined twice.
use vstd::prelude::*;
use vstd::string::*;
use vstd::hash_map::StringHashMap;
use std::borrow::Cow;
use crate::check::CheckError;
use crate::descriptor::{FieldLabel, FieldType};
use crate::inversion_list::InversionList;
use crate::naming::{
    lemma_parse_namespace_shorter, make_name, parse_namespace, spec_make_name,
    spec_parse_namespace,
};
use crate::span::{make_span, source_bytes, spec_make_span, SourceSpan};

verus! {

/// What a name in the table is the name of.
#[derive(Clone, Debug, PartialEq)]
pub enum DefinitionKind {
    Package,
    Message { extension_numbers: InversionList },
    Enum,
    EnumValue { parent: String, number: i32 },
    Oneof,
    Field {
        number: i32,
        ty: Option<FieldType>,
        field_type_name: Option<String>,
        label: Option<FieldLabel>,
        oneof_index: Option<i32>,
        extendee: Option<String>,
    },
    Service,
    Method,
}

/// A definition kind with its strings taken as sequences of characters.
pub enum KindView {
    Package,
    Message { extension_numbers: Seq<(i32, i32)> },
    Enum,
    EnumValue { parent: Seq<char>, number: i32 },
    Oneof,
    Field {
        number: i32,
        ty: Option<FieldType>,
        field_type_name: Option<Seq<char>>,
        label: Option<FieldLabel>,
        oneof_index: Option<i32>,
        extendee: Option<Seq<char>>,
    },
    Service,
    Method,
}

/// An optional string taken as an optional sequence of characters.
pub open spec fn opt_view(s: Option<String>) -> Option<Seq<char>> {
    match s {
        Some(s) => Some(s@),
        None => None,
    }
}

/// An optional string slice taken as an optional sequence of characters.
pub open spec fn opt_str_view(s: Option<&str>) -> Option<Seq<char>> {
    match s {
        Some(s) => Some(s@),
        None => None,
    }
}

/// An equal copy of an optional string.
pub fn copy_opt_string(s: &Option<String>) -> (res: Option<String>)
    ensures
        opt_view(res) == opt_view(*s),
{
    match s {
        Some(s) => Some(s.clone()),
        None => None,
    }
}

impl View for DefinitionKind {
    type V = KindView;

    open spec fn view(&self) -> KindView {
        match self {
            DefinitionKind::Package => KindView::Package,
            DefinitionKind::Message { extension_numbers } => KindView::Message {
                extension_numbers: extension_numbers@,
            },
            DefinitionKind::Enum => KindView::Enum,
            DefinitionKind::EnumValue { parent, number } => KindView::EnumValue {
                parent: parent@,
                number: *number,
            },
            DefinitionKind::Oneof => KindView::Oneof,
            DefinitionKind::Field {
                number,
                ty,
                field_type_name,
                label,
                oneof_index,
                extendee,
            } => KindView::Field {
                number: *number,
                ty: *ty,
                field_type_name: opt_view(*field_type_name),
                label: *label,
                oneof_index: *oneof_index,
                extendee: opt_view(*extendee),
            },
            DefinitionKind::Service => KindView::Service,
            DefinitionKind::Method => KindView::Method,
        }
    }
}

impl DefinitionKind {
    /// A kind equal to this one.
    pub fn duplicate(&self) -> (res: DefinitionKind)
        ensures
            res@ == self@,
    {
        match self {
            DefinitionKind::Package => DefinitionKind::Package,
            DefinitionKind::Message { extension_numbers } => DefinitionKind::Message {
                extension_numbers: extension_numbers.duplicate(),
            },
            DefinitionKind::Enum => DefinitionKind::Enum,
            DefinitionKind::EnumValue { parent, number } => DefinitionKind::EnumValue {
                parent: parent.clone(),
                number: *number,
            },
            DefinitionKind::Oneof => DefinitionKind::Oneof,
            DefinitionKind::Field {
                number,
                ty,
                field_type_name,
                label,
                oneof_index,
                extendee,
            } => DefinitionKind::Field {
                number: *number,
                ty: *ty,
                field_type_name: copy_opt_string(field_type_name),
                label: *label,
                oneof_index: *oneof_index,
                extendee: copy_opt_string(extendee),
            },
            DefinitionKind::Service => DefinitionKind::Service,
            DefinitionKind::Method => DefinitionKind::Method,
        }
    }
}

/// Where a name that is defined twice was defined: in an imported file, at
/// a place of the file being checked, or at an unknown place.
#[derive(Clone, Debug, PartialEq)]
pub enum NameLocation {
    Import(String),
    Root(SourceSpan),
    Unknown,
}

/// A name location with the file name taken as a sequence of characters.
pub enum LocationView {
    Import(Seq<char>),
    Root(SourceSpan),
    Unknown,
}

impl View for NameLocation {
    type V = LocationView;

    open spec fn view(&self) -> LocationView {
        match self {
            NameLocation::Import(file) => LocationView::Import(file@),
            NameLocation::Root(span) => LocationView::Root(*span),
            NameLocation::Unknown => LocationView::Unknown,
        }
    }
}

/// A definition from an imported file is located by that file, whatever
/// its span; one of the file being checked by its span, where it has one.
pub open spec fn spec_name_location(file: Option<Seq<char>>, span: Option<SourceSpan>) -> LocationView {
    match (file, span) {
        (Some(file), _) => LocationView::Import(file),
        (None, Some(span)) => LocationView::Root(span),
        (None, None) => LocationView::Unknown,
    }
}

impl NameLocation {
    pub fn new(file: Option<String>, span: Option<SourceSpan>) -> (res: NameLocation)
        ensures
            res@ == spec_name_location(opt_view(file), span),
    {
        match (file, span) {
            (Some(file), _) => NameLocation::Import(file),
            (None, Some(span)) => NameLocation::Root(span),
            (None, None) => NameLocation::Unknown,
        }
    }
}

/// A name defined twice: where it was defined first and where again.
#[derive(Clone, Debug, PartialEq)]
pub struct DuplicateNameError {
    pub name: String,
    pub first: NameLocation,
    pub second: NameLocation,
}

/// A duplicate-name error with its strings taken as sequences of characters.
pub struct DuplicateView {
    pub name: Seq<char>,
    pub first: LocationView,
    pub second: LocationView,
}

impl View for DuplicateNameError {
    type V = DuplicateView;

    open spec fn view(&self) -> DuplicateView {
        DuplicateView { name: self.name@, first: self.first@, second: self.second@ }
    }
}

/// The message of a duplicate-name error.
pub open spec fn spec_duplicate_message(e: DuplicateView) -> Seq<char> {
    match (e.first, e.second) {
        (LocationView::Import(first), LocationView::Import(second)) => "name '"@ + e.name
            + "' is defined both in imported file '"@ + first + "' and '"@ + second + "'"@,
        (LocationView::Import(first), _) => "name '"@ + e.name
            + "' is already defined in imported file '"@ + first + "'"@,
        _ => "name '"@ + e.name + "' is defined twice"@,
    }
}

/// The labelled spans of a duplicate-name error: both definitions when both
/// are in the file being checked, else the one that is, else none.
pub open spec fn spec_duplicate_labels(e: DuplicateView) -> Option<Seq<(Seq<char>, SourceSpan)>> {
    match (e.first, e.second) {
        (LocationView::Root(first), LocationView::Root(second)) => Some(
            seq![
                ("first defined here…"@, first),
                ("…and defined again here"@, second),
            ],
        ),
        (_, LocationView::Root(span)) => Some(seq![("defined here"@, span)]),
        (LocationView::Root(span), _) => Some(seq![("defined here"@, span)]),
        _ => None,
    }
}

impl DuplicateNameError {
    /// The error's message.
    pub fn message(&self) -> (res: String)
        ensures
            res@ == spec_duplicate_message(self@),
    {
        let mut res = String::from_str("name '");
        res.append(self.name.as_str());
        match (&self.first, &self.second) {
            (NameLocation::Import(first), NameLocation::Import(second)) => {
                res.append("' is defined both in imported file '");
                res.append(first.as_str());
                res.append("' and '");
                res.append(second.as_str());
                res.append("'");
            },
            (NameLocation::Import(first), _) => {
                res.append("' is already defined in imported file '");
                res.append(first.as_str());
                res.append("'");
            },
            _ => {
                res.append("' is defined twice");
            },
        }
        res
    }

    /// The error's labelled spans of the source, if it has any.
    pub fn labels(&self) -> (res: Option<Vec<(String, SourceSpan)>>)
        ensures
            match (res, spec_duplicate_labels(self@)) {
                (Some(v), Some(s)) => v@.len() == s.len() && forall|i: int|
                    0 <= i < s.len() ==> (#[trigger] v@[i]).0@ == s[i].0 && v@[i].1 == s[i].1,
                (None, None) => true,
                _ => false,
            },
    {
        match (&self.first, &self.second) {
            (NameLocation::Root(first), NameLocation::Root(second)) => {
                let mut v = Vec::new();
                v.push((String::from_str("first defined here…"), *first));
                v.push((String::from_str("…and defined again here"), *second));
                Some(v)
            },
            (_, NameLocation::Root(span)) | (NameLocation::Root(span), _) => {
                let mut v = Vec::new();
                v.push((String::from_str("defined here"), *span));
                Some(v)
            },
            _ => None,
        }
    }
}

/// A name's record in the table.
struct Entry {
    kind: DefinitionKind,
    span: Option<[i32; 4]>,
    public: bool,
    file: Option<String>,
}

/// A record of the table with its strings taken as sequences of characters:
/// what the name is the name of, the line/column span of its definition,
/// whether files that import the table's file see it, and, for a name that
/// came from an import, the imported file.
pub struct EntryView {
    pub kind: KindView,
    pub span: Option<Seq<i32>>,
    pub public: bool,
    pub file: Option<Seq<char>>,
}

/// An optional four-element span taken as an optional sequence.
pub open spec fn span_view(span: Option<[i32; 4]>) -> Option<Seq<i32>> {
    match span {
        Some(s) => Some(s@),
        None => None,
    }
}

impl View for Entry {
    type V = EntryView;

    closed spec fn view(&self) -> EntryView {
        EntryView {
            kind: self.kind@,
            span: span_view(self.span),
            public: self.public,
            file: opt_view(self.file),
        }
    }
}

/// The table as a map from names to records, with the order in which the
/// names were first added.
pub struct MapModel {
    pub entries: Map<Seq<char>, EntryView>,
    pub order: Seq<Seq<char>>,
}

impl MapModel {
    /// Every name of the table occurs once in the order, and nothing else does.
    pub open spec fn wf(self) -> bool {
        &&& self.order.no_duplicates()
        &&& forall|k: Seq<char>| #[trigger] self.entries.contains_key(k) <==> self.order.contains(k)
    }

    /// The table with no names.
    pub open spec fn empty() -> MapModel {
        MapModel { entries: Map::empty(), order: Seq::empty() }
    }
}

/// The byte range of a recorded line/column span in the source text, if both exist.
pub open spec fn spec_entry_span(span: Option<Seq<i32>>, source: Option<Seq<u8>>) -> Option<
    SourceSpan,
> {
    match span {
        Some(s) => spec_make_span(s, source),
        None => None,
    }
}

/// Adding a definition: a new name is recorded at the end of the order; a
/// package name that is already a package is accepted and changes nothing;
/// any other name already in the table is an error that locates both
/// definitions, and changes nothing.
pub open spec fn spec_add(
    m: MapModel,
    name: Seq<char>,
    kind: KindView,
    span: Option<Seq<i32>>,
    file: Option<Seq<char>>,
    source: Option<Seq<u8>>,
    public: bool,
) -> (MapModel, Option<DuplicateView>) {
    if !m.entries.contains_key(name) {
        (
            MapModel {
                entries: m.entries.insert(
                    name,
                    EntryView { kind, span, public, file },
                ),
                order: m.order.push(name),
            },
            None,
        )
    } else if kind is Package && m.entries[name].kind is Package {
        (m, None)
    } else {
        let existing = m.entries[name];
        (
            m,
            Some(
                DuplicateView {
                    name,
                    first: spec_name_location(
                        existing.file,
                        spec_entry_span(existing.span, source),
                    ),
                    second: spec_name_location(file, spec_entry_span(span, source)),
                },
            ),
        )
    }
}

/// Merging the public names of `other` from position `i` of its order on:
/// each is added as from `file`, visible to importers when `public`; the
/// first error stops the merge, with the names before it added.
pub open spec fn spec_merge_from(
    m: MapModel,
    other: MapModel,
    i: int,
    file: Seq<char>,
    source: Option<Seq<u8>>,
    public: bool,
) -> (MapModel, Option<DuplicateView>)
    decreases other.order.len() - i,
{
    if i < 0 || i >= other.order.len() {
        (m, None)
    } else {
        let name = other.order[i];
        let e = other.entries[name];
        if e.public {
            let (m2, err) = spec_add(m, name, e.kind, e.span, Some(file), source, public);
            if err is Some {
                (m2, err)
            } else {
                spec_merge_from(m2, other, i + 1, file, source, public)
            }
        } else {
            spec_merge_from(m, other, i + 1, file, source, public)
        }
    }
}

/// Merging all public names of `other`.
pub open spec fn spec_merge(
    m: MapModel,
    other: MapModel,
    file: Seq<char>,
    source: Option<Seq<u8>>,
    public: bool,
) -> (MapModel, Option<DuplicateView>) {
    spec_merge_from(m, other, 0, file, source, public)
}

impl Default for NameMap {
    fn default() -> (res: NameMap)
        ensures
            res@ == MapModel::empty(),
            res.wf(),
    {
        NameMap::new()
    }
}

/// Looking `name` up in every scope from `context` outwards, innermost
/// first: the absolute name and kind of the first one found.
pub open spec fn spec_resolve_in_scopes(
    entries: Map<Seq<char>, EntryView>,
    context: Seq<char>,
    name: Seq<char>,
) -> Option<(Seq<char>, KindView)>
    decreases context.len(),
{
    let full = spec_make_name(context, name);
    if entries.contains_key(full) {
        Some((seq!['.'] + full, entries[full].kind))
    } else if context.len() == 0 {
        None
    } else {
        proof {
            lemma_parse_namespace_shorter(context);
        }
        spec_resolve_in_scopes(entries, spec_parse_namespace(context), name)
    }
}

/// Resolving `name` in `context`: a name with a leading `.` is absolute and
/// looked up as it stands; any other is looked up in the enclosing scopes.
pub open spec fn spec_resolve(
    entries: Map<Seq<char>, EntryView>,
    context: Seq<char>,
    name: Seq<char>,
) -> Option<(Seq<char>, KindView)> {
    if name.len() > 0 && name[0] == '.' {
        let absolute = name.skip(1);
        if entries.contains_key(absolute) {
            Some((name, entries[absolute].kind))
        } else {
            None
        }
    } else {
        spec_resolve_in_scopes(entries, context, name)
    }
}

/// A simple map of all definitions in a proto file for checking downstream files.
pub struct NameMap {
    map: StringHashMap<Entry>,
    order: Vec<String>,
}

impl View for NameMap {
    type V = MapModel;

    closed spec fn view(&self) -> MapModel {
        MapModel {
            entries: self.map@.map_values(|e: Entry| e@),
            order: self.order@.map_values(|s: String| s@),
        }
    }
}

impl NameMap {
    proof fn lemma_view_entry(&self, k: Seq<char>)
        ensures
            self@.entries.contains_key(k) == self.map@.contains_key(k),
            self.map@.contains_key(k) ==> self@.entries[k] == self.map@[k]@,
    {
    }

    /// The table is well formed.
    pub open spec fn wf(&self) -> bool {
        self@.wf()
    }

    /// The empty table.
    pub fn new() -> (res: NameMap)
        ensures
            res@ == MapModel::empty(),
            res.wf(),
    {
        let res = NameMap { map: StringHashMap::new(), order: Vec::new() };
        assert(res@.entries =~= Map::empty());
        assert(res@.order =~= Seq::empty());
        res
    }

    /// Records a definition of `name`, unless the name is already in the
    /// table (see `spec_add`).
    pub(crate) fn add(
        &mut self,
        name: String,
        kind: DefinitionKind,
        span: Option<[i32; 4]>,
        file: Option<&str>,
        source: Option<&str>,
        public: bool,
    ) -> (res: Result<(), DuplicateNameError>)
        requires
            old(self).wf(),
        ensures
            final(self).wf(),
            ({
                let (m, e) = spec_add(
                    old(self)@,
                    name@,
                    kind@,
                    span_view(span),
                    opt_str_view(file),
                    source_bytes(source),
                    public,
                );
                &&& final(self)@ == m
                &&& match res {
                    Ok(()) => e is None,
                    Err(err) => e == Some(err@),
                }
            }),
    {
        let ghost old_view = self@;
        if !self.map.contains_key(name.as_str()) {
            let entry = Entry {
                kind,
                span,
                public,
                file: match file {
                    Some(f) => Some(String::from_str(f)),
                    None => None,
                },
            };
            let key = name.clone();
            let ghost e_view = entry@;
            self.map.insert(name, entry);
            self.order.push(key);
            proof {
                assert(self@.entries =~= old_view.entries.insert(key@, e_view));
                assert(self@.order =~= old_view.order.push(key@));
                assert(!old_view.order.contains(key@));
                assert forall|k: Seq<char>| #[trigger]
                    self@.entries.contains_key(k) <==> self@.order.contains(k) by {
                    if k != key@ {
                        if self@.order.contains(k) {
                            let j = choose|j: int| 0 <= j < self@.order.len() && self@.order[j] == k;
                            assert(old_view.order[j] == k);
                        }
                        if old_view.order.contains(k) {
                            let j = choose|j: int| 0 <= j < old_view.order.len() && old_view.order[j] == k;
                            assert(self@.order[j] == k);
                        }
                    } else {
                        assert(self@.order[self@.order.len() - 1] == k);
                    }
                }
            }
            Ok(())
        } else {
            let existing = self.map.get(name.as_str()).unwrap();
            match (&kind, &existing.kind) {
                (DefinitionKind::Package, DefinitionKind::Package) => Ok(()),
                _ => {
                    let first_span = match existing.span {
                        Some(s) => make_span(s, source),
                        None => None,
                    };
                    let first = NameLocation::new(copy_opt_string(&existing.file), first_span);
                    let second_span = match span {
                        Some(s) => make_span(s, source),
                        None => None,
                    };
                    let second_file = match file {
                        Some(f) => Some(String::from_str(f)),
                        None => None,
                    };
                    let second = NameLocation::new(second_file, second_span);
                    Err(DuplicateNameError { name, first, second })
                },
            }
        }
    }

    /// Adds the public names of `other`, as imported from `file` and visible
    /// to importers when `public` (see `spec_merge`).
    pub(crate) fn merge(
        &mut self,
        other: &NameMap,
        file: String,
        source: Option<&str>,
        public: bool,
    ) -> (res: Result<(), CheckError>)
        requires
            old(self).wf(),
            other.wf(),
        ensures
            final(self).wf(),
            ({
                let (m, e) = spec_merge(
                    old(self)@,
                    other@,
                    file@,
                    source_bytes(source),
                    public,
                );
                &&& final(self)@ == m
                &&& match res {
                    Ok(()) => e is None,
                    Err(err) => err matches CheckError::DuplicateName(d) && e == Some(d@),
                }
            }),
    {
        let mut i: usize = 0;
        while i < other.order.len()
            invariant
                self.wf(),
                other.wf(),
                i <= other.order.len(),
                spec_merge_from(self@, other@, i as int, file@, source_bytes(source), public)
                    == spec_merge_from(old(self)@, other@, 0, file@, source_bytes(source), public),
            decreases other.order.len() - i,
        {
            let key = &other.order[i];
            proof {
                assert(other@.order[i as int] == key@);
                assert(other@.order.contains(key@));
            }
            proof {
                other.lemma_view_entry(key@);
            }
            let entry = other.map.get(key.as_str()).unwrap();
            let ghost before = self@;
            if entry.public {
                let r = self.add(
                    key.clone(),
                    entry.kind.duplicate(),
                    entry.span,
                    Some(file.as_str()),
                    source,
                    public,
                );
                match r {
                    Err(e) => {
                        assert(spec_merge_from(before, other@, i as int, file@, source_bytes(source), public)
                            == (self@, Some(e@)));
                        return Err(CheckError::DuplicateName(e));
                    },
                    Ok(()) => {},
                }
            }
            i = i + 1;
        }
        Ok(())
    }

    /// Every name of the table with its kind, in the order the names were added.
    pub fn iter(&self) -> (res: Vec<(&str, &DefinitionKind)>)
        requires
            self.wf(),
        ensures
            res@.len() == self@.order.len(),
            forall|i: int|
                0 <= i < res@.len() ==> (#[trigger] res@[i]).0@ == self@.order[i]
                    && res@[i].1@ == self@.entries[self@.order[i]].kind,
    {
        let mut res: Vec<(&str, &DefinitionKind)> = Vec::new();
        let mut i: usize = 0;
        while i < self.order.len()
            invariant
                self.wf(),
                i <= self.order.len(),
                res@.len() == i,
                forall|j: int|
                    0 <= j < i ==> (#[trigger] res@[j]).0@ == self@.order[j]
                        && res@[j].1@ == self@.entries[self@.order[j]].kind,
            decreases self.order.len() - i,
        {
            let key = self.order[i].as_str();
            proof {
                assert(self@.order[i as int] == key@);
                assert(self@.order.contains(key@));
            }
            proof {
                self.lemma_view_entry(key@);
            }
            let entry = self.map.get(key).unwrap();
            res.push((key, &entry.kind));
            i = i + 1;
        }
        res
    }

    /// The kind of definition that `name` names, if it is in the table.
    pub fn get(&self, name: &str) -> (res: Option<&DefinitionKind>)
        ensures
            match res {
                Some(k) => self@.entries.contains_key(name@) && k@ == self@.entries[name@].kind,
                None => !self@.entries.contains_key(name@),
            },
    {
        match self.map.get(name) {
            Some(e) => Some(&e.kind),
            None => None,
        }
    }

    /// Resolves `name` as used in the scope `context` (see `spec_resolve`):
    /// the absolute name found, with its kind.
    pub fn resolve<'a>(&self, context: &str, name: &'a str) -> (res: Option<
        (Cow<'a, str>, &DefinitionKind),
    >)
        ensures
            match (res, spec_resolve(self@.entries, context@, name@)) {
                (Some((full, kind)), Some((spec_full, spec_kind))) => full@ == spec_full
                    && kind@ == spec_kind,
                (None, None) => true,
                _ => false,
            },
            res matches Some((full, _)) ==> (full is Borrowed <==> (name@.len() > 0 && name@[0]
                == '.')),
    {
        if !name.is_empty() && name.get_char(0) == '.' {
            let absolute = name.substring_char(1, name.unicode_len());
            proof {
                assert(absolute@ =~= name@.skip(1));
            }
            match self.get(absolute) {
                Some(def) => Some((Cow::Borrowed(name), def)),
                None => None,
            }
        } else {
            let ghost context_start = context@;
            let mut scope: &str = context;
            loop
                invariant
                    context_start == context@,
                    spec_resolve(self@.entries, context_start, name@)
                        == spec_resolve_in_scopes(self@.entries, context_start, name@),
                    spec_resolve_in_scopes(self@.entries, scope@, name@)
                        == spec_resolve_in_scopes(self@.entries, context_start, name@),
                decreases scope@.len(),
            {
                let relative = make_name(scope, name);
                match self.get(relative.as_str()) {
                    Some(def) => {
                        let mut full = String::from_str(".");
                        full.append(relative.as_str());
                        proof {
                            reveal_strlit(".");
                            assert(full@ == seq!['.'] + relative@);
                            assert(spec_resolve_in_scopes(self@.entries, scope@, name@) == Some((full@, def@)));
                        }
                        return Some((Cow::Owned(full), def));
                    },
                    None => {},
                }
                if scope.is_empty() {
                    assert(spec_resolve_in_scopes(self@.entries, scope@, name@) is None);
                    return None;
                }
                proof {
                    lemma_parse_namespace_shorter(scope@);
                }
                scope = parse_namespace(scope);
            }
        }
    }
}

/// Adding keeps the table well formed.
pub proof fn lemma_add_wf(
    m: MapModel,
    name: Seq<char>,
    kind: KindView,
    span: Option<Seq<i32>>,
    file: Option<Seq<char>>,
    source: Option<Seq<u8>>,
    public: bool,
)
    requires
        m.wf(),
    ensures
        spec_add(m, name, kind, span, file, source, public).0.wf(),
{
    if !m.entries.contains_key(name) {
        let m2 = spec_add(m, name, kind, span, file, source, public).0;
        assert forall|k: Seq<char>| #[trigger] m2.entries.contains_key(k) <==> m2.order.contains(k) by {
            if k != name {
                if m2.order.contains(k) {
                    let j = choose|j: int| 0 <= j < m2.order.len() && m2.order[j] == k;
                    assert(m.order[j] == k);
                }
                if m.order.contains(k) {
                    let j = choose|j: int| 0 <= j < m.order.len() && m.order[j] == k;
                    assert(m2.order[j] == k);
                }
            } else {
                assert(m2.order[m2.order.len() - 1] == k);
            }
        }
    }
}

/// A new name is recorded, with what it names, where, from which file and
/// how visible; every other name keeps its record. Reading the name back
/// gives the definition just added.
pub proof fn lemma_add_new_name(
    m: MapModel,
    name: Seq<char>,
    kind: KindView,
    span: Option<Seq<i32>>,
    file: Option<Seq<char>>,
    source: Option<Seq<u8>>,
    public: bool,
)
    requires
        m.wf(),
        !m.entries.contains_key(name),
    ensures
        ({
            let (m2, e) = spec_add(m, name, kind, span, file, source, public);
            &&& e is None
            &&& m2.wf()
            &&& m2.entries.contains_key(name)
            &&& m2.entries[name] == (EntryView { kind, span, public, file })
            &&& forall|k: Seq<char>|
                k != name ==> (#[trigger] m2.entries.contains_key(k) == m.entries.contains_key(k))
                    && (m.entries.contains_key(k) ==> m2.entries[k] == m.entries[k])
        }),
{
    lemma_add_wf(m, name, kind, span, file, source, public);
}

/// A name already in the table, other than a package declared again as a
/// package, is refused: the table is unchanged, and the error names it and
/// locates its first definition by the recorded one.
pub proof fn lemma_add_existing_name(
    m: MapModel,
    name: Seq<char>,
    kind: KindView,
    span: Option<Seq<i32>>,
    file: Option<Seq<char>>,
    source: Option<Seq<u8>>,
    public: bool,
)
    requires
        m.entries.contains_key(name),
        !(kind is Package && m.entries[name].kind is Package),
    ensures
        ({
            let (m2, e) = spec_add(m, name, kind, span, file, source, public);
            &&& m2 == m
            &&& e is Some
            &&& e.unwrap().name == name
            &&& e.unwrap().first == spec_name_location(
                m.entries[name].file,
                spec_entry_span(m.entries[name].span, source),
            )
            &&& e.unwrap().second == spec_name_location(file, spec_entry_span(span, source))
        }),
{
}

/// A package may be declared any number of times: declaring it again is
/// accepted and changes nothing.
pub proof fn lemma_add_package_again(
    m: MapModel,
    name: Seq<char>,
    span: Option<Seq<i32>>,
    file: Option<Seq<char>>,
    source: Option<Seq<u8>>,
    public: bool,
)
    requires
        m.entries.contains_key(name),
        m.entries[name].kind is Package,
    ensures
        spec_add(m, name, KindView::Package, span, file, source, public) == (m, None::<DuplicateView>),
{
}

/// Merging never removes a name nor changes its record.
pub proof fn lemma_merge_from_keeps(
    m: MapModel,
    other: MapModel,
    i: int,
    file: Seq<char>,
    source: Option<Seq<u8>>,
    public: bool,
)
    ensures
        ({
            let m2 = spec_merge_from(m, other, i, file, source, public).0;
            forall|k: Seq<char>|
                #[trigger] m.entries.contains_key(k) ==> m2.entries.contains_key(k) && m2.entries[k]
                    == m.entries[k]
        }),
    decreases other.order.len() - i,
{
    if 0 <= i < other.order.len() {
        let name = other.order[i];
        let e = other.entries[name];
        if e.public {
            let (m2, err) = spec_add(m, name, e.kind, e.span, Some(file), source, public);
            assert(forall|k: Seq<char>|
                #[trigger] m.entries.contains_key(k) ==> m2.entries.contains_key(k) && m2.entries[k]
                    == m.entries[k]);
            if err is None {
                lemma_merge_from_keeps(m2, other, i + 1, file, source, public);
            }
        } else {
            lemma_merge_from_keeps(m, other, i + 1, file, source, public);
        }
    }
}

/// A merge that succeeds adds exactly the public names of the other table
/// that were not already present: each as imported from `file`, visible to
/// importers as `public` says, with the kind and span it had. Private
/// names are never passed on.
pub proof fn lemma_merge_success(
    m: MapModel,
    other: MapModel,
    i: int,
    file: Seq<char>,
    source: Option<Seq<u8>>,
    public: bool,
)
    requires
        m.wf(),
        other.wf(),
        0 <= i <= other.order.len(),
        spec_merge_from(m, other, i, file, source, public).1 is None,
    ensures
        ({
            let m2 = spec_merge_from(m, other, i, file, source, public).0;
            &&& m2.wf()
            &&& forall|k: Seq<char>| #[trigger]
                m2.entries.contains_key(k) <==> (m.entries.contains_key(k) || (exists|j: int|
                    i <= j < other.order.len() && other.order[j] == k && other.entries[k].public))
            &&& forall|k: Seq<char>|
                #[trigger] m2.entries.contains_key(k) && !m.entries.contains_key(k) ==> m2.entries[k]
                    == (EntryView {
                    kind: other.entries[k].kind,
                    span: other.entries[k].span,
                    public,
                    file: Some(file),
                })
        }),
    decreases other.order.len() - i,
{
    let m2 = spec_merge_from(m, other, i, file, source, public).0;
    if i < other.order.len() {
        let name = other.order[i];
        let e = other.entries[name];
        assert(other.entries.contains_key(name)) by {
            assert(other.order.contains(name));
        }
        if e.public {
            let (m1, err) = spec_add(m, name, e.kind, e.span, Some(file), source, public);
            lemma_add_wf(m, name, e.kind, e.span, Some(file), source, public);
            lemma_merge_success(m1, other, i + 1, file, source, public);
            lemma_merge_from_keeps(m1, other, i + 1, file, source, public);
            assert forall|k: Seq<char>| #[trigger]
                m2.entries.contains_key(k) <==> (m.entries.contains_key(k) || (exists|j: int|
                    i <= j < other.order.len() && other.order[j] == k && other.entries[k].public)) by {
                if exists|j: int| i <= j < other.order.len() && other.order[j] == k && other.entries[k].public {
                    let j = choose|j: int| i <= j < other.order.len() && other.order[j] == k && other.entries[k].public;
                    if j > i {
                        assert(i + 1 <= j < other.order.len() && other.order[j] == k && other.entries[k].public);
                    }
                }
                if m1.entries.contains_key(k) && !m.entries.contains_key(k) {
                    assert(k == name);
                    assert(i <= i < other.order.len() && other.order[i] == k && other.entries[k].public);
                }
                if exists|j: int| i + 1 <= j < other.order.len() && other.order[j] == k && other.entries[k].public {
                    let j = choose|j: int| i + 1 <= j < other.order.len() && other.order[j] == k && other.entries[k].public;
                    assert(i <= j < other.order.len() && other.order[j] == k && other.entries[k].public);
                }
            }
            assert forall|k: Seq<char>|
                #[trigger] m2.entries.contains_key(k) && !m.entries.contains_key(k) implies m2.entries[k]
                    == (EntryView {
                    kind: other.entries[k].kind,
                    span: other.entries[k].span,
                    public,
                    file: Some(file),
                }) by {
                if k == name {
                    assert(m1.entries.contains_key(k));
                } else if m1.entries.contains_key(k) {
                    assert(m.entries.contains_key(k));
                }
            }
        } else {
            lemma_merge_success(m, other, i + 1, file, source, public);
            assert forall|k: Seq<char>| #[trigger]
                m2.entries.contains_key(k) <==> (m.entries.contains_key(k) || (exists|j: int|
                    i <= j < other.order.len() && other.order[j] == k && other.entries[k].public)) by {
                if exists|j: int| i <= j < other.order.len() && other.order[j] == k && other.entries[k].public {
                    let j = choose|j: int| i <= j < other.order.len() && other.order[j] == k && other.entries[k].public;
                    if j == i {
                        assert(other.entries[name].public);
                    } else {
                        assert(i + 1 <= j < other.order.len() && other.order[j] == k && other.entries[k].public);
                    }
                }
                if exists|j: int| i + 1 <= j < other.order.len() && other.order[j] == k && other.entries[k].public {
                    let j = choose|j: int| i + 1 <= j < other.order.len() && other.order[j] == k && other.entries[k].public;
                    assert(i <= j < other.order.len() && other.order[j] == k && other.entries[k].public);
                }
            }
        }
    }
}

/// A resolved name is absolute, and the table records it, without its
/// leading `.`, with the kind that resolution gives.
pub proof fn lemma_resolve_found(
    entries: Map<Seq<char>, EntryView>,
    context: Seq<char>,
    name: Seq<char>,
)
    ensures
        spec_resolve(entries, context, name) matches Some((full, kind)) ==> full.len() > 0
            && full[0] == '.' && entries.contains_key(full.skip(1)) && entries[full.skip(1)].kind
            == kind,
{
    if !(name.len() > 0 && name[0] == '.') {
        lemma_resolve_in_scopes_found(entries, context, name);
    }
}

proof fn lemma_resolve_in_scopes_found(
    entries: Map<Seq<char>, EntryView>,
    context: Seq<char>,
    name: Seq<char>,
)
    ensures
        spec_resolve_in_scopes(entries, context, name) matches Some((full, kind)) ==> full.len() > 0
            && full[0] == '.' && entries.contains_key(full.skip(1)) && entries[full.skip(1)].kind
            == kind,
    decreases context.len(),
{
    let full = spec_make_name(context, name);
    assert((seq!['.'] + full).skip(1) =~= full);
    if !entries.contains_key(full) && context.len() > 0 {
        lemma_parse_namespace_shorter(context);
        lemma_resolve_in_scopes_found(entries, spec_parse_namespace(context), name);
    }
}

/// The innermost scope wins: a relative name defined in the current scope
/// resolves to that definition, whatever the enclosing scopes define.
pub proof fn lemma_resolve_innermost(
    entries: Map<Seq<char>, EntryView>,
    context: Seq<char>,
    name: Seq<char>,
)
    requires
        !(name.len() > 0 && name[0] == '.'),
        entries.contains_key(spec_make_name(context, name)),
    ensures
        spec_resolve(entries, context, name) == Some(
            (
                seq!['.'] + spec_make_name(context, name),
                entries[spec_make_name(context, name)].kind,
            ),
        ),
{
}

/// A relative name that the current scope does not define is resolved as
/// in the enclosing scope.
pub proof fn lemma_resolve_enclosing(
    entries: Map<Seq<char>, EntryView>,
    context: Seq<char>,
    name: Seq<char>,
)
    requires
        !(name.len() > 0 && name[0] == '.'),
        context.len() > 0,
        !entries.contains_key(spec_make_name(context, name)),
    ensures
        spec_resolve(entries, context, name) == spec_resolve(
            entries,
            spec_parse_namespace(context),
            name,
        ),
{
}

/// An absolute name is looked up as it stands, whatever the context.
pub proof fn lemma_resolve_absolute(
    entries: Map<Seq<char>, EntryView>,
    context: Seq<char>,
    name: Seq<char>,
)
    ensures
        spec_resolve(entries, context, seq!['.'] + name) == if entries.contains_key(name) {
            Some((seq!['.'] + name, entries[name].kind))
        } else {
            None
        },
{
    assert((seq!['.'] + name).skip(1) =~= name);
}

} // verus!
