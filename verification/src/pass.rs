//! Collecting the names that a protobuf file defines and imports into a
//! `NameMap`: the definitions a file makes, in the order it makes them, and
//! the pass over the file that records them.
use vstd::prelude::*;
use vstd::string::*;
use crate::check::CheckError;
use crate::descriptor::{
    opt_i32, opt_str, opt_str_value, spec_field_label, spec_field_type, spec_locations,
    DescriptorProto, EnumDescriptorProto, FieldDescriptorProto, FieldLabel, FieldType,
    FileDescriptorProto, Location, OneofDescriptorProto, ServiceDescriptorProto, ENUM_NAME,
    ENUM_VALUE, ENUM_VALUE_NAME, FIELD_NAME, FILE_ENUM_TYPE, FILE_EXTENSION, FILE_MESSAGE_TYPE,
    FILE_PACKAGE, FILE_SERVICE, MESSAGE_ENUM_TYPE, MESSAGE_EXTENSION, MESSAGE_FIELD,
    MESSAGE_NAME, MESSAGE_NESTED_TYPE, MESSAGE_ONEOF_DECL, METHOD_NAME, ONEOF_NAME,
    SERVICE_METHOD, SERVICE_NAME,
};
use crate::inversion_list::InversionList;
use crate::parsed::{find_file, ParsedFile, ParsedFileMap};
use crate::names::{
    spec_add, spec_merge, DefinitionKind, DuplicateView, KindView, LocationView, MapModel,
    NameMap,
};
use crate::naming::{
    dot_free, last_dot, lemma_last_dot, lemma_parse_namespace_of_make_name, make_name,
    rfind_dot, spec_make_name, spec_parse_namespace,
};
use crate::span::{normalize_span, source_bytes, spec_normalize_span};

verus! {

// ---------------------------------------------------------------------------
// Locations
// ---------------------------------------------------------------------------

/// Lexicographic order of two location paths: -1, 0 or 1.
pub open spec fn path_order(a: Seq<i32>, b: Seq<i32>) -> int
    decreases a.len(),
{
    if a.len() == 0 {
        if b.len() == 0 {
            0
        } else {
            -1
        }
    } else if b.len() == 0 {
        1
    } else if a[0] < b[0] {
        -1
    } else if a[0] > b[0] {
        1
    } else {
        path_order(a.skip(1), b.skip(1))
    }
}

/// Paths are in order 0 exactly when they are equal.
pub proof fn lemma_path_order_zero(a: Seq<i32>, b: Seq<i32>)
    ensures
        (path_order(a, b) == 0) == (a == b),
        -1 <= path_order(a, b) <= 1,
    decreases a.len(),
{
    if a.len() > 0 && b.len() > 0 && a[0] == b[0] {
        lemma_path_order_zero(a.skip(1), b.skip(1));
        if a.skip(1) == b.skip(1) {
            assert(a =~= seq![a[0]] + a.skip(1));
            assert(b =~= seq![b[0]] + b.skip(1));
        }
    }
    if a.len() == 0 && b.len() == 0 {
        assert(a =~= b);
    }
}

/// Lexicographic order of two location paths: -1, 0 or 1.
pub fn compare_paths(a: &[i32], b: &[i32]) -> (res: i32)
    ensures
        res as int == path_order(a@, b@),
{
    let mut i: usize = 0;
    assert(a@.skip(0) =~= a@);
    assert(b@.skip(0) =~= b@);
    while i < a.len() && i < b.len() && a[i] == b[i]
        invariant
            i <= a.len(),
            i <= b.len(),
            path_order(a@, b@) == path_order(a@.skip(i as int), b@.skip(i as int)),
        decreases a.len() - i,
    {
        assert(a@.skip(i as int).skip(1) =~= a@.skip(i + 1));
        assert(b@.skip(i as int).skip(1) =~= b@.skip(i + 1));
        i = i + 1;
    }
    if i == a.len() {
        if i == b.len() {
            0
        } else {
            -1
        }
    } else if i == b.len() {
        1
    } else if a[i] < b[i] {
        -1
    } else {
        1
    }
}

/// Binary search for `path` among the locations `lo` up to `hi`: the probe
/// is the middle location; a smaller path sends the search right, a larger
/// one left.
pub open spec fn search_locations(locs: Seq<Location>, path: Seq<i32>, lo: int, hi: int) -> Option<
    int,
>
    decreases hi - lo,
{
    if lo >= hi {
        None
    } else {
        let mid = lo + (hi - lo) / 2;
        let o = path_order(locs[mid].path@, path);
        if o == 0 {
            Some(mid)
        } else if o < 0 {
            search_locations(locs, path, mid + 1, hi)
        } else {
            search_locations(locs, path, lo, mid)
        }
    }
}

/// The span recorded for `path`: that of the location the search finds,
/// brought to four elements.
pub open spec fn spec_span_at(locs: Seq<Location>, path: Seq<i32>) -> Option<Seq<i32>> {
    match search_locations(locs, path, 0, locs.len() as int) {
        Some(i) => spec_normalize_span(locs[i].span@),
        None => None,
    }
}

/// Index of the location with the given path, by binary search.
pub fn find_location(locs: &[Location], path: &[i32]) -> (res: Option<usize>)
    ensures
        match res {
            Some(i) => search_locations(locs@, path@, 0, locs@.len() as int) == Some(i as int)
                && i < locs@.len(),
            None => search_locations(locs@, path@, 0, locs@.len() as int) is None,
        },
{
    let mut lo: usize = 0;
    let mut hi: usize = locs.len();
    while lo < hi
        invariant
            lo <= hi <= locs@.len(),
            search_locations(locs@, path@, lo as int, hi as int) == search_locations(
                locs@,
                path@,
                0,
                locs@.len() as int,
            ),
        decreases hi - lo,
    {
        let mid = lo + (hi - lo) / 2;
        let o = compare_paths(locs[mid].path.as_slice(), path);
        if o == 0 {
            return Some(mid);
        } else if o < 0 {
            lo = mid + 1;
        } else {
            hi = mid;
        }
    }
    None
}

// ---------------------------------------------------------------------------
// The definitions of a file
// ---------------------------------------------------------------------------

/// One definition of a name: the fully qualified name, what it names, and
/// the location path of its name in the file.
pub struct Def {
    pub name: Seq<char>,
    pub kind: KindView,
    pub path: Seq<i32>,
}

/// The kind that a field records.
pub open spec fn field_kind(f: FieldDescriptorProto) -> KindView {
    KindView::Field {
        number: opt_i32(f.number),
        ty: spec_field_type(opt_i32(f.field_type)),
        field_type_name: crate::names::opt_view(f.field_type_name),
        label: spec_field_label(opt_i32(f.label)),
        oneof_index: f.oneof_index,
        extendee: crate::names::opt_view(f.extendee),
    }
}

/// The definitions of the fields `fs`, in scope `scope`, the i-th at path `prefix.i`.
pub open spec fn fields_defs(scope: Seq<char>, prefix: Seq<i32>, fs: Seq<FieldDescriptorProto>) -> Seq<
    Def,
>
    decreases fs.len(),
{
    if fs.len() == 0 {
        Seq::empty()
    } else {
        let i = fs.len() - 1;
        fields_defs(scope, prefix, fs.drop_last()).push(
            Def {
                name: spec_make_name(scope, opt_str(fs[i].name)),
                kind: field_kind(fs[i]),
                path: prefix.push(i as i32).push(FIELD_NAME),
            },
        )
    }
}

/// The definitions of the oneofs `os`.
pub open spec fn oneofs_defs(scope: Seq<char>, prefix: Seq<i32>, os: Seq<OneofDescriptorProto>) -> Seq<
    Def,
>
    decreases os.len(),
{
    if os.len() == 0 {
        Seq::empty()
    } else {
        let i = os.len() - 1;
        oneofs_defs(scope, prefix, os.drop_last()).push(
            Def {
                name: spec_make_name(scope, opt_str(os[i].name)),
                kind: KindView::Oneof,
                path: prefix.push(i as i32).push(ONEOF_NAME),
            },
        )
    }
}

/// The definitions of the values of an enum whose full name is `parent`;
/// the values are named in the scope of the enum itself.
pub open spec fn values_defs(
    scope: Seq<char>,
    parent: Seq<char>,
    prefix: Seq<i32>,
    vs: Seq<crate::descriptor::EnumValueDescriptorProto>,
) -> Seq<Def>
    decreases vs.len(),
{
    if vs.len() == 0 {
        Seq::empty()
    } else {
        let i = vs.len() - 1;
        values_defs(scope, parent, prefix, vs.drop_last()).push(
            Def {
                name: spec_make_name(scope, opt_str(vs[i].name)),
                kind: KindView::EnumValue { parent, number: opt_i32(vs[i].number) },
                path: prefix.push(i as i32).push(ENUM_VALUE_NAME),
            },
        )
    }
}

/// The definitions of an enum at path `at`: the enum, then its values.
pub open spec fn enum_defs(scope: Seq<char>, at: Seq<i32>, e: EnumDescriptorProto) -> Seq<Def> {
    let name = spec_make_name(scope, opt_str(e.name));
    seq![Def { name, kind: KindView::Enum, path: at.push(ENUM_NAME) }] + values_defs(
        scope,
        name,
        at.push(ENUM_VALUE),
        e.value@,
    )
}

/// The definitions of the enums `es`, one enum after the other.
pub open spec fn enums_defs(scope: Seq<char>, prefix: Seq<i32>, es: Seq<EnumDescriptorProto>) -> Seq<
    Def,
>
    decreases es.len(),
{
    if es.len() == 0 {
        Seq::empty()
    } else {
        let i = es.len() - 1;
        enums_defs(scope, prefix, es.drop_last()) + enum_defs(scope, prefix.push(i as i32), es[i])
    }
}

/// The extension numbers of a message, as ranges.
pub open spec fn extension_numbers(m: DescriptorProto) -> Seq<(i32, i32)> {
    Seq::new(
        m.extension_range@.len(),
        |i: int| (opt_i32(m.extension_range@[i].start), opt_i32(m.extension_range@[i].end)),
    )
}

/// The definitions of a message at path `at`: the message, then, in its
/// scope, its fields, oneofs, nested messages, enums and extensions.
pub open spec fn message_defs(scope: Seq<char>, at: Seq<i32>, m: DescriptorProto) -> Seq<Def>
    decreases m,
{
    let inner = spec_make_name(scope, opt_str(m.name));
    seq![
        Def {
            name: inner,
            kind: KindView::Message { extension_numbers: extension_numbers(m) },
            path: at.push(MESSAGE_NAME),
        },
    ] + fields_defs(inner, at.push(MESSAGE_FIELD), m.field@) + oneofs_defs(
        inner,
        at.push(MESSAGE_ONEOF_DECL),
        m.oneof_decl@,
    ) + messages_defs(inner, at.push(MESSAGE_NESTED_TYPE), m.nested_type@) + enums_defs(
        inner,
        at.push(MESSAGE_ENUM_TYPE),
        m.enum_type@,
    ) + fields_defs(inner, at.push(MESSAGE_EXTENSION), m.extension@)
}

/// The definitions of the messages `ms`, one message after the other.
pub open spec fn messages_defs(scope: Seq<char>, prefix: Seq<i32>, ms: Seq<DescriptorProto>) -> Seq<
    Def,
>
    decreases ms,
{
    if ms.len() == 0 {
        Seq::empty()
    } else {
        let i = ms.len() - 1;
        messages_defs(scope, prefix, ms.drop_last()) + message_defs(
            scope,
            prefix.push(i as i32),
            ms[i],
        )
    }
}

/// The definitions of the methods of a service whose full name is `scope`.
pub open spec fn methods_defs(
    scope: Seq<char>,
    prefix: Seq<i32>,
    ms: Seq<crate::descriptor::MethodDescriptorProto>,
) -> Seq<Def>
    decreases ms.len(),
{
    if ms.len() == 0 {
        Seq::empty()
    } else {
        let i = ms.len() - 1;
        methods_defs(scope, prefix, ms.drop_last()).push(
            Def {
                name: spec_make_name(scope, opt_str(ms[i].name)),
                kind: KindView::Method,
                path: prefix.push(i as i32).push(METHOD_NAME),
            },
        )
    }
}

/// The definitions of a service at path `at`: the service, then its methods.
pub open spec fn service_defs(scope: Seq<char>, at: Seq<i32>, s: ServiceDescriptorProto) -> Seq<
    Def,
> {
    let name = spec_make_name(scope, opt_str(s.name));
    seq![Def { name, kind: KindView::Service, path: at.push(SERVICE_NAME) }] + methods_defs(
        name,
        at.push(SERVICE_METHOD),
        s.method@,
    )
}

/// The definitions of the services `ss`, one service after the other.
pub open spec fn services_defs(scope: Seq<char>, prefix: Seq<i32>, ss: Seq<ServiceDescriptorProto>) -> Seq<
    Def,
>
    decreases ss.len(),
{
    if ss.len() == 0 {
        Seq::empty()
    } else {
        let i = ss.len() - 1;
        services_defs(scope, prefix, ss.drop_last()) + service_defs(
            scope,
            prefix.push(i as i32),
            ss[i],
        )
    }
}

/// The components of a dotted name, in order: `a.b.c` gives `a`, `b`, `c`.
pub open spec fn split_dots(s: Seq<char>) -> Seq<Seq<char>>
    decreases s.len(),
{
    let i = last_dot(s);
    if i < 0 {
        seq![s]
    } else {
        proof {
            lemma_last_dot(s);
        }
        split_dots(s.take(i)).push(s.skip(i + 1))
    }
}

/// The components joined with dots.
pub open spec fn join_dots(parts: Seq<Seq<char>>) -> Seq<char>
    decreases parts.len(),
{
    if parts.len() == 0 {
        Seq::empty()
    } else {
        spec_make_name(join_dots(parts.drop_last()), parts.last())
    }
}

/// The components of a file's package; none when it has no package.
pub open spec fn package_parts(file: FileDescriptorProto) -> Seq<Seq<char>> {
    if opt_str(file.package).len() == 0 {
        Seq::empty()
    } else {
        split_dots(opt_str(file.package))
    }
}

/// One package definition per component: `a`, `a.b`, `a.b.c`.
pub open spec fn package_defs(parts: Seq<Seq<char>>) -> Seq<Def>
    decreases parts.len(),
{
    if parts.len() == 0 {
        Seq::empty()
    } else {
        package_defs(parts.drop_last()).push(
            Def { name: join_dots(parts), kind: KindView::Package, path: seq![FILE_PACKAGE] },
        )
    }
}

/// Every definition a file makes, in order: its package, then, in the
/// package's scope, its messages, enums, extensions and services.
pub open spec fn file_defs(file: FileDescriptorProto) -> Seq<Def> {
    let scope = join_dots(package_parts(file));
    package_defs(package_parts(file)) + messages_defs(
        scope,
        seq![FILE_MESSAGE_TYPE],
        file.message_type@,
    ) + enums_defs(scope, seq![FILE_ENUM_TYPE], file.enum_type@) + fields_defs(
        scope,
        seq![FILE_EXTENSION],
        file.extension@,
    ) + services_defs(scope, seq![FILE_SERVICE], file.service@)
}

// ---------------------------------------------------------------------------
// Recording definitions
// ---------------------------------------------------------------------------

/// The table so far and the errors reported so far.
pub struct PassState {
    pub map: MapModel,
    pub errors: Seq<DuplicateView>,
}

/// The state after an addition that may have failed.
pub open spec fn with_result(map: MapModel, errors: Seq<DuplicateView>, e: Option<DuplicateView>) -> PassState {
    match e {
        Some(e) => PassState { map, errors: errors.push(e) },
        None => PassState { map, errors },
    }
}

/// Recording one definition of the file itself: its span comes from the
/// file's locations, and a duplicate is reported and the pass goes on.
pub open spec fn apply_def(st: PassState, d: Def, locs: Seq<Location>, source: Option<Seq<u8>>) -> PassState {
    let (m, e) = spec_add(st.map, d.name, d.kind, spec_span_at(locs, d.path), None, source, true);
    with_result(m, st.errors, e)
}

/// Recording definitions one after the other.
pub open spec fn apply_defs(st: PassState, ds: Seq<Def>, locs: Seq<Location>, source: Option<Seq<u8>>) -> PassState
    decreases ds.len(),
{
    if ds.len() == 0 {
        st
    } else {
        apply_def(apply_defs(st, ds.drop_last(), locs, source), ds.last(), locs, source)
    }
}

pub proof fn lemma_apply_defs_push(st: PassState, ds: Seq<Def>, d: Def, locs: Seq<Location>, source: Option<Seq<u8>>)
    ensures
        apply_defs(st, ds.push(d), locs, source) == apply_def(apply_defs(st, ds, locs, source), d, locs, source),
{
    assert(ds.push(d).drop_last() =~= ds);
}

/// Recording `a` then `b` is recording `a + b`.
pub proof fn lemma_apply_defs_append(st: PassState, a: Seq<Def>, b: Seq<Def>, locs: Seq<Location>, source: Option<Seq<u8>>)
    ensures
        apply_defs(st, a + b, locs, source) == apply_defs(apply_defs(st, a, locs, source), b, locs, source),
    decreases b.len(),
{
    if b.len() == 0 {
        assert(a + b =~= a);
    } else {
        assert((a + b).drop_last() =~= a + b.drop_last());
        lemma_apply_defs_append(st, a, b.drop_last(), locs, source);
    }
}


// ---------------------------------------------------------------------------
// What a file must be for the pass to run
// ---------------------------------------------------------------------------

/// Every list of the enums has at most `i32::MAX` elements.
pub open spec fn enums_ok(es: Seq<EnumDescriptorProto>) -> bool {
    &&& es.len() <= i32::MAX
    &&& forall|i: int| 0 <= i < es.len() ==> (#[trigger] es[i]).value@.len() <= i32::MAX
}

/// A service's name is a single component and it has at most `i32::MAX` methods.
pub open spec fn service_ok(s: ServiceDescriptorProto) -> bool {
    &&& dot_free(opt_str(s.name))
    &&& s.method@.len() <= i32::MAX
}

/// Every service is acceptable and there are at most `i32::MAX` of them.
pub open spec fn services_ok(ss: Seq<ServiceDescriptorProto>) -> bool {
    &&& ss.len() <= i32::MAX
    &&& forall|i: int| 0 <= i < ss.len() ==> service_ok(#[trigger] ss[i])
}

/// A message's name, and those of the messages in it, are single
/// components (a message is a scope, and leaving the scope of a dotted name
/// would not restore the enclosing one), and no list in it has more than
/// `i32::MAX` elements.
pub open spec fn message_ok(m: DescriptorProto) -> bool
    decreases m,
{
    &&& dot_free(opt_str(m.name))
    &&& m.field@.len() <= i32::MAX
    &&& m.oneof_decl@.len() <= i32::MAX
    &&& m.extension@.len() <= i32::MAX
    &&& enums_ok(m.enum_type@)
    &&& m.nested_type@.len() <= i32::MAX
    &&& messages_ok(m.nested_type@)
}

/// Every message of `ms` is acceptable.
pub open spec fn messages_ok(ms: Seq<DescriptorProto>) -> bool
    decreases ms,
{
    if ms.len() == 0 {
        true
    } else {
        messages_ok(ms.drop_last()) && message_ok(ms.last())
    }
}

pub proof fn lemma_messages_ok_index(ms: Seq<DescriptorProto>, i: int)
    requires
        messages_ok(ms),
        0 <= i < ms.len(),
    ensures
        message_ok(ms[i]),
    decreases ms.len(),
{
    if i < ms.len() - 1 {
        lemma_messages_ok_index(ms.drop_last(), i);
    }
}

/// A file the pass accepts: its messages and services are acceptable, no
/// list has more than `i32::MAX` elements, and each import has a position
/// that fits an `i32`.
pub open spec fn file_ok(file: FileDescriptorProto) -> bool {
    &&& file.message_type@.len() <= i32::MAX
    &&& messages_ok(file.message_type@)
    &&& enums_ok(file.enum_type@)
    &&& file.extension@.len() <= i32::MAX
    &&& services_ok(file.service@)
    &&& file.dependency@.len() <= i32::MAX + 1
}

/// Every file that `file` imports is among `files`.
pub open spec fn imports_found(file: FileDescriptorProto, files: Seq<ParsedFile>) -> bool {
    forall|k: int|
        0 <= k < file.dependency@.len() ==> (#[trigger] find_file(files, file.dependency@[k]@)) is Some
}

/// Merging the names that the `k`-th import makes public: an import listed
/// among the public dependencies passes them on to the file's own importers.
pub open spec fn import_step(
    st: PassState,
    file: FileDescriptorProto,
    files: Seq<ParsedFile>,
    k: int,
    source: Option<Seq<u8>>,
) -> PassState {
    let f = files[find_file(files, file.dependency@[k]@).unwrap()];
    let (m, e) = spec_merge(
        st.map,
        f.name_map@,
        f.name@,
        source,
        file.public_dependency@.contains(k as i32),
    );
    with_result(m, st.errors, e)
}

/// Merging the first `n` imports, in order.
pub open spec fn imports_state(
    st: PassState,
    file: FileDescriptorProto,
    files: Seq<ParsedFile>,
    n: int,
    source: Option<Seq<u8>>,
) -> PassState
    decreases n,
{
    if n <= 0 {
        st
    } else {
        import_step(imports_state(st, file, files, n - 1, source), file, files, n - 1, source)
    }
}

/// The outcome of checking the names of `file`: the imports are merged,
/// then the file's own definitions recorded, each duplicate reported.
pub open spec fn spec_from_proto(
    file: FileDescriptorProto,
    files: Seq<ParsedFile>,
    source: Option<Seq<u8>>,
) -> PassState {
    apply_defs(
        imports_state(
            PassState { map: MapModel::empty(), errors: Seq::empty() },
            file,
            files,
            file.dependency@.len() as int,
            source,
        ),
        file_defs(file),
        spec_locations(file),
        source,
    )
}

/// Every component of a split name is a single component, and there is one at least.
pub proof fn lemma_split_dots(s: Seq<char>)
    ensures
        split_dots(s).len() >= 1,
        forall|k: int| 0 <= k < split_dots(s).len() ==> dot_free(#[trigger] split_dots(s)[k]),
    decreases s.len(),
{
    lemma_last_dot(s);
    let i = last_dot(s);
    if i >= 0 {
        lemma_split_dots(s.take(i));
        let rest = s.skip(i + 1);
        assert(dot_free(rest)) by {
            assert forall|j: int| 0 <= j < rest.len() implies rest[j] != '.' by {
                assert(rest[j] == s[i + 1 + j]);
            }
        }
        assert forall|k: int| 0 <= k < split_dots(s).len() implies dot_free(#[trigger] split_dots(s)[k]) by {
            if k < split_dots(s).len() - 1 {
                assert(split_dots(s)[k] == split_dots(s.take(i))[k]);
            }
        }
    }
}

/// The components of a dotted name, in order.
pub fn split_name(s: &str) -> (res: Vec<String>)
    ensures
        res@.map_values(|p: String| p@) == split_dots(s@),
    decreases s@.len(),
{
    proof {
        lemma_last_dot(s@);
    }
    match rfind_dot(s) {
        None => {
            let mut v = Vec::new();
            v.push(String::from_str(s));
            assert(v@.map_values(|p: String| p@) =~= seq![s@]);
            v
        },
        Some(i) => {
            let mut v = split_name(s.substring_char(0, i));
            let ghost before = v@;
            let len = s.unicode_len();
            let last = String::from_str(s.substring_char(i + 1, len));
            v.push(last);
            assert(v@.map_values(|p: String| p@) =~= before.map_values(|p: String| p@).push(last@));
            v
        },
    }
}

// ---------------------------------------------------------------------------
// Properties of locations, packages and the pass
// ---------------------------------------------------------------------------

/// Swapping two paths reverses their order.
pub proof fn lemma_path_order_antisymmetric(a: Seq<i32>, b: Seq<i32>)
    ensures
        path_order(a, b) == -path_order(b, a),
    decreases a.len(),
{
    if a.len() > 0 && b.len() > 0 && a[0] == b[0] {
        lemma_path_order_antisymmetric(a.skip(1), b.skip(1));
    }
}

/// A path not after a second, which comes before a third, comes before the third.
pub proof fn lemma_path_order_transitive(a: Seq<i32>, b: Seq<i32>, c: Seq<i32>)
    requires
        path_order(a, b) <= 0,
        path_order(b, c) < 0,
    ensures
        path_order(a, c) < 0,
    decreases a.len(),
{
    lemma_path_order_zero(a, b);
    lemma_path_order_zero(b, c);
    if a.len() > 0 && b.len() > 0 && c.len() > 0 && a[0] == b[0] && b[0] == c[0] {
        if path_order(a.skip(1), b.skip(1)) <= 0 {
            lemma_path_order_transitive(a.skip(1), b.skip(1), c.skip(1));
        }
    }
}

/// The locations are sorted by path.
pub open spec fn locations_sorted(locs: Seq<Location>) -> bool {
    forall|i: int, j: int|
        0 <= i <= j < locs.len() ==> path_order(#[trigger] locs[i].path@, #[trigger] locs[j].path@)
            <= 0
}

/// Whatever the search finds is a location with the path searched for.
pub proof fn lemma_search_found(locs: Seq<Location>, path: Seq<i32>, lo: int, hi: int)
    requires
        0 <= lo,
        hi <= locs.len(),
    ensures
        search_locations(locs, path, lo, hi) matches Some(j) ==> lo <= j < hi && locs[j].path@
            == path,
    decreases hi - lo,
{
    if lo < hi {
        let mid = lo + (hi - lo) / 2;
        lemma_path_order_zero(locs[mid].path@, path);
        if path_order(locs[mid].path@, path) < 0 {
            lemma_search_found(locs, path, mid + 1, hi);
        } else if path_order(locs[mid].path@, path) > 0 {
            lemma_search_found(locs, path, lo, mid);
        }
    }
}

/// In locations sorted by path, the search finds a path that is there.
pub proof fn lemma_search_sorted(locs: Seq<Location>, path: Seq<i32>, lo: int, hi: int, t: int)
    requires
        locations_sorted(locs),
        0 <= lo <= t < hi <= locs.len(),
        locs[t].path@ == path,
    ensures
        search_locations(locs, path, lo, hi) matches Some(j) && locs[j].path@ == path,
    decreases hi - lo,
{
    let mid = lo + (hi - lo) / 2;
    let o = path_order(locs[mid].path@, path);
    lemma_path_order_zero(locs[mid].path@, path);
    if o < 0 {
        if t <= mid {
            assert(path_order(locs[t].path@, locs[mid].path@) <= 0);
            lemma_path_order_transitive(locs[t].path@, locs[mid].path@, path);
            lemma_path_order_zero(locs[t].path@, path);
        }
        lemma_search_sorted(locs, path, mid + 1, hi, t);
    } else if o > 0 {
        if t >= mid {
            assert(path_order(locs[mid].path@, locs[t].path@) <= 0);
            lemma_path_order_antisymmetric(locs[mid].path@, path);
            lemma_path_order_transitive(path, locs[mid].path@, locs[t].path@);
            assert(false);
        }
        lemma_search_sorted(locs, path, lo, mid, t);
    }
}

/// A package name not starting with `.` is the scope its components build:
/// the package's definitions are named in the scope of the package itself.
pub proof fn lemma_join_split(s: Seq<char>)
    requires
        s.len() > 0,
        s[0] != '.',
    ensures
        join_dots(split_dots(s)) == s,
    decreases s.len(),
{
    lemma_last_dot(s);
    let i = last_dot(s);
    if i < 0 {
        assert(seq![s].drop_last() =~= Seq::<Seq<char>>::empty());
        assert(join_dots(Seq::<Seq<char>>::empty()) == Seq::<char>::empty());
        assert(join_dots(seq![s]) == spec_make_name(Seq::<char>::empty(), s));
    } else {
        let parts = split_dots(s);
        assert(parts == split_dots(s.take(i)).push(s.skip(i + 1)));
        assert(parts.drop_last() =~= split_dots(s.take(i)));
        assert(parts.last() == s.skip(i + 1));
        assert(i > 0);
        lemma_join_split(s.take(i));
        assert(join_dots(parts) == spec_make_name(s.take(i), s.skip(i + 1)));
        assert(s.take(i) + seq!['.'] + s.skip(i + 1) =~= s);
    }
}

/// Recording definitions keeps every name already recorded, with its
/// record, and keeps the errors already reported.
pub proof fn lemma_apply_defs_grows(st: PassState, ds: Seq<Def>, locs: Seq<Location>, source: Option<Seq<u8>>)
    ensures
        ({
            let fin = apply_defs(st, ds, locs, source);
            &&& fin.errors.len() >= st.errors.len()
            &&& fin.errors.take(st.errors.len() as int) == st.errors
            &&& forall|k: Seq<char>|
                #[trigger] st.map.entries.contains_key(k) ==> fin.map.entries.contains_key(k)
                    && fin.map.entries[k] == st.map.entries[k]
        }),
    decreases ds.len(),
{
    if ds.len() > 0 {
        let mid = apply_defs(st, ds.drop_last(), locs, source);
        lemma_apply_defs_grows(st, ds.drop_last(), locs, source);
        let fin = apply_defs(st, ds, locs, source);
        assert(fin.errors.take(st.errors.len() as int) =~= st.errors);
    }
}

/// When recording definitions reports no error, every one of their names
/// is in the table afterwards.
pub proof fn lemma_apply_defs_records_all(st: PassState, ds: Seq<Def>, locs: Seq<Location>, source: Option<Seq<u8>>)
    requires
        apply_defs(st, ds, locs, source).errors.len() == st.errors.len(),
    ensures
        forall|j: int|
            0 <= j < ds.len() ==> apply_defs(st, ds, locs, source).map.entries.contains_key(
                #[trigger] ds[j].name,
            ),
    decreases ds.len(),
{
    if ds.len() > 0 {
        let mid = apply_defs(st, ds.drop_last(), locs, source);
        lemma_apply_defs_grows(st, ds.drop_last(), locs, source);
        lemma_apply_defs_records_all(st, ds.drop_last(), locs, source);
        let fin = apply_defs(st, ds, locs, source);
        assert forall|j: int| 0 <= j < ds.len() implies fin.map.entries.contains_key(#[trigger] ds[j].name) by {
            if j < ds.len() - 1 {
                assert(ds.drop_last()[j] == ds[j]);
                assert(mid.map.entries.contains_key(ds[j].name));
            }
        }
    }
}

/// Merging imports keeps the errors already reported.
pub proof fn lemma_imports_grow(
    st: PassState,
    file: FileDescriptorProto,
    files: Seq<ParsedFile>,
    n: int,
    source: Option<Seq<u8>>,
)
    ensures
        imports_state(st, file, files, n, source).errors.len() >= st.errors.len(),
    decreases n,
{
    if n > 0 {
        lemma_imports_grow(st, file, files, n - 1, source);
    }
}

/// A file whose check reports no error has every name it declares in its table.
pub proof fn lemma_checked_file_defines_its_names(
    file: FileDescriptorProto,
    files: Seq<ParsedFile>,
    source: Option<Seq<u8>>,
)
    requires
        spec_from_proto(file, files, source).errors.len() == 0,
    ensures
        forall|j: int|
            0 <= j < file_defs(file).len() ==> spec_from_proto(
                file,
                files,
                source,
            ).map.entries.contains_key(#[trigger] file_defs(file)[j].name),
{
    let st0 = PassState { map: MapModel::empty(), errors: Seq::empty() };
    let st1 = imports_state(st0, file, files, file.dependency@.len() as int, source);
    lemma_imports_grow(st0, file, files, file.dependency@.len() as int, source);
    lemma_apply_defs_grows(st1, file_defs(file), spec_locations(file), source);
    lemma_apply_defs_records_all(st1, file_defs(file), spec_locations(file), source);
}

// ---------------------------------------------------------------------------
// The pass
// ---------------------------------------------------------------------------

/// The duplicate a reported error is about.
pub open spec fn dup_of(e: CheckError) -> DuplicateView {
    match e {
        CheckError::DuplicateName(d) => d@,
        _ => DuplicateView {
            name: Seq::empty(),
            first: LocationView::Unknown,
            second: LocationView::Unknown,
        },
    }
}

/// Every reported error is a duplicate name.
pub open spec fn all_duplicates(es: Seq<CheckError>) -> bool {
    forall|i: int| 0 <= i < es.len() ==> (#[trigger] es[i]) is DuplicateName
}

/// The errors, as the duplicates they are about.
pub open spec fn dup_views(es: Seq<CheckError>) -> Seq<DuplicateView> {
    es.map_values(|e: CheckError| dup_of(e))
}

/// The position of a definition as an `i32` path element.
pub fn index_to_i32(index: usize) -> (res: i32)
    requires
        index <= i32::MAX,
    ensures
        res == index,
{
    index as i32
}

/// Whether `n` is one of `v`.
pub fn contains_i32(v: &Vec<i32>, n: i32) -> (res: bool)
    ensures
        res == v@.contains(n),
{
    let mut i: usize = 0;
    while i < v.len()
        invariant
            i <= v.len(),
            forall|j: int| 0 <= j < i ==> v@[j] != n,
        decreases v.len() - i,
    {
        if v[i] == n {
            return true;
        }
        i = i + 1;
    }
    false
}

/// The state of a pass over one file: the table being built, the scope of
/// the declaration being visited, its location path, the file's locations
/// and source text, and the errors found so far.
struct NamePass<'a> {
    name_map: NameMap,
    scope: String,
    path: Vec<i32>,
    locations: &'a [Location],
    source: Option<&'a str>,
    errors: Vec<CheckError>,
}

impl<'a> NamePass<'a> {
    spec fn state(&self) -> PassState {
        PassState { map: self.name_map@, errors: dup_views(self.errors@) }
    }

    spec fn inv(&self) -> bool {
        &&& self.name_map.wf()
        &&& all_duplicates(self.errors@)
    }

    spec fn locs(&self) -> Seq<Location> {
        self.locations@
    }

    spec fn src(&self) -> Option<Seq<u8>> {
        source_bytes(self.source)
    }

    /// `name` qualified by the current scope.
    fn full_name(&self, name: &str) -> (res: String)
        ensures
            res@ == spec_make_name(self.scope@, name@),
    {
        make_name(self.scope.as_str(), name)
    }

    /// Enters the scope of the declaration `name`.
    fn enter_scope(&mut self, name: &str)
        ensures
            final(self).scope@ == spec_make_name(old(self).scope@, name@),
            final(self).name_map == old(self).name_map,
            final(self).errors == old(self).errors,
            final(self).path == old(self).path,
            final(self).locations == old(self).locations,
            final(self).source == old(self).source,
    {
        if !self.scope.as_str().is_empty() {
            self.scope.append(".");
        }
        self.scope.append(name);
        proof {
            reveal_strlit(".");
        }
    }

    /// Leaves the innermost scope.
    fn exit_scope(&mut self)
        ensures
            final(self).scope@ == spec_parse_namespace(old(self).scope@),
            final(self).name_map == old(self).name_map,
            final(self).errors == old(self).errors,
            final(self).path == old(self).path,
            final(self).locations == old(self).locations,
            final(self).source == old(self).source,
    {
        proof {
            lemma_last_dot(self.scope@);
        }
        let len = match rfind_dot(self.scope.as_str()) {
            Some(i) => i,
            None => 0,
        };
        let kept = String::from_str(self.scope.as_str().substring_char(0, len));
        self.scope = kept;
        proof {
            if last_dot(old(self).scope@) < 0 {
                assert(old(self).scope@.take(0) =~= Seq::<char>::empty());
            }
        }
    }

    /// Appends `items` to the location path.
    fn extend_path(&mut self, items: &[i32])
        ensures
            final(self).path@ == old(self).path@ + items@,
            final(self).name_map == old(self).name_map,
            final(self).errors == old(self).errors,
            final(self).scope == old(self).scope,
            final(self).locations == old(self).locations,
            final(self).source == old(self).source,
    {
        let mut i: usize = 0;
        while i < items.len()
            invariant
                i <= items.len(),
                self.path@ == old(self).path@ + items@.take(i as int),
                self.name_map == old(self).name_map,
                self.errors == old(self).errors,
                self.scope == old(self).scope,
                self.locations == old(self).locations,
                self.source == old(self).source,
            decreases items.len() - i,
        {
            self.path.push(items[i]);
            i = i + 1;
            assert(self.path@ =~= old(self).path@ + items@.take(i as int));
        }
        assert(items@.take(i as int) =~= items@);
    }

    /// Drops the last `n` elements of the location path.
    fn pop_path(&mut self, n: usize)
        requires
            old(self).path@.len() >= n,
        ensures
            final(self).path@ == old(self).path@.take(old(self).path@.len() - n),
            final(self).name_map == old(self).name_map,
            final(self).errors == old(self).errors,
            final(self).scope == old(self).scope,
            final(self).locations == old(self).locations,
            final(self).source == old(self).source,
    {
        let len = self.path.len() - n;
        self.path.truncate(len);
    }

    /// Moves the location path on to the next element of the same list.
    fn bump_path(&mut self)
        requires
            old(self).path@.len() >= 2,
            old(self).path@.last() < i32::MAX,
        ensures
            final(self).path@ == old(self).path@.drop_last().push(
                (old(self).path@.last() + 1) as i32,
            ),
            final(self).name_map == old(self).name_map,
            final(self).errors == old(self).errors,
            final(self).scope == old(self).scope,
            final(self).locations == old(self).locations,
            final(self).source == old(self).source,
    {
        let last = self.path.len() - 1;
        let n = self.path[last];
        self.path.set(last, n + 1);
        assert(self.path@ =~= old(self).path@.drop_last().push((old(self).path@.last() + 1) as i32));
    }

    /// Replaces the last elements of the location path by `items`.
    fn replace_path(&mut self, items: &[i32])
        requires
            old(self).path@.len() >= items@.len(),
        ensures
            final(self).path@ == old(self).path@.take(old(self).path@.len() - items@.len()) + items@,
            final(self).name_map == old(self).name_map,
            final(self).errors == old(self).errors,
            final(self).scope == old(self).scope,
            final(self).locations == old(self).locations,
            final(self).source == old(self).source,
    {
        self.pop_path(items.len());
        self.extend_path(items);
    }

    /// The span recorded for the current path followed by `path_items`.
    fn resolve_span(&mut self, path_items: &[i32]) -> (res: Option<[i32; 4]>)
        ensures
            crate::names::span_view(res) == spec_span_at(
                old(self).locations@,
                old(self).path@ + path_items@,
            ),
            final(self).path@ == old(self).path@,
            final(self).name_map == old(self).name_map,
            final(self).errors == old(self).errors,
            final(self).scope == old(self).scope,
            final(self).locations == old(self).locations,
            final(self).source == old(self).source,
    {
        self.extend_path(path_items);
        let found = find_location(self.locations, self.path.as_slice());
        let span = match found {
            Some(i) => normalize_span(self.locations[i].span.as_slice()),
            None => None,
        };
        self.pop_path(path_items.len());
        assert(self.path@ =~= old(self).path@);
        span
    }

    /// Records the definition of `name`, in the current scope, at the
    /// current path followed by `path_items`; a duplicate is reported.
    fn add_name(&mut self, name: &str, kind: DefinitionKind, path_items: &[i32])
        requires
            old(self).inv(),
        ensures
            final(self).inv(),
            final(self).state() == apply_def(
                old(self).state(),
                Def {
                    name: spec_make_name(old(self).scope@, name@),
                    kind: kind@,
                    path: old(self).path@ + path_items@,
                },
                old(self).locs(),
                old(self).src(),
            ),
            final(self).path@ == old(self).path@,
            final(self).scope == old(self).scope,
            final(self).locations == old(self).locations,
            final(self).source == old(self).source,
    {
        let span = self.resolve_span(path_items);
        let full = self.full_name(name);
        match self.name_map.add(full, kind, span, None, self.source, true) {
            Err(err) => {
                let ghost d = err@;
                self.errors.push(CheckError::DuplicateName(err));
                assert(dup_views(self.errors@) =~= dup_views(old(self).errors@).push(d));
            },
            Ok(()) => {},
        }
    }
    /// Records a field or extension at the current path.
    fn add_field_descriptor_proto(&mut self, field: &FieldDescriptorProto)
        requires
            old(self).inv(),
        ensures
            final(self).inv(),
            final(self).state() == apply_def(
                old(self).state(),
                Def {
                    name: spec_make_name(old(self).scope@, opt_str(field.name)),
                    kind: field_kind(*field),
                    path: old(self).path@.push(FIELD_NAME),
                },
                old(self).locs(),
                old(self).src(),
            ),
            final(self).path@ == old(self).path@,
            final(self).scope == old(self).scope,
            final(self).locations == old(self).locations,
            final(self).source == old(self).source,
    {
        let ty = match field.field_type {
            Some(t) => FieldType::from_i32(t),
            None => FieldType::from_i32(0),
        };
        let label = match field.label {
            Some(l) => FieldLabel::from_i32(l),
            None => FieldLabel::from_i32(0),
        };
        let number = match field.number {
            Some(n) => n,
            None => 0,
        };
        let kind = DefinitionKind::Field {
            ty,
            field_type_name: crate::names::copy_opt_string(&field.field_type_name),
            number,
            label,
            oneof_index: field.oneof_index,
            extendee: crate::names::copy_opt_string(&field.extendee),
        };
        let items = [FIELD_NAME];
        assert(items@ =~= seq![FIELD_NAME]);
        self.add_name(opt_str_value(&field.name), kind, &items);
        assert(old(self).path@ + seq![FIELD_NAME] =~= old(self).path@.push(FIELD_NAME));
    }

    /// Records a oneof at the current path.
    fn add_oneof_descriptor_proto(&mut self, oneof: &OneofDescriptorProto)
        requires
            old(self).inv(),
        ensures
            final(self).inv(),
            final(self).state() == apply_def(
                old(self).state(),
                Def {
                    name: spec_make_name(old(self).scope@, opt_str(oneof.name)),
                    kind: KindView::Oneof,
                    path: old(self).path@.push(ONEOF_NAME),
                },
                old(self).locs(),
                old(self).src(),
            ),
            final(self).path@ == old(self).path@,
            final(self).scope == old(self).scope,
            final(self).locations == old(self).locations,
            final(self).source == old(self).source,
    {
        let items = [ONEOF_NAME];
        assert(items@ =~= seq![ONEOF_NAME]);
        self.add_name(opt_str_value(&oneof.name), DefinitionKind::Oneof, &items);
        assert(old(self).path@ + seq![ONEOF_NAME] =~= old(self).path@.push(ONEOF_NAME));
    }

    /// Records an enum and its values at the current path; the values are
    /// named in the enum's own scope.
    fn add_enum_descriptor_proto(&mut self, enum_: &EnumDescriptorProto)
        requires
            old(self).inv(),
            enum_.value@.len() <= i32::MAX,
        ensures
            final(self).inv(),
            final(self).state() == apply_defs(
                old(self).state(),
                enum_defs(old(self).scope@, old(self).path@, *enum_),
                old(self).locs(),
                old(self).src(),
            ),
            final(self).path@ == old(self).path@,
            final(self).scope == old(self).scope,
            final(self).locations == old(self).locations,
            final(self).source == old(self).source,
    {
        let ghost st0 = self.state();
        let ghost at = self.path@;
        let ghost scope = self.scope@;
        let ghost locs = self.locs();
        let ghost src = self.src();
        let ghost enum_name = spec_make_name(scope, opt_str(enum_.name));
        let ghost d0 = Def { name: enum_name, kind: KindView::Enum, path: at.push(ENUM_NAME) };
        let items = [ENUM_NAME];
        assert(items@ =~= seq![ENUM_NAME]);
        self.add_name(opt_str_value(&enum_.name), DefinitionKind::Enum, &items);
        proof {
            assert(at + seq![ENUM_NAME] =~= at.push(ENUM_NAME));
            assert(seq![d0].drop_last() =~= Seq::<Def>::empty());
        }
        let ghost st1 = self.state();
        assert(apply_defs(st0, Seq::<Def>::empty(), locs, src) == st0);
        assert(st1 == apply_defs(st0, seq![d0], locs, src));
        let items = [ENUM_VALUE, 0];
        assert(items@ =~= seq![ENUM_VALUE, 0]);
        self.extend_path(&items);
        assert(self.path@ =~= at.push(ENUM_VALUE).push(0));
        assert(enum_.value@.take(0) =~= Seq::<crate::descriptor::EnumValueDescriptorProto>::empty());
        let mut i: usize = 0;
        while i < enum_.value.len()
            invariant
                self.inv(),
                i <= enum_.value@.len() <= i32::MAX,
                self.path@ == at.push(ENUM_VALUE).push(i as i32),
                self.scope@ == scope,
                enum_name == spec_make_name(scope, opt_str(enum_.name)),
                self.locs() == locs,
                self.src() == src,
                self.scope == old(self).scope,
                self.locations == old(self).locations,
                self.source == old(self).source,
                self.state() == apply_defs(
                    st1,
                    values_defs(scope, enum_name, at.push(ENUM_VALUE), enum_.value@.take(i as int)),
                    locs,
                    src,
                ),
            decreases enum_.value.len() - i,
        {
            let value = &enum_.value[i];
            let parent = self.full_name(opt_str_value(&enum_.name));
            let number = match value.number {
                Some(n) => n,
                None => 0,
            };
            let ghost before = self.state();
            let items = [ENUM_VALUE_NAME];
            assert(items@ =~= seq![ENUM_VALUE_NAME]);
            self.add_name(
                opt_str_value(&value.name),
                DefinitionKind::EnumValue { parent, number },
                &items,
            );
            proof {
                let vs = enum_.value@.take(i + 1);
                assert(vs.drop_last() =~= enum_.value@.take(i as int));
                assert(at.push(ENUM_VALUE).push(i as i32) + seq![ENUM_VALUE_NAME]
                    =~= at.push(ENUM_VALUE).push(i as i32).push(ENUM_VALUE_NAME));
                let d = Def {
                    name: spec_make_name(scope, opt_str(enum_.value@[i as int].name)),
                    kind: KindView::EnumValue { parent: enum_name, number: opt_i32(enum_.value@[i as int].number) },
                    path: at.push(ENUM_VALUE).push(i as i32).push(ENUM_VALUE_NAME),
                };
                assert(values_defs(scope, enum_name, at.push(ENUM_VALUE), vs)
                    == values_defs(scope, enum_name, at.push(ENUM_VALUE), enum_.value@.take(i as int)).push(d));
                lemma_apply_defs_push(st1, values_defs(scope, enum_name, at.push(ENUM_VALUE), enum_.value@.take(i as int)), d, locs, src);
                assert(self.state() == apply_def(before, d, locs, src));
                assert(self.state() == apply_defs(st1, values_defs(scope, enum_name, at.push(ENUM_VALUE), vs), locs, src));
            }
            self.bump_path();
            i = i + 1;
            assert(self.path@ =~= at.push(ENUM_VALUE).push(i as i32));
        }
        self.pop_path(2);
        proof {
            assert(self.path@ =~= at);
            assert(enum_.value@.take(i as int) =~= enum_.value@);
            lemma_apply_defs_append(st0, seq![d0], values_defs(scope, enum_name, at.push(ENUM_VALUE), enum_.value@), locs, src);
        }
    }

    /// Records a service and, in its scope, its methods, at the current path.
    fn add_service_descriptor_proto(&mut self, service: &ServiceDescriptorProto)
        requires
            old(self).inv(),
            service.method@.len() <= i32::MAX,
            dot_free(opt_str(service.name)),
        ensures
            final(self).inv(),
            final(self).state() == apply_defs(
                old(self).state(),
                service_defs(old(self).scope@, old(self).path@, *service),
                old(self).locs(),
                old(self).src(),
            ),
            final(self).path@ == old(self).path@,
            final(self).scope@ == old(self).scope@,
            final(self).locations == old(self).locations,
            final(self).source == old(self).source,
    {
        let ghost st0 = self.state();
        let ghost at = self.path@;
        let ghost scope = self.scope@;
        let ghost locs = self.locs();
        let ghost src = self.src();
        let ghost name = spec_make_name(scope, opt_str(service.name));
        let ghost d0 = Def { name, kind: KindView::Service, path: at.push(SERVICE_NAME) };
        let items = [SERVICE_NAME];
        assert(items@ =~= seq![SERVICE_NAME]);
        self.add_name(opt_str_value(&service.name), DefinitionKind::Service, &items);
        proof {
            assert(at + seq![SERVICE_NAME] =~= at.push(SERVICE_NAME));
            assert(seq![d0].drop_last() =~= Seq::<Def>::empty());
        }
        let ghost st1 = self.state();
        assert(apply_defs(st0, Seq::<Def>::empty(), locs, src) == st0);
        assert(st1 == apply_defs(st0, seq![d0], locs, src));
        self.enter_scope(opt_str_value(&service.name));
        let items = [SERVICE_METHOD, 0];
        assert(items@ =~= seq![SERVICE_METHOD, 0]);
        self.extend_path(&items);
        assert(self.path@ =~= at.push(SERVICE_METHOD).push(0));
        assert(service.method@.take(0) =~= Seq::<crate::descriptor::MethodDescriptorProto>::empty());
        let mut i: usize = 0;
        while i < service.method.len()
            invariant
                self.inv(),
                i <= service.method@.len() <= i32::MAX,
                self.path@ == at.push(SERVICE_METHOD).push(i as i32),
                self.scope@ == name,
                self.locs() == locs,
                self.src() == src,
                self.locations == old(self).locations,
                self.source == old(self).source,
                self.state() == apply_defs(
                    st1,
                    methods_defs(name, at.push(SERVICE_METHOD), service.method@.take(i as int)),
                    locs,
                    src,
                ),
            decreases service.method.len() - i,
        {
            let method = &service.method[i];
            let items = [METHOD_NAME];
            assert(items@ =~= seq![METHOD_NAME]);
            self.add_name(opt_str_value(&method.name), DefinitionKind::Method, &items);
            proof {
                let ms = service.method@.take(i + 1);
                assert(ms.drop_last() =~= service.method@.take(i as int));
                assert(at.push(SERVICE_METHOD).push(i as i32) + seq![METHOD_NAME]
                    =~= at.push(SERVICE_METHOD).push(i as i32).push(METHOD_NAME));
                let d = Def {
                    name: spec_make_name(name, opt_str(service.method@[i as int].name)),
                    kind: KindView::Method,
                    path: at.push(SERVICE_METHOD).push(i as i32).push(METHOD_NAME),
                };
                assert(methods_defs(name, at.push(SERVICE_METHOD), ms)
                    == methods_defs(name, at.push(SERVICE_METHOD), service.method@.take(i as int)).push(d));
                lemma_apply_defs_push(st1, methods_defs(name, at.push(SERVICE_METHOD), service.method@.take(i as int)), d, locs, src);
            }
            self.bump_path();
            i = i + 1;
            assert(self.path@ =~= at.push(SERVICE_METHOD).push(i as i32));
        }
        self.pop_path(2);
        self.exit_scope();
        proof {
            lemma_parse_namespace_of_make_name(scope, opt_str(service.name));
            assert(self.path@ =~= at);
            assert(service.method@.take(i as int) =~= service.method@);
            lemma_apply_defs_append(st0, seq![d0], methods_defs(name, at.push(SERVICE_METHOD), service.method@), locs, src);
        }
    }
    /// Merges the public names of an imported file.
    fn merge_names(&mut self, file: &ParsedFile, public: bool)
        requires
            old(self).inv(),
            file.name_map.wf(),
        ensures
            final(self).inv(),
            ({
                let (m, e) = spec_merge(
                    old(self).state().map,
                    file.name_map@,
                    file.name@,
                    old(self).src(),
                    public,
                );
                final(self).state() == with_result(m, old(self).state().errors, e)
            }),
            final(self).path@ == old(self).path@,
            final(self).scope == old(self).scope,
            final(self).locations == old(self).locations,
            final(self).source == old(self).source,
    {
        let name = String::from_str(file.name());
        match self.name_map.merge(&file.name_map, name, self.source, public) {
            Err(err) => {
                let ghost d = dup_of(err);
                self.errors.push(err);
                assert(dup_views(self.errors@) =~= dup_views(old(self).errors@).push(d));
            },
            Ok(()) => {},
        }
    }

    /// Records a message at the current path and, in its scope, its fields,
    /// oneofs, nested messages, enums and extensions.
    fn add_descriptor_proto(&mut self, message: &DescriptorProto)
        requires
            old(self).inv(),
            message_ok(*message),
        ensures
            final(self).inv(),
            final(self).state() == apply_defs(
                old(self).state(),
                message_defs(old(self).scope@, old(self).path@, *message),
                old(self).locs(),
                old(self).src(),
            ),
            final(self).path@ == old(self).path@,
            final(self).scope@ == old(self).scope@,
            final(self).locations == old(self).locations,
            final(self).source == old(self).source,
        decreases message,
    {
        let ghost st0 = self.state();
        let ghost at = self.path@;
        let ghost scope = self.scope@;
        let ghost locs = self.locs();
        let ghost src = self.src();
        let ghost inner = spec_make_name(scope, opt_str(message.name));

        let mut ranges: Vec<(i32, i32)> = Vec::new();
        let mut r: usize = 0;
        while r < message.extension_range.len()
            invariant
                r <= message.extension_range@.len(),
                ranges@ =~= extension_numbers(*message).take(r as int),
            decreases message.extension_range.len() - r,
        {
            let range = &message.extension_range[r];
            let start = match range.start {
                Some(n) => n,
                None => 0,
            };
            let end = match range.end {
                Some(n) => n,
                None => 0,
            };
            ranges.push((start, end));
            r = r + 1;
        }
        assert(extension_numbers(*message).take(r as int) =~= extension_numbers(*message));
        let numbers = InversionList::new(ranges);
        let ghost d0 = Def {
            name: inner,
            kind: KindView::Message { extension_numbers: extension_numbers(*message) },
            path: at.push(MESSAGE_NAME),
        };
        let items = [MESSAGE_NAME];
        assert(items@ =~= seq![MESSAGE_NAME]);
        self.add_name(
            opt_str_value(&message.name),
            DefinitionKind::Message { extension_numbers: numbers },
            &items,
        );
        proof {
            assert(at + seq![MESSAGE_NAME] =~= at.push(MESSAGE_NAME));
            assert(seq![d0].drop_last() =~= Seq::<Def>::empty());
            assert(apply_defs(st0, Seq::<Def>::empty(), locs, src) == st0);
        }
        let ghost a0 = seq![d0];
        let ghost st1 = self.state();
        assert(st1 == apply_defs(st0, a0, locs, src));
        self.enter_scope(opt_str_value(&message.name));

        // fields
        let items = [MESSAGE_FIELD, 0];
        assert(items@ =~= seq![MESSAGE_FIELD, 0]);
        self.extend_path(&items);
        assert(self.path@ =~= at.push(MESSAGE_FIELD).push(0));
        assert(message.field@.take(0) =~= Seq::<FieldDescriptorProto>::empty());
        let mut i: usize = 0;
        while i < message.field.len()
            invariant
                self.inv(),
                i <= message.field@.len() <= i32::MAX,
                self.path@ == at.push(MESSAGE_FIELD).push(i as i32),
                self.scope@ == inner,
                self.locs() == locs,
                self.src() == src,
                self.locations == old(self).locations,
                self.source == old(self).source,
                self.state() == apply_defs(
                    st1,
                    fields_defs(inner, at.push(MESSAGE_FIELD), message.field@.take(i as int)),
                    locs,
                    src,
                ),
            decreases message.field.len() - i,
        {
            self.add_field_descriptor_proto(&message.field[i]);
            proof {
                let fs = message.field@.take(i + 1);
                assert(fs.drop_last() =~= message.field@.take(i as int));
                let prev = fields_defs(inner, at.push(MESSAGE_FIELD), message.field@.take(i as int));
                lemma_apply_defs_push(st1, prev, fields_defs(inner, at.push(MESSAGE_FIELD), fs).last(), locs, src);
                assert(fields_defs(inner, at.push(MESSAGE_FIELD), fs) == prev.push(fields_defs(inner, at.push(MESSAGE_FIELD), fs).last()));
            }
            self.bump_path();
            i = i + 1;
            assert(self.path@ =~= at.push(MESSAGE_FIELD).push(i as i32));
        }
        let ghost fdefs = fields_defs(inner, at.push(MESSAGE_FIELD), message.field@);
        proof {
            assert(message.field@.take(i as int) =~= message.field@);
            lemma_apply_defs_append(st0, a0, fdefs, locs, src);
        }
        let ghost a1 = a0 + fdefs;
        let ghost st2 = self.state();

        // oneofs
        let items = [MESSAGE_ONEOF_DECL, 0];
        assert(items@ =~= seq![MESSAGE_ONEOF_DECL, 0]);
        self.replace_path(&items);
        assert(self.path@ =~= at.push(MESSAGE_ONEOF_DECL).push(0));
        assert(message.oneof_decl@.take(0) =~= Seq::<OneofDescriptorProto>::empty());
        let mut i: usize = 0;
        while i < message.oneof_decl.len()
            invariant
                self.inv(),
                i <= message.oneof_decl@.len() <= i32::MAX,
                self.path@ == at.push(MESSAGE_ONEOF_DECL).push(i as i32),
                self.scope@ == inner,
                self.locs() == locs,
                self.src() == src,
                self.locations == old(self).locations,
                self.source == old(self).source,
                self.state() == apply_defs(
                    st2,
                    oneofs_defs(inner, at.push(MESSAGE_ONEOF_DECL), message.oneof_decl@.take(i as int)),
                    locs,
                    src,
                ),
            decreases message.oneof_decl.len() - i,
        {
            self.add_oneof_descriptor_proto(&message.oneof_decl[i]);
            proof {
                let os = message.oneof_decl@.take(i + 1);
                assert(os.drop_last() =~= message.oneof_decl@.take(i as int));
                let prev = oneofs_defs(inner, at.push(MESSAGE_ONEOF_DECL), message.oneof_decl@.take(i as int));
                lemma_apply_defs_push(st2, prev, oneofs_defs(inner, at.push(MESSAGE_ONEOF_DECL), os).last(), locs, src);
                assert(oneofs_defs(inner, at.push(MESSAGE_ONEOF_DECL), os) == prev.push(oneofs_defs(inner, at.push(MESSAGE_ONEOF_DECL), os).last()));
            }
            self.bump_path();
            i = i + 1;
            assert(self.path@ =~= at.push(MESSAGE_ONEOF_DECL).push(i as i32));
        }
        let ghost odefs = oneofs_defs(inner, at.push(MESSAGE_ONEOF_DECL), message.oneof_decl@);
        proof {
            assert(message.oneof_decl@.take(i as int) =~= message.oneof_decl@);
            lemma_apply_defs_append(st0, a1, odefs, locs, src);
        }
        let ghost a2 = a1 + odefs;
        let ghost st3 = self.state();

        // nested messages
        let items = [MESSAGE_NESTED_TYPE, 0];
        assert(items@ =~= seq![MESSAGE_NESTED_TYPE, 0]);
        self.replace_path(&items);
        assert(self.path@ =~= at.push(MESSAGE_NESTED_TYPE).push(0));
        assert(message.nested_type@.take(0) =~= Seq::<DescriptorProto>::empty());
        let mut i: usize = 0;
        while i < message.nested_type.len()
            invariant
                self.inv(),
                i <= message.nested_type@.len() <= i32::MAX,
                messages_ok(message.nested_type@),
                self.path@ == at.push(MESSAGE_NESTED_TYPE).push(i as i32),
                self.scope@ == inner,
                self.locs() == locs,
                self.src() == src,
                self.locations == old(self).locations,
                self.source == old(self).source,
                self.state() == apply_defs(
                    st3,
                    messages_defs(inner, at.push(MESSAGE_NESTED_TYPE), message.nested_type@.take(i as int)),
                    locs,
                    src,
                ),
            decreases message.nested_type.len() - i,
        {
            proof {
                lemma_messages_ok_index(message.nested_type@, i as int);
            }
            self.add_descriptor_proto(&message.nested_type[i]);
            proof {
                let ms = message.nested_type@.take(i + 1);
                assert(ms.drop_last() =~= message.nested_type@.take(i as int));
                let prev = messages_defs(inner, at.push(MESSAGE_NESTED_TYPE), message.nested_type@.take(i as int));
                let cur = message_defs(inner, at.push(MESSAGE_NESTED_TYPE).push(i as i32), message.nested_type@[i as int]);
                assert(messages_defs(inner, at.push(MESSAGE_NESTED_TYPE), ms) == prev + cur);
                lemma_apply_defs_append(st3, prev, cur, locs, src);
            }
            self.bump_path();
            i = i + 1;
            assert(self.path@ =~= at.push(MESSAGE_NESTED_TYPE).push(i as i32));
        }
        let ghost ndefs = messages_defs(inner, at.push(MESSAGE_NESTED_TYPE), message.nested_type@);
        proof {
            assert(message.nested_type@.take(i as int) =~= message.nested_type@);
            lemma_apply_defs_append(st0, a2, ndefs, locs, src);
        }
        let ghost a3 = a2 + ndefs;
        let ghost st4 = self.state();

        // enums
        let items = [MESSAGE_ENUM_TYPE, 0];
        assert(items@ =~= seq![MESSAGE_ENUM_TYPE, 0]);
        self.replace_path(&items);
        assert(self.path@ =~= at.push(MESSAGE_ENUM_TYPE).push(0));
        assert(message.enum_type@.take(0) =~= Seq::<EnumDescriptorProto>::empty());
        let mut i: usize = 0;
        while i < message.enum_type.len()
            invariant
                self.inv(),
                i <= message.enum_type@.len(),
                enums_ok(message.enum_type@),
                self.path@ == at.push(MESSAGE_ENUM_TYPE).push(i as i32),
                self.scope@ == inner,
                self.locs() == locs,
                self.src() == src,
                self.locations == old(self).locations,
                self.source == old(self).source,
                self.state() == apply_defs(
                    st4,
                    enums_defs(inner, at.push(MESSAGE_ENUM_TYPE), message.enum_type@.take(i as int)),
                    locs,
                    src,
                ),
            decreases message.enum_type.len() - i,
        {
            self.add_enum_descriptor_proto(&message.enum_type[i]);
            proof {
                let es = message.enum_type@.take(i + 1);
                assert(es.drop_last() =~= message.enum_type@.take(i as int));
                let prev = enums_defs(inner, at.push(MESSAGE_ENUM_TYPE), message.enum_type@.take(i as int));
                let cur = enum_defs(inner, at.push(MESSAGE_ENUM_TYPE).push(i as i32), message.enum_type@[i as int]);
                assert(enums_defs(inner, at.push(MESSAGE_ENUM_TYPE), es) == prev + cur);
                lemma_apply_defs_append(st4, prev, cur, locs, src);
            }
            self.bump_path();
            i = i + 1;
            assert(self.path@ =~= at.push(MESSAGE_ENUM_TYPE).push(i as i32));
        }
        let ghost edefs = enums_defs(inner, at.push(MESSAGE_ENUM_TYPE), message.enum_type@);
        proof {
            assert(message.enum_type@.take(i as int) =~= message.enum_type@);
            lemma_apply_defs_append(st0, a3, edefs, locs, src);
        }
        let ghost a4 = a3 + edefs;
        let ghost st5 = self.state();

        // extensions
        let items = [MESSAGE_EXTENSION, 0];
        assert(items@ =~= seq![MESSAGE_EXTENSION, 0]);
        self.replace_path(&items);
        assert(self.path@ =~= at.push(MESSAGE_EXTENSION).push(0));
        assert(message.extension@.take(0) =~= Seq::<FieldDescriptorProto>::empty());
        let mut i: usize = 0;
        while i < message.extension.len()
            invariant
                self.inv(),
                i <= message.extension@.len() <= i32::MAX,
                self.path@ == at.push(MESSAGE_EXTENSION).push(i as i32),
                self.scope@ == inner,
                self.locs() == locs,
                self.src() == src,
                self.locations == old(self).locations,
                self.source == old(self).source,
                self.state() == apply_defs(
                    st5,
                    fields_defs(inner, at.push(MESSAGE_EXTENSION), message.extension@.take(i as int)),
                    locs,
                    src,
                ),
            decreases message.extension.len() - i,
        {
            self.add_field_descriptor_proto(&message.extension[i]);
            proof {
                let fs = message.extension@.take(i + 1);
                assert(fs.drop_last() =~= message.extension@.take(i as int));
                let prev = fields_defs(inner, at.push(MESSAGE_EXTENSION), message.extension@.take(i as int));
                lemma_apply_defs_push(st5, prev, fields_defs(inner, at.push(MESSAGE_EXTENSION), fs).last(), locs, src);
                assert(fields_defs(inner, at.push(MESSAGE_EXTENSION), fs) == prev.push(fields_defs(inner, at.push(MESSAGE_EXTENSION), fs).last()));
            }
            self.bump_path();
            i = i + 1;
            assert(self.path@ =~= at.push(MESSAGE_EXTENSION).push(i as i32));
        }
        let ghost xdefs = fields_defs(inner, at.push(MESSAGE_EXTENSION), message.extension@);
        proof {
            assert(message.extension@.take(i as int) =~= message.extension@);
            lemma_apply_defs_append(st0, a4, xdefs, locs, src);
        }
        self.pop_path(2);
        self.exit_scope();
        proof {
            lemma_parse_namespace_of_make_name(scope, opt_str(message.name));
            assert(self.path@ =~= at);
            assert(a4 + xdefs == message_defs(scope, at, *message));
        }
    }
    /// Records everything `file` imports and defines: the public names of
    /// its imports, its package, and, in the package's scope, its messages,
    /// enums, extensions and services.
    fn add_file_descriptor_proto(&mut self, file: &FileDescriptorProto, file_map: &ParsedFileMap)
        requires
            old(self).inv(),
            old(self).scope@ == Seq::<char>::empty(),
            old(self).path@ == Seq::<i32>::empty(),
            file_ok(*file),
            imports_found(*file, file_map.files@),
            file_map.wf(),
        ensures
            final(self).inv(),
            final(self).state() == apply_defs(
                imports_state(
                    old(self).state(),
                    *file,
                    file_map.files@,
                    file.dependency@.len() as int,
                    old(self).src(),
                ),
                file_defs(*file),
                old(self).locs(),
                old(self).src(),
            ),
            final(self).scope@ == Seq::<char>::empty(),
            final(self).path@ == Seq::<i32>::empty(),
            final(self).locations == old(self).locations,
            final(self).source == old(self).source,
    {
        let ghost st0 = self.state();
        let ghost locs = self.locs();
        let ghost src = self.src();
        let ghost files = file_map.files@;

        // imports
        let mut index: usize = 0;
        while index < file.dependency.len()
            invariant
                self.inv(),
                file_ok(*file),
                imports_found(*file, files),
                file_map.wf(),
                files == file_map.files@,
                index <= file.dependency@.len(),
                self.scope@ == Seq::<char>::empty(),
                self.path@ == Seq::<i32>::empty(),
                self.locs() == locs,
                self.src() == src,
                self.locations == old(self).locations,
                self.source == old(self).source,
                self.state() == imports_state(st0, *file, files, index as int, src),
            decreases file.dependency.len() - index,
        {
            let ghost k = find_file(files, file.dependency@[index as int]@);
            assert(k is Some);
            let import_file = file_map.get(file.dependency[index].as_str()).unwrap();
            proof {
                crate::parsed::lemma_find_file(files, file.dependency@[index as int]@);
                assert(import_file.name_map.wf());
            }
            let public = contains_i32(&file.public_dependency, index_to_i32(index));
            self.merge_names(import_file, public);
            index = index + 1;
        }
        let ghost st1 = self.state();

        // package
        let package = file.package();
        let parts: Vec<String> = if package.is_empty() {
            Vec::new()
        } else {
            split_name(package)
        };
        let ghost pv = parts@.map_values(|p: String| p@);
        proof {
            if package@.len() == 0 {
                assert(pv =~= Seq::<Seq<char>>::empty());
            } else {
                lemma_split_dots(package@);
            }
            assert(forall|j: int| 0 <= j < pv.len() ==> dot_free(#[trigger] pv[j]));
            assert(pv == package_parts(*file));
            assert(pv.take(0) =~= Seq::<Seq<char>>::empty());
            assert(apply_defs(st1, Seq::<Def>::empty(), locs, src) == st1);
        }
        let mut k: usize = 0;
        while k < parts.len()
            invariant
                self.inv(),
                pv == parts@.map_values(|p: String| p@),
                pv == package_parts(*file),
                k <= parts@.len(),
                self.scope@ == join_dots(pv.take(k as int)),
                self.path@ == Seq::<i32>::empty(),
                self.locs() == locs,
                self.src() == src,
                self.locations == old(self).locations,
                self.source == old(self).source,
                self.state() == apply_defs(st1, package_defs(pv.take(k as int)), locs, src),
            decreases parts.len() - k,
        {
            let items = [FILE_PACKAGE];
            assert(items@ =~= seq![FILE_PACKAGE]);
            self.add_name(parts[k].as_str(), DefinitionKind::Package, &items);
            self.enter_scope(parts[k].as_str());
            proof {
                let ps = pv.take(k + 1);
                assert(ps.drop_last() =~= pv.take(k as int));
                assert(ps.last() == parts@[k as int]@);
                assert(Seq::<i32>::empty() + seq![FILE_PACKAGE] =~= seq![FILE_PACKAGE]);
                let d = Def { name: join_dots(ps), kind: KindView::Package, path: seq![FILE_PACKAGE] };
                assert(package_defs(ps) == package_defs(pv.take(k as int)).push(d));
                lemma_apply_defs_push(st1, package_defs(pv.take(k as int)), d, locs, src);
            }
            k = k + 1;
        }
        let ghost scope = join_dots(pv);
        let ghost a0 = package_defs(pv);
        proof {
            assert(pv.take(k as int) =~= pv);
        }
        let ghost st2 = self.state();
        assert(st2 == apply_defs(st1, a0, locs, src));

        // messages
        let items = [FILE_MESSAGE_TYPE, 0];
        assert(items@ =~= seq![FILE_MESSAGE_TYPE, 0]);
        self.extend_path(&items);
        assert(self.path@ =~= seq![FILE_MESSAGE_TYPE].push(0));
        assert(file.message_type@.take(0) =~= Seq::<DescriptorProto>::empty());
        let mut i: usize = 0;
        while i < file.message_type.len()
            invariant
                self.inv(),
                i <= file.message_type@.len() <= i32::MAX,
                messages_ok(file.message_type@),
                self.path@ == seq![FILE_MESSAGE_TYPE].push(i as i32),
                self.scope@ == scope,
                self.locs() == locs,
                self.src() == src,
                self.locations == old(self).locations,
                self.source == old(self).source,
                self.state() == apply_defs(
                    st2,
                    messages_defs(scope, seq![FILE_MESSAGE_TYPE], file.message_type@.take(i as int)),
                    locs,
                    src,
                ),
            decreases file.message_type.len() - i,
        {
            proof {
                lemma_messages_ok_index(file.message_type@, i as int);
            }
            self.add_descriptor_proto(&file.message_type[i]);
            proof {
                let ms = file.message_type@.take(i + 1);
                assert(ms.drop_last() =~= file.message_type@.take(i as int));
                let prev = messages_defs(scope, seq![FILE_MESSAGE_TYPE], file.message_type@.take(i as int));
                let cur = message_defs(scope, seq![FILE_MESSAGE_TYPE].push(i as i32), file.message_type@[i as int]);
                assert(messages_defs(scope, seq![FILE_MESSAGE_TYPE], ms) == prev + cur);
                lemma_apply_defs_append(st2, prev, cur, locs, src);
            }
            self.bump_path();
            i = i + 1;
            assert(self.path@ =~= seq![FILE_MESSAGE_TYPE].push(i as i32));
        }
        let ghost mdefs = messages_defs(scope, seq![FILE_MESSAGE_TYPE], file.message_type@);
        proof {
            assert(file.message_type@.take(i as int) =~= file.message_type@);
            lemma_apply_defs_append(st1, a0, mdefs, locs, src);
        }
        let ghost a1 = a0 + mdefs;
        let ghost st3 = self.state();

        // enums
        let items = [FILE_ENUM_TYPE, 0];
        assert(items@ =~= seq![FILE_ENUM_TYPE, 0]);
        self.replace_path(&items);
        assert(self.path@ =~= seq![FILE_ENUM_TYPE].push(0));
        assert(file.enum_type@.take(0) =~= Seq::<EnumDescriptorProto>::empty());
        let mut i: usize = 0;
        while i < file.enum_type.len()
            invariant
                self.inv(),
                i <= file.enum_type@.len(),
                enums_ok(file.enum_type@),
                self.path@ == seq![FILE_ENUM_TYPE].push(i as i32),
                self.scope@ == scope,
                self.locs() == locs,
                self.src() == src,
                self.locations == old(self).locations,
                self.source == old(self).source,
                self.state() == apply_defs(
                    st3,
                    enums_defs(scope, seq![FILE_ENUM_TYPE], file.enum_type@.take(i as int)),
                    locs,
                    src,
                ),
            decreases file.enum_type.len() - i,
        {
            self.add_enum_descriptor_proto(&file.enum_type[i]);
            proof {
                let es = file.enum_type@.take(i + 1);
                assert(es.drop_last() =~= file.enum_type@.take(i as int));
                let prev = enums_defs(scope, seq![FILE_ENUM_TYPE], file.enum_type@.take(i as int));
                let cur = enum_defs(scope, seq![FILE_ENUM_TYPE].push(i as i32), file.enum_type@[i as int]);
                assert(enums_defs(scope, seq![FILE_ENUM_TYPE], es) == prev + cur);
                lemma_apply_defs_append(st3, prev, cur, locs, src);
            }
            self.bump_path();
            i = i + 1;
            assert(self.path@ =~= seq![FILE_ENUM_TYPE].push(i as i32));
        }
        let ghost edefs = enums_defs(scope, seq![FILE_ENUM_TYPE], file.enum_type@);
        proof {
            assert(file.enum_type@.take(i as int) =~= file.enum_type@);
            lemma_apply_defs_append(st1, a1, edefs, locs, src);
        }
        let ghost a2 = a1 + edefs;
        let ghost st4 = self.state();

        // extensions
        let items = [FILE_EXTENSION, 0];
        assert(items@ =~= seq![FILE_EXTENSION, 0]);
        self.replace_path(&items);
        assert(self.path@ =~= seq![FILE_EXTENSION].push(0));
        assert(file.extension@.take(0) =~= Seq::<FieldDescriptorProto>::empty());
        let mut i: usize = 0;
        while i < file.extension.len()
            invariant
                self.inv(),
                i <= file.extension@.len() <= i32::MAX,
                self.path@ == seq![FILE_EXTENSION].push(i as i32),
                self.scope@ == scope,
                self.locs() == locs,
                self.src() == src,
                self.locations == old(self).locations,
                self.source == old(self).source,
                self.state() == apply_defs(
                    st4,
                    fields_defs(scope, seq![FILE_EXTENSION], file.extension@.take(i as int)),
                    locs,
                    src,
                ),
            decreases file.extension.len() - i,
        {
            self.add_field_descriptor_proto(&file.extension[i]);
            proof {
                let fs = file.extension@.take(i + 1);
                assert(fs.drop_last() =~= file.extension@.take(i as int));
                let prev = fields_defs(scope, seq![FILE_EXTENSION], file.extension@.take(i as int));
                lemma_apply_defs_push(st4, prev, fields_defs(scope, seq![FILE_EXTENSION], fs).last(), locs, src);
                assert(fields_defs(scope, seq![FILE_EXTENSION], fs) == prev.push(fields_defs(scope, seq![FILE_EXTENSION], fs).last()));
            }
            self.bump_path();
            i = i + 1;
            assert(self.path@ =~= seq![FILE_EXTENSION].push(i as i32));
        }
        let ghost xdefs = fields_defs(scope, seq![FILE_EXTENSION], file.extension@);
        proof {
            assert(file.extension@.take(i as int) =~= file.extension@);
            lemma_apply_defs_append(st1, a2, xdefs, locs, src);
        }
        let ghost a3 = a2 + xdefs;
        let ghost st5 = self.state();

        // services
        let items = [FILE_SERVICE, 0];
        assert(items@ =~= seq![FILE_SERVICE, 0]);
        self.replace_path(&items);
        assert(self.path@ =~= seq![FILE_SERVICE].push(0));
        assert(file.service@.take(0) =~= Seq::<ServiceDescriptorProto>::empty());
        let mut i: usize = 0;
        while i < file.service.len()
            invariant
                self.inv(),
                i <= file.service@.len(),
                services_ok(file.service@),
                self.path@ == seq![FILE_SERVICE].push(i as i32),
                self.scope@ == scope,
                self.locs() == locs,
                self.src() == src,
                self.locations == old(self).locations,
                self.source == old(self).source,
                self.state() == apply_defs(
                    st5,
                    services_defs(scope, seq![FILE_SERVICE], file.service@.take(i as int)),
                    locs,
                    src,
                ),
            decreases file.service.len() - i,
        {
            assert(service_ok(file.service@[i as int]));
            self.add_service_descriptor_proto(&file.service[i]);
            proof {
                let ss = file.service@.take(i + 1);
                assert(ss.drop_last() =~= file.service@.take(i as int));
                let prev = services_defs(scope, seq![FILE_SERVICE], file.service@.take(i as int));
                let cur = service_defs(scope, seq![FILE_SERVICE].push(i as i32), file.service@[i as int]);
                assert(services_defs(scope, seq![FILE_SERVICE], ss) == prev + cur);
                lemma_apply_defs_append(st5, prev, cur, locs, src);
            }
            self.bump_path();
            i = i + 1;
            assert(self.path@ =~= seq![FILE_SERVICE].push(i as i32));
        }
        let ghost sdefs = services_defs(scope, seq![FILE_SERVICE], file.service@);
        proof {
            assert(file.service@.take(i as int) =~= file.service@);
            lemma_apply_defs_append(st1, a3, sdefs, locs, src);
            assert(a3 + sdefs == file_defs(*file));
        }
        self.pop_path(2);
        assert(self.path@ =~= Seq::<i32>::empty());
        let ghost st_end = self.state();

        // leave the package's scope
        let mut k: usize = parts.len();
        while k > 0
            invariant
                pv == parts@.map_values(|p: String| p@),
                pv == package_parts(*file),
                k <= parts@.len(),
                forall|j: int| 0 <= j < pv.len() ==> dot_free(#[trigger] pv[j]),
                self.scope@ == join_dots(pv.take(k as int)),
                self.state() == st_end,
                self.inv(),
                self.path@ == Seq::<i32>::empty(),
                self.locations == old(self).locations,
                self.source == old(self).source,
            decreases k,
        {
            proof {
                let ps = pv.take(k as int);
                assert(ps.drop_last() =~= pv.take(k - 1));
                lemma_parse_namespace_of_make_name(join_dots(pv.take(k - 1)), pv[k - 1]);
            }
            self.exit_scope();
            k = k - 1;
        }
        assert(pv.take(0) =~= Seq::<Seq<char>>::empty());
    }
}

impl NameMap {
    /// The table of the names that `file` imports and defines, or every
    /// name that it defines twice (see `spec_from_proto`).
    pub fn from_proto(
        file: &FileDescriptorProto,
        file_map: &ParsedFileMap,
        source: Option<&str>,
    ) -> (res: Result<NameMap, Vec<CheckError>>)
        requires
            file_ok(*file),
            imports_found(*file, file_map.files@),
            file_map.wf(),
        ensures
            ({
                let st = spec_from_proto(*file, file_map.files@, source_bytes(source));
                match res {
                    Ok(m) => st.errors.len() == 0 && m@ == st.map && m.wf(),
                    Err(es) => st.errors.len() > 0 && all_duplicates(es@) && dup_views(es@)
                        == st.errors,
                }
            }),
    {
        let mut ctx = NamePass {
            name_map: NameMap::new(),
            path: Vec::new(),
            scope: String::new(),
            locations: file.locations(),
            source,
            errors: Vec::new(),
        };
        assert(dup_views(ctx.errors@) =~= Seq::<DuplicateView>::empty());
        ctx.add_file_descriptor_proto(file, file_map);
        if ctx.errors.len() == 0 {
            Ok(ctx.name_map)
        } else {
            Err(ctx.errors)
        }
    }
}

} // verus!
