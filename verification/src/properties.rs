//! What checking a file guarantees of the table it builds: where each
//! declaration is recorded and with what, and which imported names are
//! merged and passed on.
use vstd::prelude::*;
use crate::descriptor::{
    opt_i32, opt_str, spec_field_label, spec_field_type, EnumDescriptorProto,
    EnumValueDescriptorProto, FieldDescriptorProto, FileDescriptorProto, Location,
    MethodDescriptorProto, OneofDescriptorProto, DescriptorProto, ServiceDescriptorProto,
};
use crate::names::{
    opt_view, spec_add, spec_entry_span, spec_merge, spec_merge_from, spec_name_location,
    EntryView, KindView, LocationView, MapModel,
};
use crate::naming::spec_make_name;
use crate::parsed::ParsedFile;
use crate::parsed::{find_file, lemma_find_file};
use crate::names::{lemma_merge_from_keeps, lemma_merge_success};
use crate::pass::{
    imports_found, imports_state,
    apply_def, apply_defs, enum_defs, enums_defs, field_kind, fields_defs, file_defs, join_dots,
    lemma_apply_defs_grows, lemma_imports_grow, lemma_join_split, message_defs, messages_defs,
    methods_defs, oneofs_defs, package_parts, service_defs, services_defs, spec_from_proto,
    values_defs, Def, PassState,
};

verus! {

// ---------------------------------------------------------------------------
// Which definitions a list of definitions holds
// ---------------------------------------------------------------------------

/// Some definition of `ds` gives `name` the kind `kind`.
pub open spec fn has_def(ds: Seq<Def>, name: Seq<char>, kind: KindView) -> bool {
    exists|j: int| 0 <= j < ds.len() && (#[trigger] ds[j]).name == name && ds[j].kind == kind
}

proof fn lemma_has_def_left(a: Seq<Def>, b: Seq<Def>, name: Seq<char>, kind: KindView)
    requires
        has_def(a, name, kind),
    ensures
        has_def(a + b, name, kind),
{
    let j = choose|j: int| 0 <= j < a.len() && (#[trigger] a[j]).name == name && a[j].kind == kind;
    assert((a + b)[j] == a[j]);
}

proof fn lemma_has_def_right(a: Seq<Def>, b: Seq<Def>, name: Seq<char>, kind: KindView)
    requires
        has_def(b, name, kind),
    ensures
        has_def(a + b, name, kind),
{
    let j = choose|j: int| 0 <= j < b.len() && (#[trigger] b[j]).name == name && b[j].kind == kind;
    assert((a + b)[a.len() + j] == b[j]);
}

proof fn lemma_has_def_push(a: Seq<Def>, d: Def, name: Seq<char>, kind: KindView)
    requires
        has_def(a, name, kind) || (d.name == name && d.kind == kind),
    ensures
        has_def(a.push(d), name, kind),
{
    if has_def(a, name, kind) {
        let j = choose|j: int| 0 <= j < a.len() && (#[trigger] a[j]).name == name && a[j].kind == kind;
        assert(a.push(d)[j] == a[j]);
    } else {
        assert(a.push(d)[a.len() as int] == d);
    }
}

proof fn lemma_fields_has(scope: Seq<char>, p: Seq<i32>, fs: Seq<FieldDescriptorProto>, i: int)
    requires
        0 <= i < fs.len(),
    ensures
        has_def(fields_defs(scope, p, fs), spec_make_name(scope, opt_str(fs[i].name)), field_kind(fs[i])),
    decreases fs.len(),
{
    if i < fs.len() - 1 {
        lemma_fields_has(scope, p, fs.drop_last(), i);
    }
    let d = fields_defs(scope, p, fs).last();
    lemma_has_def_push(fields_defs(scope, p, fs.drop_last()), d, spec_make_name(scope, opt_str(fs[i].name)), field_kind(fs[i]));
}

proof fn lemma_oneofs_has(scope: Seq<char>, p: Seq<i32>, os: Seq<OneofDescriptorProto>, i: int)
    requires
        0 <= i < os.len(),
    ensures
        has_def(oneofs_defs(scope, p, os), spec_make_name(scope, opt_str(os[i].name)), KindView::Oneof),
    decreases os.len(),
{
    if i < os.len() - 1 {
        lemma_oneofs_has(scope, p, os.drop_last(), i);
    }
    let d = oneofs_defs(scope, p, os).last();
    lemma_has_def_push(oneofs_defs(scope, p, os.drop_last()), d, spec_make_name(scope, opt_str(os[i].name)), KindView::Oneof);
}

proof fn lemma_values_has(
    scope: Seq<char>,
    parent: Seq<char>,
    p: Seq<i32>,
    vs: Seq<EnumValueDescriptorProto>,
    i: int,
)
    requires
        0 <= i < vs.len(),
    ensures
        has_def(
            values_defs(scope, parent, p, vs),
            spec_make_name(scope, opt_str(vs[i].name)),
            KindView::EnumValue { parent, number: opt_i32(vs[i].number) },
        ),
    decreases vs.len(),
{
    if i < vs.len() - 1 {
        lemma_values_has(scope, parent, p, vs.drop_last(), i);
    }
    let d = values_defs(scope, parent, p, vs).last();
    lemma_has_def_push(
        values_defs(scope, parent, p, vs.drop_last()),
        d,
        spec_make_name(scope, opt_str(vs[i].name)),
        KindView::EnumValue { parent, number: opt_i32(vs[i].number) },
    );
}

proof fn lemma_methods_has(scope: Seq<char>, p: Seq<i32>, ms: Seq<MethodDescriptorProto>, i: int)
    requires
        0 <= i < ms.len(),
    ensures
        has_def(methods_defs(scope, p, ms), spec_make_name(scope, opt_str(ms[i].name)), KindView::Method),
    decreases ms.len(),
{
    if i < ms.len() - 1 {
        lemma_methods_has(scope, p, ms.drop_last(), i);
    }
    let d = methods_defs(scope, p, ms).last();
    lemma_has_def_push(methods_defs(scope, p, ms.drop_last()), d, spec_make_name(scope, opt_str(ms[i].name)), KindView::Method);
}

proof fn lemma_enums_has(
    scope: Seq<char>,
    p: Seq<i32>,
    es: Seq<EnumDescriptorProto>,
    i: int,
    name: Seq<char>,
    kind: KindView,
)
    requires
        0 <= i < es.len(),
        has_def(enum_defs(scope, p.push(i as i32), es[i]), name, kind),
    ensures
        has_def(enums_defs(scope, p, es), name, kind),
    decreases es.len(),
{
    if i < es.len() - 1 {
        lemma_enums_has(scope, p, es.drop_last(), i, name, kind);
        lemma_has_def_left(enums_defs(scope, p, es.drop_last()), enum_defs(scope, p.push((es.len() - 1) as i32), es.last()), name, kind);
    } else {
        lemma_has_def_right(enums_defs(scope, p, es.drop_last()), enum_defs(scope, p.push(i as i32), es[i]), name, kind);
    }
}

/// An enum's definitions name the enum, and each value as its sibling.
proof fn lemma_enum_defs_has(scope: Seq<char>, at: Seq<i32>, e: EnumDescriptorProto)
    ensures
        has_def(enum_defs(scope, at, e), spec_make_name(scope, opt_str(e.name)), KindView::Enum),
        forall|j: int|
            0 <= j < e.value@.len() ==> has_def(
                enum_defs(scope, at, e),
                spec_make_name(scope, opt_str((#[trigger] e.value@[j]).name)),
                KindView::EnumValue {
                    parent: spec_make_name(scope, opt_str(e.name)),
                    number: opt_i32(e.value@[j].number),
                },
            ),
{
    let name = spec_make_name(scope, opt_str(e.name));
    let head = seq![Def { name, kind: KindView::Enum, path: at.push(crate::descriptor::ENUM_NAME) }];
    let vals = values_defs(scope, name, at.push(crate::descriptor::ENUM_VALUE), e.value@);
    assert(head[0].name == name);
    lemma_has_def_left(head, vals, name, KindView::Enum);
    assert forall|j: int| 0 <= j < e.value@.len() implies has_def(
        enum_defs(scope, at, e),
        spec_make_name(scope, opt_str((#[trigger] e.value@[j]).name)),
        KindView::EnumValue { parent: name, number: opt_i32(e.value@[j].number) },
    ) by {
        lemma_values_has(scope, name, at.push(crate::descriptor::ENUM_VALUE), e.value@, j);
        lemma_has_def_right(
            head,
            vals,
            spec_make_name(scope, opt_str(e.value@[j].name)),
            KindView::EnumValue { parent: name, number: opt_i32(e.value@[j].number) },
        );
    }
}

proof fn lemma_messages_has(
    scope: Seq<char>,
    p: Seq<i32>,
    ms: Seq<DescriptorProto>,
    i: int,
    name: Seq<char>,
    kind: KindView,
)
    requires
        0 <= i < ms.len(),
        has_def(message_defs(scope, p.push(i as i32), ms[i]), name, kind),
    ensures
        has_def(messages_defs(scope, p, ms), name, kind),
    decreases ms.len(),
{
    if i < ms.len() - 1 {
        lemma_messages_has(scope, p, ms.drop_last(), i, name, kind);
        lemma_has_def_left(messages_defs(scope, p, ms.drop_last()), message_defs(scope, p.push((ms.len() - 1) as i32), ms.last()), name, kind);
    } else {
        lemma_has_def_right(messages_defs(scope, p, ms.drop_last()), message_defs(scope, p.push(i as i32), ms[i]), name, kind);
    }
}

proof fn lemma_services_has(
    scope: Seq<char>,
    p: Seq<i32>,
    ss: Seq<ServiceDescriptorProto>,
    i: int,
    name: Seq<char>,
    kind: KindView,
)
    requires
        0 <= i < ss.len(),
        has_def(service_defs(scope, p.push(i as i32), ss[i]), name, kind),
    ensures
        has_def(services_defs(scope, p, ss), name, kind),
    decreases ss.len(),
{
    if i < ss.len() - 1 {
        lemma_services_has(scope, p, ss.drop_last(), i, name, kind);
        lemma_has_def_left(services_defs(scope, p, ss.drop_last()), service_defs(scope, p.push((ss.len() - 1) as i32), ss.last()), name, kind);
    } else {
        lemma_has_def_right(services_defs(scope, p, ss.drop_last()), service_defs(scope, p.push(i as i32), ss[i]), name, kind);
    }
}

// ---------------------------------------------------------------------------
// From definitions to the table
// ---------------------------------------------------------------------------

/// The table records `name` as naming `kind`.
pub open spec fn recorded(t: Map<Seq<char>, EntryView>, name: Seq<char>, kind: KindView) -> bool {
    t.contains_key(name) && t[name].kind == kind
}

/// When recording reports no error, each definition other than a package
/// stands in the table as defined by the file itself, visible to importers.
proof fn lemma_apply_defs_kinds(st: PassState, ds: Seq<Def>, locs: Seq<Location>, source: Option<Seq<u8>>)
    requires
        apply_defs(st, ds, locs, source).errors.len() == st.errors.len(),
    ensures
        forall|j: int|
            0 <= j < ds.len() && !((#[trigger] ds[j]).kind is Package) ==> {
                let t = apply_defs(st, ds, locs, source).map.entries;
                &&& recorded(t, ds[j].name, ds[j].kind)
                &&& t[ds[j].name].file is None
                &&& t[ds[j].name].public
            },
    decreases ds.len(),
{
    if ds.len() > 0 {
        let mid = apply_defs(st, ds.drop_last(), locs, source);
        lemma_apply_defs_grows(st, ds.drop_last(), locs, source);
        let d = ds.last();
        let fin = apply_defs(st, ds, locs, source);
        assert(fin == apply_def(mid, d, locs, source));
        lemma_apply_defs_kinds(st, ds.drop_last(), locs, source);
        assert forall|j: int| 0 <= j < ds.len() && !((#[trigger] ds[j]).kind is Package) implies {
            let t = fin.map.entries;
            &&& recorded(t, ds[j].name, ds[j].kind)
            &&& t[ds[j].name].file is None
            &&& t[ds[j].name].public
        } by {
            if j < ds.len() - 1 {
                assert(ds.drop_last()[j] == ds[j]);
            }
        }
    }
}

/// The file's package is its scope, unless it starts with a `.`.
pub open spec fn package_ok(file: FileDescriptorProto) -> bool {
    opt_str(file.package).len() == 0 || opt_str(file.package)[0] != '.'
}

proof fn lemma_scope_is_package(file: FileDescriptorProto)
    requires
        package_ok(file),
    ensures
        join_dots(package_parts(file)) == opt_str(file.package),
{
    if opt_str(file.package).len() == 0 {
        assert(package_parts(file) =~= Seq::<Seq<char>>::empty());
        assert(opt_str(file.package) =~= Seq::<char>::empty());
    } else {
        lemma_join_split(opt_str(file.package));
    }
}

/// A definition of the file itself, other than a package, is in the table
/// of a file whose check reports no error.
proof fn lemma_file_def_recorded(
    file: FileDescriptorProto,
    files: Seq<ParsedFile>,
    source: Option<Seq<u8>>,
    name: Seq<char>,
    kind: KindView,
)
    requires
        spec_from_proto(file, files, source).errors.len() == 0,
        has_def(file_defs(file), name, kind),
        !(kind is Package),
    ensures
        recorded(spec_from_proto(file, files, source).map.entries, name, kind),
{
    let st0 = PassState { map: MapModel::empty(), errors: Seq::empty() };
    let st1 = crate::pass::imports_state(st0, file, files, file.dependency@.len() as int, source);
    lemma_imports_grow(st0, file, files, file.dependency@.len() as int, source);
    lemma_apply_defs_grows(st1, file_defs(file), crate::descriptor::spec_locations(file), source);
    lemma_apply_defs_kinds(st1, file_defs(file), crate::descriptor::spec_locations(file), source);
    let ds = file_defs(file);
    let j = choose|j: int| 0 <= j < ds.len() && (#[trigger] ds[j]).name == name && ds[j].kind == kind;
    assert(!(ds[j].kind is Package));
}

// ---------------------------------------------------------------------------
// Where the declarations of a message stand
// ---------------------------------------------------------------------------

/// What a field's descriptor says it is: its number, type, type name,
/// label, oneof and extendee, as the descriptor gives them.
pub open spec fn descriptor_field_kind(f: FieldDescriptorProto) -> KindView {
    KindView::Field {
        number: opt_i32(f.number),
        ty: spec_field_type(opt_i32(f.field_type)),
        field_type_name: opt_view(f.field_type_name),
        label: spec_field_label(opt_i32(f.label)),
        oneof_index: f.oneof_index,
        extendee: opt_view(f.extendee),
    }
}

/// The extension ranges of a message, as its descriptor gives them.
pub open spec fn descriptor_extension_ranges(m: DescriptorProto) -> Seq<(i32, i32)> {
    Seq::new(
        m.extension_range@.len(),
        |r: int| (opt_i32(m.extension_range@[r].start), opt_i32(m.extension_range@[r].end)),
    )
}

/// The parts of a message's definitions, in order: the message, fields,
/// oneofs, nested messages, enums, extensions.
proof fn lemma_message_parts(
    scope: Seq<char>,
    at: Seq<i32>,
    m: DescriptorProto,
    part: int,
    name: Seq<char>,
    kind: KindView,
)
    requires
        0 <= part < 6,
        ({
            let inner = spec_make_name(scope, opt_str(m.name));
            if part == 0 {
                name == inner && kind == (KindView::Message { extension_numbers: crate::pass::extension_numbers(m) })
            } else if part == 1 {
                has_def(fields_defs(inner, at.push(crate::descriptor::MESSAGE_FIELD), m.field@), name, kind)
            } else if part == 2 {
                has_def(oneofs_defs(inner, at.push(crate::descriptor::MESSAGE_ONEOF_DECL), m.oneof_decl@), name, kind)
            } else if part == 3 {
                has_def(messages_defs(inner, at.push(crate::descriptor::MESSAGE_NESTED_TYPE), m.nested_type@), name, kind)
            } else if part == 4 {
                has_def(enums_defs(inner, at.push(crate::descriptor::MESSAGE_ENUM_TYPE), m.enum_type@), name, kind)
            } else {
                has_def(fields_defs(inner, at.push(crate::descriptor::MESSAGE_EXTENSION), m.extension@), name, kind)
            }
        }),
    ensures
        has_def(message_defs(scope, at, m), name, kind),
{
    let inner = spec_make_name(scope, opt_str(m.name));
    let h = seq![
        Def {
            name: inner,
            kind: KindView::Message { extension_numbers: crate::pass::extension_numbers(m) },
            path: at.push(crate::descriptor::MESSAGE_NAME),
        },
    ];
    let f = fields_defs(inner, at.push(crate::descriptor::MESSAGE_FIELD), m.field@);
    let o = oneofs_defs(inner, at.push(crate::descriptor::MESSAGE_ONEOF_DECL), m.oneof_decl@);
    let n = messages_defs(inner, at.push(crate::descriptor::MESSAGE_NESTED_TYPE), m.nested_type@);
    let e = enums_defs(inner, at.push(crate::descriptor::MESSAGE_ENUM_TYPE), m.enum_type@);
    let x = fields_defs(inner, at.push(crate::descriptor::MESSAGE_EXTENSION), m.extension@);
    assert(message_defs(scope, at, m) == h + f + o + n + e + x);
    if part == 0 {
        assert(h[0].name == name && h[0].kind == kind);
        lemma_has_def_left(h, f, name, kind);
    } else if part == 1 {
        lemma_has_def_right(h, f, name, kind);
    }
    if part <= 1 {
        lemma_has_def_left(h + f, o, name, kind);
    } else if part == 2 {
        lemma_has_def_right(h + f, o, name, kind);
    }
    if part <= 2 {
        lemma_has_def_left(h + f + o, n, name, kind);
    } else if part == 3 {
        lemma_has_def_right(h + f + o, n, name, kind);
    }
    if part <= 3 {
        lemma_has_def_left(h + f + o + n, e, name, kind);
    } else if part == 4 {
        lemma_has_def_right(h + f + o + n, e, name, kind);
    }
    if part <= 4 {
        lemma_has_def_left(h + f + o + n + e, x, name, kind);
    } else {
        lemma_has_def_right(h + f + o + n + e, x, name, kind);
    }
}

/// The parts of a file's definitions, in order: package, messages, enums,
/// extensions, services.
proof fn lemma_file_parts(file: FileDescriptorProto, part: int, name: Seq<char>, kind: KindView)
    requires
        1 <= part < 5,
        ({
            let scope = join_dots(package_parts(file));
            if part == 1 {
                has_def(messages_defs(scope, seq![crate::descriptor::FILE_MESSAGE_TYPE], file.message_type@), name, kind)
            } else if part == 2 {
                has_def(enums_defs(scope, seq![crate::descriptor::FILE_ENUM_TYPE], file.enum_type@), name, kind)
            } else if part == 3 {
                has_def(fields_defs(scope, seq![crate::descriptor::FILE_EXTENSION], file.extension@), name, kind)
            } else {
                has_def(services_defs(scope, seq![crate::descriptor::FILE_SERVICE], file.service@), name, kind)
            }
        }),
    ensures
        has_def(file_defs(file), name, kind),
{
    let scope = join_dots(package_parts(file));
    let pk = crate::pass::package_defs(package_parts(file));
    let m = messages_defs(scope, seq![crate::descriptor::FILE_MESSAGE_TYPE], file.message_type@);
    let e = enums_defs(scope, seq![crate::descriptor::FILE_ENUM_TYPE], file.enum_type@);
    let x = fields_defs(scope, seq![crate::descriptor::FILE_EXTENSION], file.extension@);
    let sv = services_defs(scope, seq![crate::descriptor::FILE_SERVICE], file.service@);
    assert(file_defs(file) == pk + m + e + x + sv);
    if part == 1 {
        lemma_has_def_right(pk, m, name, kind);
    }
    if part <= 1 {
        lemma_has_def_left(pk + m, e, name, kind);
    } else if part == 2 {
        lemma_has_def_right(pk + m, e, name, kind);
    }
    if part <= 2 {
        lemma_has_def_left(pk + m + e, x, name, kind);
    } else if part == 3 {
        lemma_has_def_right(pk + m + e, x, name, kind);
    }
    if part <= 3 {
        lemma_has_def_left(pk + m + e + x, sv, name, kind);
    } else {
        lemma_has_def_right(pk + m + e + x, sv, name, kind);
    }
}

/// The message that `idxs` leads to among the messages `ms` declared in
/// `scope`, with the scope it is declared in: the first index picks one of
/// `ms`, each further index a message nested in the one picked before.
pub open spec fn message_at(ms: Seq<DescriptorProto>, scope: Seq<char>, idxs: Seq<int>) -> Option<
    (Seq<char>, DescriptorProto),
>
    decreases idxs.len(),
{
    if idxs.len() == 0 || idxs[0] < 0 || idxs[0] >= ms.len() {
        None
    } else if idxs.len() == 1 {
        Some((scope, ms[idxs[0]]))
    } else {
        message_at(
            ms[idxs[0]].nested_type@,
            spec_make_name(scope, opt_str(ms[idxs[0]].name)),
            idxs.skip(1),
        )
    }
}

proof fn lemma_lift_message_def(
    ms: Seq<DescriptorProto>,
    scope: Seq<char>,
    prefix: Seq<i32>,
    idxs: Seq<int>,
    s: Seq<char>,
    m: DescriptorProto,
    name: Seq<char>,
    kind: KindView,
)
    requires
        message_at(ms, scope, idxs) == Some((s, m)),
        forall|at: Seq<i32>| has_def(#[trigger] message_defs(s, at, m), name, kind),
    ensures
        has_def(messages_defs(scope, prefix, ms), name, kind),
    decreases idxs.len(),
{
    let i = idxs[0];
    if idxs.len() == 1 {
        assert(s == scope && m == ms[i]);
        assert(has_def(message_defs(s, prefix.push(i as i32), m), name, kind));
        lemma_messages_has(scope, prefix, ms, i, name, kind);
    } else {
        let m0 = ms[i];
        let inner = spec_make_name(scope, opt_str(m0.name));
        let np = prefix.push(i as i32).push(crate::descriptor::MESSAGE_NESTED_TYPE);
        lemma_lift_message_def(m0.nested_type@, inner, np, idxs.skip(1), s, m, name, kind);
        lemma_message_parts(scope, prefix.push(i as i32), m0, 3, name, kind);
        lemma_messages_has(scope, prefix, ms, i, name, kind);
    }
}

/// A definition that a message of the file makes is recorded in the table
/// of a file whose check reports no error.
proof fn lemma_message_def_recorded(
    file: FileDescriptorProto,
    files: Seq<ParsedFile>,
    source: Option<Seq<u8>>,
    idxs: Seq<int>,
    s: Seq<char>,
    m: DescriptorProto,
    name: Seq<char>,
    kind: KindView,
)
    requires
        spec_from_proto(file, files, source).errors.len() == 0,
        message_at(file.message_type@, join_dots(package_parts(file)), idxs) == Some((s, m)),
        forall|at: Seq<i32>| has_def(#[trigger] message_defs(s, at, m), name, kind),
        !(kind is Package),
    ensures
        recorded(spec_from_proto(file, files, source).map.entries, name, kind),
{
    lemma_lift_message_def(
        file.message_type@,
        join_dots(package_parts(file)),
        seq![crate::descriptor::FILE_MESSAGE_TYPE],
        idxs,
        s,
        m,
        name,
        kind,
    );
    lemma_file_parts(file, 1, name, kind);
    lemma_file_def_recorded(file, files, source, name, kind);
}

/// In a file with package `p` whose check reports no error, a message `M`
/// declared in scope `S` (`p` for a top-level message, the nesting
/// message's full name for a nested one) is recorded as `S.M`, with its
/// extension ranges, and everything declared in it is recorded in its scope
/// `S.M`: each field `S.M.f` and each extension `S.M.x` with the number,
/// type, type name, label, oneof and extendee its descriptor gives, each
/// oneof `S.M.o`, each nested message `S.M.N`, each enum `S.M.E`, and each
/// value `V` of such an enum as `S.M.V`, a sibling of its enum, with parent
/// `S.M.E` and its number.
pub proof fn lemma_message_declarations_in_its_scope(
    file: FileDescriptorProto,
    files: Seq<ParsedFile>,
    source: Option<Seq<u8>>,
    idxs: Seq<int>,
)
    requires
        spec_from_proto(file, files, source).errors.len() == 0,
        package_ok(file),
        message_at(file.message_type@, opt_str(file.package), idxs) is Some,
    ensures
        ({
            let t = spec_from_proto(file, files, source).map.entries;
            let (s, m) = message_at(file.message_type@, opt_str(file.package), idxs).unwrap();
            let mn = spec_make_name(s, opt_str(m.name));
            &&& recorded(t, mn, KindView::Message { extension_numbers: descriptor_extension_ranges(m) })
            &&& forall|j: int|
                0 <= j < m.field@.len() ==> recorded(
                    t,
                    spec_make_name(mn, opt_str((#[trigger] m.field@[j]).name)),
                    descriptor_field_kind(m.field@[j]),
                )
            &&& forall|j: int|
                0 <= j < m.oneof_decl@.len() ==> recorded(
                    t,
                    spec_make_name(mn, opt_str((#[trigger] m.oneof_decl@[j]).name)),
                    KindView::Oneof,
                )
            &&& forall|j: int|
                0 <= j < m.nested_type@.len() ==> recorded(
                    t,
                    spec_make_name(mn, opt_str((#[trigger] m.nested_type@[j]).name)),
                    KindView::Message { extension_numbers: descriptor_extension_ranges(m.nested_type@[j]) },
                )
            &&& forall|j: int|
                0 <= j < m.enum_type@.len() ==> recorded(
                    t,
                    spec_make_name(mn, opt_str((#[trigger] m.enum_type@[j]).name)),
                    KindView::Enum,
                )
            &&& forall|j: int, v: int|
                0 <= j < m.enum_type@.len() && 0 <= v < m.enum_type@[j].value@.len() ==> recorded(
                    t,
                    spec_make_name(mn, opt_str((#[trigger] m.enum_type@[j].value@[v]).name)),
                    KindView::EnumValue {
                        parent: spec_make_name(mn, opt_str(m.enum_type@[j].name)),
                        number: opt_i32(m.enum_type@[j].value@[v].number),
                    },
                )
            &&& forall|j: int|
                0 <= j < m.extension@.len() ==> recorded(
                    t,
                    spec_make_name(mn, opt_str((#[trigger] m.extension@[j]).name)),
                    descriptor_field_kind(m.extension@[j]),
                )
        }),
{
    lemma_scope_is_package(file);
    let t = spec_from_proto(file, files, source).map.entries;
    let (s, m) = message_at(file.message_type@, opt_str(file.package), idxs).unwrap();
    let mn = spec_make_name(s, opt_str(m.name));
    let head = KindView::Message { extension_numbers: descriptor_extension_ranges(m) };
    assert(crate::pass::extension_numbers(m) =~= descriptor_extension_ranges(m));
    assert forall|at: Seq<i32>| has_def(#[trigger] message_defs(s, at, m), mn, head) by {
        lemma_message_parts(s, at, m, 0, mn, head);
    }
    lemma_message_def_recorded(file, files, source, idxs, s, m, mn, head);
    assert forall|j: int| 0 <= j < m.field@.len() implies recorded(
        t,
        spec_make_name(mn, opt_str((#[trigger] m.field@[j]).name)),
        descriptor_field_kind(m.field@[j]),
    ) by {
        let n = spec_make_name(mn, opt_str(m.field@[j].name));
        let k = descriptor_field_kind(m.field@[j]);
        assert forall|at: Seq<i32>| has_def(#[trigger] message_defs(s, at, m), n, k) by {
            lemma_fields_has(mn, at.push(crate::descriptor::MESSAGE_FIELD), m.field@, j);
            lemma_message_parts(s, at, m, 1, n, k);
        }
        lemma_message_def_recorded(file, files, source, idxs, s, m, n, k);
    }
    assert forall|j: int| 0 <= j < m.oneof_decl@.len() implies recorded(
        t,
        spec_make_name(mn, opt_str((#[trigger] m.oneof_decl@[j]).name)),
        KindView::Oneof,
    ) by {
        let n = spec_make_name(mn, opt_str(m.oneof_decl@[j].name));
        assert forall|at: Seq<i32>| has_def(#[trigger] message_defs(s, at, m), n, KindView::Oneof) by {
            lemma_oneofs_has(mn, at.push(crate::descriptor::MESSAGE_ONEOF_DECL), m.oneof_decl@, j);
            lemma_message_parts(s, at, m, 2, n, KindView::Oneof);
        }
        lemma_message_def_recorded(file, files, source, idxs, s, m, n, KindView::Oneof);
    }
    assert forall|j: int| 0 <= j < m.nested_type@.len() implies recorded(
        t,
        spec_make_name(mn, opt_str((#[trigger] m.nested_type@[j]).name)),
        KindView::Message { extension_numbers: descriptor_extension_ranges(m.nested_type@[j]) },
    ) by {
        let nm = m.nested_type@[j];
        let n = spec_make_name(mn, opt_str(nm.name));
        let k = KindView::Message { extension_numbers: descriptor_extension_ranges(nm) };
        assert(crate::pass::extension_numbers(nm) =~= descriptor_extension_ranges(nm));
        assert forall|at: Seq<i32>| has_def(#[trigger] message_defs(s, at, m), n, k) by {
            let np = at.push(crate::descriptor::MESSAGE_NESTED_TYPE);
            lemma_message_parts(mn, np.push(j as i32), nm, 0, n, k);
            lemma_messages_has(mn, np, m.nested_type@, j, n, k);
            lemma_message_parts(s, at, m, 3, n, k);
        }
        lemma_message_def_recorded(file, files, source, idxs, s, m, n, k);
    }
    assert forall|j: int| 0 <= j < m.enum_type@.len() implies recorded(
        t,
        spec_make_name(mn, opt_str((#[trigger] m.enum_type@[j]).name)),
        KindView::Enum,
    ) by {
        let e = m.enum_type@[j];
        let n = spec_make_name(mn, opt_str(e.name));
        assert forall|at: Seq<i32>| has_def(#[trigger] message_defs(s, at, m), n, KindView::Enum) by {
            let ep = at.push(crate::descriptor::MESSAGE_ENUM_TYPE);
            lemma_enum_defs_has(mn, ep.push(j as i32), e);
            lemma_enums_has(mn, ep, m.enum_type@, j, n, KindView::Enum);
            lemma_message_parts(s, at, m, 4, n, KindView::Enum);
        }
        lemma_message_def_recorded(file, files, source, idxs, s, m, n, KindView::Enum);
    }
    assert forall|j: int, v: int|
        0 <= j < m.enum_type@.len() && 0 <= v < m.enum_type@[j].value@.len() implies recorded(
        t,
        spec_make_name(mn, opt_str((#[trigger] m.enum_type@[j].value@[v]).name)),
        KindView::EnumValue {
            parent: spec_make_name(mn, opt_str(m.enum_type@[j].name)),
            number: opt_i32(m.enum_type@[j].value@[v].number),
        },
    ) by {
        let e = m.enum_type@[j];
        let n = spec_make_name(mn, opt_str(e.value@[v].name));
        let k = KindView::EnumValue {
            parent: spec_make_name(mn, opt_str(e.name)),
            number: opt_i32(e.value@[v].number),
        };
        assert forall|at: Seq<i32>| has_def(#[trigger] message_defs(s, at, m), n, k) by {
            let ep = at.push(crate::descriptor::MESSAGE_ENUM_TYPE);
            lemma_enum_defs_has(mn, ep.push(j as i32), e);
            assert(has_def(enum_defs(mn, ep.push(j as i32), e), n, k));
            lemma_enums_has(mn, ep, m.enum_type@, j, n, k);
            lemma_message_parts(s, at, m, 4, n, k);
        }
        lemma_message_def_recorded(file, files, source, idxs, s, m, n, k);
    }
    assert forall|j: int| 0 <= j < m.extension@.len() implies recorded(
        t,
        spec_make_name(mn, opt_str((#[trigger] m.extension@[j]).name)),
        descriptor_field_kind(m.extension@[j]),
    ) by {
        let n = spec_make_name(mn, opt_str(m.extension@[j].name));
        let k = descriptor_field_kind(m.extension@[j]);
        assert forall|at: Seq<i32>| has_def(#[trigger] message_defs(s, at, m), n, k) by {
            lemma_fields_has(mn, at.push(crate::descriptor::MESSAGE_EXTENSION), m.extension@, j);
            lemma_message_parts(s, at, m, 5, n, k);
        }
        lemma_message_def_recorded(file, files, source, idxs, s, m, n, k);
    }
}

// ---------------------------------------------------------------------------
// Merging imported names
// ---------------------------------------------------------------------------

/// `name` is a public name of `other` that `m` already holds, other than a
/// package that both declare as a package: merging `other` into `m` must
/// refuse it.
pub open spec fn merge_conflict(m: MapModel, other: MapModel, name: Seq<char>) -> bool {
    &&& other.entries.contains_key(name)
    &&& other.entries[name].public
    &&& m.entries.contains_key(name)
    &&& !(other.entries[name].kind is Package && m.entries[name].kind is Package)
}

proof fn lemma_merge_from_conflicts(
    m0: MapModel,
    mi: MapModel,
    other: MapModel,
    i: int,
    file: Seq<char>,
    source: Option<Seq<u8>>,
    public: bool,
)
    requires
        other.wf(),
        0 <= i <= other.order.len(),
        forall|j: int|
            i <= j < other.order.len() ==> (mi.entries.contains_key(#[trigger] other.order[j])
                == m0.entries.contains_key(other.order[j])) && (m0.entries.contains_key(other.order[j])
                ==> mi.entries[other.order[j]] == m0.entries[other.order[j]]),
    ensures
        ({
            let r = spec_merge_from(mi, other, i, file, source, public).1;
            &&& (r is Some <==> exists|j: int|
                i <= j < other.order.len() && merge_conflict(m0, other, #[trigger] other.order[j]))
            &&& (r matches Some(e) ==> {
                &&& merge_conflict(m0, other, e.name)
                &&& e.first == spec_name_location(
                    m0.entries[e.name].file,
                    spec_entry_span(m0.entries[e.name].span, source),
                )
                &&& e.second == spec_name_location(
                    Some(file),
                    spec_entry_span(other.entries[e.name].span, source),
                )
            })
        }),
    decreases other.order.len() - i,
{
    if i < other.order.len() {
        let name = other.order[i];
        assert(other.order.contains(name));
        let e = other.entries[name];
        let mi2 = if e.public {
            spec_add(mi, name, e.kind, e.span, Some(file), source, public).0
        } else {
            mi
        };
        assert forall|j: int| i + 1 <= j < other.order.len() implies (mi2.entries.contains_key(
            #[trigger] other.order[j],
        ) == m0.entries.contains_key(other.order[j])) && (m0.entries.contains_key(other.order[j])
            ==> mi2.entries[other.order[j]] == m0.entries[other.order[j]]) by {
            assert(other.order[j] != name);
        }
        lemma_merge_from_conflicts(m0, mi2, other, i + 1, file, source, public);
        let r = spec_merge_from(mi, other, i, file, source, public).1;
        if merge_conflict(m0, other, name) {
            assert(r is Some);
        } else {
            assert forall|j: int| i <= j < other.order.len() && merge_conflict(m0, other, #[trigger] other.order[j])
                implies i + 1 <= j by {}
            if exists|j: int| i + 1 <= j < other.order.len() && merge_conflict(m0, other, #[trigger] other.order[j]) {
                let j = choose|j: int| i + 1 <= j < other.order.len() && merge_conflict(m0, other, #[trigger] other.order[j]);
                assert(i <= j);
            }
        }
    }
}

/// A merge is refused exactly when some public name of the imported table
/// is already in the table and is not a package declared again as a
/// package; the refused name is such a name, located first by the record
/// already held and then as coming from the imported file. The imported
/// table's private names never make a merge fail.
pub proof fn lemma_merge_refuses_only_public_conflicts(
    m: MapModel,
    other: MapModel,
    file: Seq<char>,
    source: Option<Seq<u8>>,
    public: bool,
)
    requires
        other.wf(),
    ensures
        ({
            let r = spec_merge(m, other, file, source, public).1;
            &&& (r is Some <==> exists|name: Seq<char>| #[trigger] merge_conflict(m, other, name))
            &&& (r matches Some(e) ==> {
                &&& merge_conflict(m, other, e.name)
                &&& e.first == spec_name_location(
                    m.entries[e.name].file,
                    spec_entry_span(m.entries[e.name].span, source),
                )
                &&& e.second == LocationView::Import(file)
            })
        }),
{
    lemma_merge_from_conflicts(m, m, other, 0, file, source, public);
    if exists|name: Seq<char>| #[trigger] merge_conflict(m, other, name) {
        let name = choose|name: Seq<char>| #[trigger] merge_conflict(m, other, name);
        assert(other.order.contains(name));
        let j = choose|j: int| 0 <= j < other.order.len() && other.order[j] == name;
        assert(merge_conflict(m, other, other.order[j]));
    }
}

// ---------------------------------------------------------------------------
// Which imported names a file passes on
// ---------------------------------------------------------------------------

/// The checked file that the `k`-th import of `file` names.
pub open spec fn imported_file(file: FileDescriptorProto, files: Seq<ParsedFile>, k: int) -> ParsedFile {
    files[find_file(files, file.dependency@[k]@).unwrap()]
}

/// Every checked file's table is well formed.
pub open spec fn files_wf(files: Seq<ParsedFile>) -> bool {
    forall|i: int| 0 <= i < files.len() ==> (#[trigger] files[i]).name_map.wf()
}

/// `name` is a public name, not a package, of the table of the `k`-th import.
pub open spec fn exported_by(file: FileDescriptorProto, files: Seq<ParsedFile>, k: int, name: Seq<char>) -> bool {
    let other = imported_file(file, files, k).name_map@;
    &&& other.entries.contains_key(name)
    &&& other.entries[name].public
    &&& !(other.entries[name].kind is Package)
}

proof fn lemma_imports_record(
    st0: PassState,
    file: FileDescriptorProto,
    files: Seq<ParsedFile>,
    n: int,
    source: Option<Seq<u8>>,
)
    requires
        st0.map.wf(),
        files_wf(files),
        imports_found(file, files),
        0 <= n <= file.dependency@.len(),
        imports_state(st0, file, files, n, source).errors.len() == st0.errors.len(),
    ensures
        imports_state(st0, file, files, n, source).map.wf(),
        forall|k: int, name: Seq<char>|
            0 <= k < n && #[trigger] exported_by(file, files, k, name) ==> {
                let t = imports_state(st0, file, files, n, source).map.entries;
                let other = imported_file(file, files, k).name_map@;
                &&& t.contains_key(name)
                &&& t[name].kind == other.entries[name].kind
                &&& t[name].file == Some(imported_file(file, files, k).name@)
                &&& t[name].public == file.public_dependency@.contains(k as i32)
            },
    decreases n,
{
    if n > 0 {
        let mid = imports_state(st0, file, files, n - 1, source);
        lemma_imports_grow(st0, file, files, n - 1, source);
        lemma_imports_record(st0, file, files, n - 1, source);
        let k = n - 1;
        lemma_find_file(files, file.dependency@[k]@);
        let f = imported_file(file, files, k);
        assert(f.name_map.wf());
        let other = f.name_map@;
        let public = file.public_dependency@.contains(k as i32);
        let (m2, e) = spec_merge(mid.map, other, f.name@, source, public);
        assert(e is None);
        lemma_merge_success(mid.map, other, 0, f.name@, source, public);
        lemma_merge_from_keeps(mid.map, other, 0, f.name@, source, public);
        lemma_merge_refuses_only_public_conflicts(mid.map, other, f.name@, source, public);
        let t = imports_state(st0, file, files, n, source).map.entries;
        assert(t == m2.entries);
        assert forall|kk: int, name: Seq<char>|
            0 <= kk < n && #[trigger] exported_by(file, files, kk, name) implies {
                let o = imported_file(file, files, kk).name_map@;
                &&& t.contains_key(name)
                &&& t[name].kind == o.entries[name].kind
                &&& t[name].file == Some(imported_file(file, files, kk).name@)
                &&& t[name].public == file.public_dependency@.contains(kk as i32)
            } by {
            if kk == k {
                assert(!merge_conflict(mid.map, other, name));
                assert(!mid.map.entries.contains_key(name));
                assert(other.order.contains(name));
                let j = choose|j: int| 0 <= j < other.order.len() && other.order[j] == name;
                assert(0 <= j < other.order.len() && other.order[j] == name && other.entries[name].public);
            } else {
                assert(mid.map.entries.contains_key(name));
            }
        }
    }
}

/// A name merged from the `k`-th import of a file whose check reports no
/// error is recorded as coming from that import, with its kind, and is
/// visible to the file's own importers exactly when `k` is listed among
/// the file's public dependencies.
pub proof fn lemma_import_visibility(
    file: FileDescriptorProto,
    files: Seq<ParsedFile>,
    source: Option<Seq<u8>>,
    k: int,
    name: Seq<char>,
)
    requires
        spec_from_proto(file, files, source).errors.len() == 0,
        files_wf(files),
        imports_found(file, files),
        0 <= k < file.dependency@.len(),
        exported_by(file, files, k, name),
    ensures
        ({
            let t = spec_from_proto(file, files, source).map.entries;
            &&& t.contains_key(name)
            &&& t[name].kind == imported_file(file, files, k).name_map@.entries[name].kind
            &&& t[name].file == Some(imported_file(file, files, k).name@)
            &&& t[name].public == file.public_dependency@.contains(k as i32)
        }),
{
    let st0 = PassState { map: MapModel::empty(), errors: Seq::empty() };
    let st1 = crate::pass::imports_state(st0, file, files, file.dependency@.len() as int, source);
    lemma_imports_grow(st0, file, files, file.dependency@.len() as int, source);
    lemma_apply_defs_grows(st1, file_defs(file), crate::descriptor::spec_locations(file), source);
    assert(MapModel::empty().wf());
    lemma_imports_record(st0, file, files, file.dependency@.len() as int, source);
    assert(st1.map.entries.contains_key(name));
}

// ---------------------------------------------------------------------------
// Where a file's top-level declarations stand
// ---------------------------------------------------------------------------

/// In a file with package `p` whose check reports no error, each top-level
/// enum is recorded as `p.E` and each of its values as `p.V` with parent
/// `p.E`; each top-level extension as `p.x` with what its descriptor gives;
/// each service as `p.S`, and each of its methods as `p.S.m`.
pub proof fn lemma_file_declarations_in_package_scope(
    file: FileDescriptorProto,
    files: Seq<ParsedFile>,
    source: Option<Seq<u8>>,
)
    requires
        spec_from_proto(file, files, source).errors.len() == 0,
        package_ok(file),
    ensures
        ({
            let t = spec_from_proto(file, files, source).map.entries;
            let p = opt_str(file.package);
            &&& forall|j: int|
                0 <= j < file.enum_type@.len() ==> recorded(
                    t,
                    spec_make_name(p, opt_str((#[trigger] file.enum_type@[j]).name)),
                    KindView::Enum,
                )
            &&& forall|j: int, v: int|
                0 <= j < file.enum_type@.len() && 0 <= v < file.enum_type@[j].value@.len() ==> recorded(
                    t,
                    spec_make_name(p, opt_str((#[trigger] file.enum_type@[j].value@[v]).name)),
                    KindView::EnumValue {
                        parent: spec_make_name(p, opt_str(file.enum_type@[j].name)),
                        number: opt_i32(file.enum_type@[j].value@[v].number),
                    },
                )
            &&& forall|j: int|
                0 <= j < file.extension@.len() ==> recorded(
                    t,
                    spec_make_name(p, opt_str((#[trigger] file.extension@[j]).name)),
                    descriptor_field_kind(file.extension@[j]),
                )
            &&& forall|j: int|
                0 <= j < file.service@.len() ==> recorded(
                    t,
                    spec_make_name(p, opt_str((#[trigger] file.service@[j]).name)),
                    KindView::Service,
                )
            &&& forall|j: int, q: int|
                0 <= j < file.service@.len() && 0 <= q < file.service@[j].method@.len() ==> recorded(
                    t,
                    spec_make_name(
                        spec_make_name(p, opt_str(file.service@[j].name)),
                        opt_str((#[trigger] file.service@[j].method@[q]).name),
                    ),
                    KindView::Method,
                )
        }),
{
    lemma_scope_is_package(file);
    let p = join_dots(package_parts(file));
    let ep = seq![crate::descriptor::FILE_ENUM_TYPE];
    assert forall|j: int| 0 <= j < file.enum_type@.len() implies recorded(
        spec_from_proto(file, files, source).map.entries,
        spec_make_name(p, opt_str((#[trigger] file.enum_type@[j]).name)),
        KindView::Enum,
    ) by {
        let e = file.enum_type@[j];
        lemma_enum_defs_has(p, ep.push(j as i32), e);
        lemma_enums_has(p, ep, file.enum_type@, j, spec_make_name(p, opt_str(e.name)), KindView::Enum);
        lemma_file_parts(file, 2, spec_make_name(p, opt_str(e.name)), KindView::Enum);
        lemma_file_def_recorded(file, files, source, spec_make_name(p, opt_str(e.name)), KindView::Enum);
    }
    assert forall|j: int, v: int|
        0 <= j < file.enum_type@.len() && 0 <= v < file.enum_type@[j].value@.len() implies recorded(
        spec_from_proto(file, files, source).map.entries,
        spec_make_name(p, opt_str((#[trigger] file.enum_type@[j].value@[v]).name)),
        KindView::EnumValue {
            parent: spec_make_name(p, opt_str(file.enum_type@[j].name)),
            number: opt_i32(file.enum_type@[j].value@[v].number),
        },
    ) by {
        let e = file.enum_type@[j];
        let n = spec_make_name(p, opt_str(e.value@[v].name));
        let k = KindView::EnumValue {
            parent: spec_make_name(p, opt_str(e.name)),
            number: opt_i32(e.value@[v].number),
        };
        lemma_enum_defs_has(p, ep.push(j as i32), e);
        assert(has_def(enum_defs(p, ep.push(j as i32), e), n, k));
        lemma_enums_has(p, ep, file.enum_type@, j, n, k);
        lemma_file_parts(file, 2, n, k);
        lemma_file_def_recorded(file, files, source, n, k);
    }
    assert forall|j: int| 0 <= j < file.extension@.len() implies recorded(
        spec_from_proto(file, files, source).map.entries,
        spec_make_name(p, opt_str((#[trigger] file.extension@[j]).name)),
        descriptor_field_kind(file.extension@[j]),
    ) by {
        let n = spec_make_name(p, opt_str(file.extension@[j].name));
        lemma_fields_has(p, seq![crate::descriptor::FILE_EXTENSION], file.extension@, j);
        lemma_file_parts(file, 3, n, descriptor_field_kind(file.extension@[j]));
        lemma_file_def_recorded(file, files, source, n, descriptor_field_kind(file.extension@[j]));
    }
    let sp = seq![crate::descriptor::FILE_SERVICE];
    assert forall|j: int| 0 <= j < file.service@.len() implies recorded(
        spec_from_proto(file, files, source).map.entries,
        spec_make_name(p, opt_str((#[trigger] file.service@[j]).name)),
        KindView::Service,
    ) by {
        let sv = file.service@[j];
        let n = spec_make_name(p, opt_str(sv.name));
        let head = seq![Def { name: n, kind: KindView::Service, path: sp.push(j as i32).push(crate::descriptor::SERVICE_NAME) }];
        let ms = methods_defs(n, sp.push(j as i32).push(crate::descriptor::SERVICE_METHOD), sv.method@);
        assert(service_defs(p, sp.push(j as i32), sv) == head + ms);
        assert(head[0].name == n);
        lemma_has_def_left(head, ms, n, KindView::Service);
        lemma_services_has(p, sp, file.service@, j, n, KindView::Service);
        lemma_file_parts(file, 4, n, KindView::Service);
        lemma_file_def_recorded(file, files, source, n, KindView::Service);
    }
    assert forall|j: int, q: int|
        0 <= j < file.service@.len() && 0 <= q < file.service@[j].method@.len() implies recorded(
        spec_from_proto(file, files, source).map.entries,
        spec_make_name(
            spec_make_name(p, opt_str(file.service@[j].name)),
            opt_str((#[trigger] file.service@[j].method@[q]).name),
        ),
        KindView::Method,
    ) by {
        let sv = file.service@[j];
        let sn = spec_make_name(p, opt_str(sv.name));
        let n = spec_make_name(sn, opt_str(sv.method@[q].name));
        let head = seq![Def { name: sn, kind: KindView::Service, path: sp.push(j as i32).push(crate::descriptor::SERVICE_NAME) }];
        let ms = methods_defs(sn, sp.push(j as i32).push(crate::descriptor::SERVICE_METHOD), sv.method@);
        assert(service_defs(p, sp.push(j as i32), sv) == head + ms);
        lemma_methods_has(sn, sp.push(j as i32).push(crate::descriptor::SERVICE_METHOD), sv.method@, q);
        lemma_has_def_right(head, ms, n, KindView::Method);
        lemma_services_has(p, sp, file.service@, j, n, KindView::Method);
        lemma_file_parts(file, 4, n, KindView::Method);
        lemma_file_def_recorded(file, files, source, n, KindView::Method);
    }
}

// ---------------------------------------------------------------------------
// Where a file's package stands
// ---------------------------------------------------------------------------

/// When recording reports no error, each package definition stands in the
/// table as a package.
proof fn lemma_apply_defs_packages(st: PassState, ds: Seq<Def>, locs: Seq<Location>, source: Option<Seq<u8>>)
    requires
        apply_defs(st, ds, locs, source).errors.len() == st.errors.len(),
    ensures
        forall|j: int|
            0 <= j < ds.len() && (#[trigger] ds[j]).kind is Package ==> recorded(
                apply_defs(st, ds, locs, source).map.entries,
                ds[j].name,
                KindView::Package,
            ),
    decreases ds.len(),
{
    if ds.len() > 0 {
        let mid = apply_defs(st, ds.drop_last(), locs, source);
        lemma_apply_defs_grows(st, ds.drop_last(), locs, source);
        let fin = apply_defs(st, ds, locs, source);
        assert(fin == apply_def(mid, ds.last(), locs, source));
        lemma_apply_defs_packages(st, ds.drop_last(), locs, source);
        assert forall|j: int| 0 <= j < ds.len() && (#[trigger] ds[j]).kind is Package implies recorded(
            fin.map.entries,
            ds[j].name,
            KindView::Package,
        ) by {
            if j < ds.len() - 1 {
                assert(ds.drop_last()[j] == ds[j]);
            }
        }
    }
}

/// Every dotted prefix of a package name (ending just before a `.`, or the
/// whole name) is one of the package's definitions.
proof fn lemma_package_prefixes(s: Seq<char>, i: int)
    requires
        s.len() > 0,
        s[0] != '.',
        0 < i <= s.len(),
        i == s.len() || s[i] == '.',
    ensures
        has_def(crate::pass::package_defs(crate::pass::split_dots(s)), s.take(i), KindView::Package),
    decreases s.len(),
{
    crate::naming::lemma_last_dot(s);
    let parts = crate::pass::split_dots(s);
    let d = crate::naming::last_dot(s);
    crate::pass::lemma_split_dots(s);
    let last = Def { name: join_dots(parts), kind: KindView::Package, path: seq![crate::descriptor::FILE_PACKAGE] };
    assert(crate::pass::package_defs(parts) == crate::pass::package_defs(parts.drop_last()).push(last));
    if i == s.len() {
        lemma_join_split(s);
        assert(s.take(i) =~= s);
        lemma_has_def_push(crate::pass::package_defs(parts.drop_last()), last, s.take(i), KindView::Package);
    } else {
        assert(d >= i);
        assert(d > 0);
        let pre = s.take(d);
        assert(parts.drop_last() =~= crate::pass::split_dots(pre));
        if i == d {
            lemma_package_prefixes(pre, d);
            assert(pre.take(d) =~= s.take(i));
        } else {
            assert(pre[i] == '.');
            lemma_package_prefixes(pre, i);
            assert(pre.take(i) =~= s.take(i));
        }
        lemma_has_def_push(crate::pass::package_defs(parts.drop_last()), last, s.take(i), KindView::Package);
    }
}

/// A file with package `p` whose check reports no error records `p` and
/// each of its dotted prefixes (`a` and `a.b` for `a.b.c`) as a package.
pub proof fn lemma_package_components_recorded(
    file: FileDescriptorProto,
    files: Seq<ParsedFile>,
    source: Option<Seq<u8>>,
    i: int,
)
    requires
        spec_from_proto(file, files, source).errors.len() == 0,
        package_ok(file),
        0 < i <= opt_str(file.package).len(),
        i == opt_str(file.package).len() || opt_str(file.package)[i] == '.',
    ensures
        recorded(
            spec_from_proto(file, files, source).map.entries,
            opt_str(file.package).take(i),
            KindView::Package,
        ),
{
    let p = opt_str(file.package);
    lemma_package_prefixes(p, i);
    let pk = crate::pass::package_defs(package_parts(file));
    let scope = join_dots(package_parts(file));
    let rest = messages_defs(scope, seq![crate::descriptor::FILE_MESSAGE_TYPE], file.message_type@)
        + enums_defs(scope, seq![crate::descriptor::FILE_ENUM_TYPE], file.enum_type@)
        + fields_defs(scope, seq![crate::descriptor::FILE_EXTENSION], file.extension@)
        + services_defs(scope, seq![crate::descriptor::FILE_SERVICE], file.service@);
    assert(file_defs(file) =~= pk + rest);
    lemma_has_def_left(pk, rest, p.take(i), KindView::Package);
    let st0 = PassState { map: MapModel::empty(), errors: Seq::empty() };
    let st1 = crate::pass::imports_state(st0, file, files, file.dependency@.len() as int, source);
    lemma_imports_grow(st0, file, files, file.dependency@.len() as int, source);
    lemma_apply_defs_grows(st1, file_defs(file), crate::descriptor::spec_locations(file), source);
    lemma_apply_defs_packages(st1, file_defs(file), crate::descriptor::spec_locations(file), source);
    let ds = file_defs(file);
    let j = choose|j: int| 0 <= j < ds.len() && (#[trigger] ds[j]).name == p.take(i) && ds[j].kind == KindView::Package;
    assert(ds[j].kind is Package);
}

} // verus!
