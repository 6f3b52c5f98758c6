use protox::check::CheckError;
use protox::descriptor::{
    DescriptorProto, EnumDescriptorProto, EnumValueDescriptorProto, ExtensionRange,
    FieldDescriptorProto, FieldLabel, FieldType, FileDescriptorProto, Location,
    MethodDescriptorProto, OneofDescriptorProto, ServiceDescriptorProto, SourceCodeInfo,
};
use protox::names::{DefinitionKind, DuplicateNameError, NameLocation, NameMap};
use protox::parsed::{ParsedFile, ParsedFileMap};
use protox::span::SourceSpan;

fn s(x: &str) -> Option<String> {
    Some(x.to_string())
}

fn message(name: &str) -> DescriptorProto {
    DescriptorProto {
        name: s(name),
        field: vec![],
        extension: vec![],
        nested_type: vec![],
        enum_type: vec![],
        extension_range: vec![],
        oneof_decl: vec![],
    }
}

fn file(name: &str, package: Option<&str>) -> FileDescriptorProto {
    FileDescriptorProto {
        name: s(name),
        package: package.map(|p| p.to_string()),
        dependency: vec![],
        public_dependency: vec![],
        message_type: vec![],
        enum_type: vec![],
        service: vec![],
        extension: vec![],
        source_code_info: None,
    }
}

fn field(name: &str, number: i32) -> FieldDescriptorProto {
    FieldDescriptorProto {
        name: s(name),
        number: Some(number),
        label: Some(1),
        field_type: Some(9),
        ..Default::default()
    }
}

fn errors_of(r: Result<NameMap, Vec<CheckError>>) -> Vec<CheckError> {
    match r {
        Ok(_) => panic!("expected errors"),
        Err(e) => e,
    }
}

fn empty_map() -> ParsedFileMap {
    ParsedFileMap { files: vec![] }
}

fn rich_file() -> FileDescriptorProto {
    let mut msg = message("Msg");
    msg.field.push(field("x", 1));
    msg.oneof_decl.push(OneofDescriptorProto { name: s("choice") });
    msg.nested_type.push(message("Inner"));
    msg.extension_range.push(ExtensionRange { start: Some(100), end: Some(200) });
    let mut f = file("a.proto", Some("foo.bar"));
    f.message_type.push(msg);
    f.enum_type.push(EnumDescriptorProto {
        name: s("Color"),
        value: vec![
            EnumValueDescriptorProto { name: s("RED"), number: Some(0) },
            EnumValueDescriptorProto { name: s("BLUE"), number: Some(3) },
        ],
    });
    f.service.push(ServiceDescriptorProto {
        name: s("Svc"),
        method: vec![MethodDescriptorProto { name: s("Call") }],
    });
    f.extension.push(FieldDescriptorProto {
        name: s("ext"),
        number: Some(150),
        extendee: s(".foo.bar.Msg"),
        ..Default::default()
    });
    f
}

#[test]
fn from_proto_records_every_definition() {
    let map = NameMap::from_proto(&rich_file(), &empty_map(), None).unwrap();
    assert_eq!(map.get("foo"), Some(&DefinitionKind::Package));
    assert_eq!(map.get("foo.bar"), Some(&DefinitionKind::Package));
    assert!(matches!(map.get("foo.bar.Msg"), Some(DefinitionKind::Message { .. })));
    assert_eq!(map.get("foo.bar.Msg.choice"), Some(&DefinitionKind::Oneof));
    assert!(matches!(map.get("foo.bar.Msg.Inner"), Some(DefinitionKind::Message { .. })));
    assert_eq!(map.get("foo.bar.Color"), Some(&DefinitionKind::Enum));
    assert_eq!(map.get("foo.bar.Svc"), Some(&DefinitionKind::Service));
    assert_eq!(map.get("foo.bar.Svc.Call"), Some(&DefinitionKind::Method));
    assert_eq!(map.get("Msg"), None);
    assert_eq!(map.get("foo.bar.Msg.Inner.x"), None);
    assert_eq!(map.iter().len(), 12);
}

#[test]
fn enum_values_are_siblings_of_their_enum() {
    let map = NameMap::from_proto(&rich_file(), &empty_map(), None).unwrap();
    assert_eq!(
        map.get("foo.bar.RED"),
        Some(&DefinitionKind::EnumValue { parent: "foo.bar.Color".to_string(), number: 0 })
    );
    assert_eq!(
        map.get("foo.bar.BLUE"),
        Some(&DefinitionKind::EnumValue { parent: "foo.bar.Color".to_string(), number: 3 })
    );
    assert_eq!(map.get("foo.bar.Color.RED"), None);
}

#[test]
fn fields_record_their_number_type_and_label() {
    let map = NameMap::from_proto(&rich_file(), &empty_map(), None).unwrap();
    assert_eq!(
        map.get("foo.bar.Msg.x"),
        Some(&DefinitionKind::Field {
            number: 1,
            ty: Some(FieldType::Str),
            field_type_name: None,
            label: Some(FieldLabel::Optional),
            oneof_index: None,
            extendee: None,
        })
    );
    assert_eq!(
        map.get("foo.bar.ext"),
        Some(&DefinitionKind::Field {
            number: 150,
            ty: None,
            field_type_name: None,
            label: None,
            oneof_index: None,
            extendee: Some(".foo.bar.Msg".to_string()),
        })
    );
}

#[test]
fn messages_record_their_extension_ranges() {
    let map = NameMap::from_proto(&rich_file(), &empty_map(), None).unwrap();
    match map.get("foo.bar.Msg") {
        Some(DefinitionKind::Message { extension_numbers }) => {
            assert_eq!(
                extension_numbers,
                &protox::inversion_list::InversionList::new(vec![(100, 200)])
            );
        }
        other => panic!("unexpected {:?}", other),
    }
}

#[test]
fn iter_lists_names_in_definition_order() {
    let map = NameMap::from_proto(&rich_file(), &empty_map(), None).unwrap();
    let names: Vec<&str> = map.iter().into_iter().map(|(n, _)| n).collect();
    assert_eq!(
        names,
        vec![
            "foo",
            "foo.bar",
            "foo.bar.Msg",
            "foo.bar.Msg.x",
            "foo.bar.Msg.choice",
            "foo.bar.Msg.Inner",
            "foo.bar.Color",
            "foo.bar.RED",
            "foo.bar.BLUE",
            "foo.bar.ext",
            "foo.bar.Svc",
            "foo.bar.Svc.Call",
        ]
    );
}

#[test]
fn duplicate_definitions_are_all_reported() {
    let mut f = file("a.proto", None);
    f.message_type.push(message("Msg"));
    f.message_type.push(message("Msg"));
    f.enum_type.push(EnumDescriptorProto { name: s("Msg"), value: vec![] });
    let errors = errors_of(NameMap::from_proto(&f, &empty_map(), None));
    let expected = DuplicateNameError {
        name: "Msg".to_string(),
        first: NameLocation::Unknown,
        second: NameLocation::Unknown,
    };
    assert_eq!(
        errors,
        vec![
            CheckError::DuplicateName(expected.clone()),
            CheckError::DuplicateName(expected),
        ]
    );
}

#[test]
fn duplicate_located_by_source_spans() {
    let source = "message Msg {}\nmessage Msg {}\n";
    let mut f = file("a.proto", None);
    f.message_type.push(message("Msg"));
    f.message_type.push(message("Msg"));
    f.source_code_info = Some(SourceCodeInfo {
        location: vec![
            Location { path: vec![4, 0, 1], span: vec![0, 8, 11] },
            Location { path: vec![4, 1, 1], span: vec![1, 8, 1, 11] },
        ],
    });
    let errors = errors_of(NameMap::from_proto(&f, &empty_map(), Some(source)));
    let err = DuplicateNameError {
        name: "Msg".to_string(),
        first: NameLocation::Root(SourceSpan::new(8, 3)),
        second: NameLocation::Root(SourceSpan::new(23, 3)),
    };
    assert_eq!(errors, vec![CheckError::DuplicateName(err.clone())]);
    assert_eq!(err.message(), "name 'Msg' is defined twice");
    assert_eq!(
        err.labels(),
        Some(vec![
            ("first defined here…".to_string(), SourceSpan::new(8, 3)),
            ("…and defined again here".to_string(), SourceSpan::new(23, 3)),
        ])
    );
}

#[test]
fn spans_need_the_source_text() {
    let mut f = file("a.proto", None);
    f.message_type.push(message("Msg"));
    f.message_type.push(message("Msg"));
    f.source_code_info = Some(SourceCodeInfo {
        location: vec![
            Location { path: vec![4, 0, 1], span: vec![0, 8, 11] },
            Location { path: vec![4, 1, 1], span: vec![1, 8, 11] },
        ],
    });
    let errors = errors_of(NameMap::from_proto(&f, &empty_map(), None));
    assert_eq!(
        errors,
        vec![CheckError::DuplicateName(DuplicateNameError {
            name: "Msg".to_string(),
            first: NameLocation::Unknown,
            second: NameLocation::Unknown,
        })]
    );
}

#[test]
fn a_package_may_be_declared_by_several_files() {
    let dep_file = file("dep.proto", Some("foo"));
    let dep_map = NameMap::from_proto(&dep_file, &empty_map(), None).unwrap();
    let files = ParsedFileMap {
        files: vec![ParsedFile { name: "dep.proto".to_string(), name_map: dep_map }],
    };
    let mut f = file("a.proto", Some("foo"));
    f.dependency.push("dep.proto".to_string());
    let map = NameMap::from_proto(&f, &files, None).unwrap();
    assert_eq!(map.get("foo"), Some(&DefinitionKind::Package));
    assert_eq!(map.iter().len(), 1);
}

fn dep_files() -> ParsedFileMap {
    let mut dep = file("dep.proto", Some("dep"));
    dep.message_type.push(message("Thing"));
    let dep_map = NameMap::from_proto(&dep, &empty_map(), None).unwrap();
    ParsedFileMap { files: vec![ParsedFile { name: "dep.proto".to_string(), name_map: dep_map }] }
}

#[test]
fn names_from_a_private_import_are_not_passed_on() {
    let mut mid = file("mid.proto", Some("mid"));
    mid.dependency.push("dep.proto".to_string());
    mid.message_type.push(message("Own"));
    let mid_map = NameMap::from_proto(&mid, &dep_files(), None).unwrap();
    assert!(mid_map.get("dep.Thing").is_some());

    let mut files = dep_files();
    files.files.push(ParsedFile { name: "mid.proto".to_string(), name_map: mid_map });
    let mut top = file("top.proto", None);
    top.dependency.push("mid.proto".to_string());
    let top_map = NameMap::from_proto(&top, &files, None).unwrap();
    assert!(top_map.get("mid.Own").is_some());
    assert!(top_map.get("mid").is_some());
    assert_eq!(top_map.get("dep.Thing"), None);
    assert_eq!(top_map.get("dep"), None);
}

#[test]
fn names_from_a_public_import_are_passed_on() {
    let mut mid = file("mid.proto", Some("mid"));
    mid.dependency.push("dep.proto".to_string());
    mid.public_dependency.push(0);
    let mid_map = NameMap::from_proto(&mid, &dep_files(), None).unwrap();

    let mut files = dep_files();
    files.files.push(ParsedFile { name: "mid.proto".to_string(), name_map: mid_map });
    let mut top = file("top.proto", None);
    top.dependency.push("mid.proto".to_string());
    let top_map = NameMap::from_proto(&top, &files, None).unwrap();
    assert!(matches!(top_map.get("dep.Thing"), Some(DefinitionKind::Message { .. })));
}

#[test]
fn a_name_defined_in_an_import_cannot_be_defined_again() {
    let mut f = file("a.proto", Some("dep"));
    f.dependency.push("dep.proto".to_string());
    f.message_type.push(message("Thing"));
    let errors = errors_of(NameMap::from_proto(&f, &dep_files(), None));
    let err = DuplicateNameError {
        name: "dep.Thing".to_string(),
        first: NameLocation::Import("dep.proto".to_string()),
        second: NameLocation::Unknown,
    };
    assert_eq!(errors, vec![CheckError::DuplicateName(err.clone())]);
    assert_eq!(err.message(), "name 'dep.Thing' is already defined in imported file 'dep.proto'");
    assert_eq!(err.labels(), None);
}

#[test]
fn a_name_imported_twice_is_reported() {
    let mut other = file("other.proto", Some("dep"));
    other.message_type.push(message("Thing"));
    let other_map = NameMap::from_proto(&other, &empty_map(), None).unwrap();
    let mut files = dep_files();
    files.files.push(ParsedFile { name: "other.proto".to_string(), name_map: other_map });
    let mut f = file("a.proto", None);
    f.dependency.push("dep.proto".to_string());
    f.dependency.push("other.proto".to_string());
    let errors = errors_of(NameMap::from_proto(&f, &files, None));
    let err = DuplicateNameError {
        name: "dep.Thing".to_string(),
        first: NameLocation::Import("dep.proto".to_string()),
        second: NameLocation::Import("other.proto".to_string()),
    };
    assert_eq!(errors, vec![CheckError::DuplicateName(err.clone())]);
    assert_eq!(
        err.message(),
        "name 'dep.Thing' is defined both in imported file 'dep.proto' and 'other.proto'"
    );
}

#[test]
fn resolve_prefers_the_innermost_scope() {
    let mut outer = message("Outer");
    outer.nested_type.push(message("Thing"));
    let mut f = file("a.proto", Some("pkg"));
    f.message_type.push(message("Thing"));
    f.message_type.push(outer);
    let map = NameMap::from_proto(&f, &empty_map(), None).unwrap();

    let (name, kind) = map.resolve("pkg.Outer", "Thing").unwrap();
    assert_eq!(name, ".pkg.Outer.Thing");
    assert!(matches!(kind, DefinitionKind::Message { .. }));

    let (name, _) = map.resolve("pkg.Other.Deep", "Thing").unwrap();
    assert_eq!(name, ".pkg.Thing");

    let (name, _) = map.resolve("pkg.Outer", ".pkg.Thing").unwrap();
    assert_eq!(name, ".pkg.Thing");

    let (name, _) = map.resolve("", "pkg.Outer.Thing").unwrap();
    assert_eq!(name, ".pkg.Outer.Thing");

    assert!(map.resolve("pkg.Outer", "Missing").is_none());
    assert!(map.resolve("pkg", ".Thing").is_none());
}

#[test]
fn new_map_is_empty() {
    let map = NameMap::new();
    assert_eq!(map.iter().len(), 0);
    assert_eq!(map.get(""), None);
}

#[test]
fn a_file_without_package_defines_top_level_names() {
    let mut f = file("a.proto", None);
    f.message_type.push(message("Top"));
    let map = NameMap::from_proto(&f, &empty_map(), None).unwrap();
    assert!(map.get("Top").is_some());
    assert_eq!(map.iter().len(), 1);
}

#[test]
fn a_leading_dot_in_the_package_gives_an_empty_component() {
    let mut f = file("a.proto", Some(".a"));
    f.message_type.push(message("M"));
    let map = NameMap::from_proto(&f, &empty_map(), None).unwrap();
    assert_eq!(map.get(""), Some(&DefinitionKind::Package));
    assert_eq!(map.get("a"), Some(&DefinitionKind::Package));
    assert!(map.get("a.M").is_some());
    assert_eq!(map.iter().len(), 3);
}

#[test]
fn a_message_named_like_a_package_component_is_a_duplicate() {
    let mut f = file("a.proto", Some("a.b"));
    f.message_type.push(message("x"));
    let map = NameMap::from_proto(&f, &empty_map(), None).unwrap();
    let files = ParsedFileMap {
        files: vec![ParsedFile { name: "a.proto".to_string(), name_map: map }],
    };
    let mut g = file("b.proto", Some("a"));
    g.dependency.push("a.proto".to_string());
    g.message_type.push(message("b"));
    let errors = errors_of(NameMap::from_proto(&g, &files, None));
    assert_eq!(
        errors,
        vec![CheckError::DuplicateName(DuplicateNameError {
            name: "a.b".to_string(),
            first: NameLocation::Import("a.proto".to_string()),
            second: NameLocation::Unknown,
        })]
    );
}
