//! The parts of a protobuf file descriptor that name checking reads: the
//! declarations of a file and, for each declaration, its name and the path
//! of its entry in the file's source code info.
use vstd::prelude::*;

verus! {

/// The string an optional string field reads as: its value, or `""` when unset.
pub open spec fn opt_str(s: Option<String>) -> Seq<char> {
    match s {
        Some(s) => s@,
        None => Seq::empty(),
    }
}

/// The value of an optional string field, or `""` when unset.
pub fn opt_str_value(s: &Option<String>) -> (res: &str)
    ensures
        res@ == opt_str(*s),
{
    match s {
        Some(s) => s.as_str(),
        None => {
            proof {
                reveal_strlit("");
            }
            ""
        },
    }
}

/// The value of an optional number field, or 0 when unset.
pub open spec fn opt_i32(n: Option<i32>) -> i32 {
    match n {
        Some(n) => n,
        None => 0,
    }
}

// Field numbers of the descriptor messages: an element of a location path.
/// `FileDescriptorProto.package`.
pub const FILE_PACKAGE: i32 = 2;
/// `FileDescriptorProto.message_type`.
pub const FILE_MESSAGE_TYPE: i32 = 4;
/// `FileDescriptorProto.enum_type`.
pub const FILE_ENUM_TYPE: i32 = 5;
/// `FileDescriptorProto.service`.
pub const FILE_SERVICE: i32 = 6;
/// `FileDescriptorProto.extension`.
pub const FILE_EXTENSION: i32 = 7;
/// `DescriptorProto.name`.
pub const MESSAGE_NAME: i32 = 1;
/// `DescriptorProto.field`.
pub const MESSAGE_FIELD: i32 = 2;
/// `DescriptorProto.nested_type`.
pub const MESSAGE_NESTED_TYPE: i32 = 3;
/// `DescriptorProto.enum_type`.
pub const MESSAGE_ENUM_TYPE: i32 = 4;
/// `DescriptorProto.extension`.
pub const MESSAGE_EXTENSION: i32 = 6;
/// `DescriptorProto.oneof_decl`.
pub const MESSAGE_ONEOF_DECL: i32 = 8;
/// `FieldDescriptorProto.name`.
pub const FIELD_NAME: i32 = 1;
/// `OneofDescriptorProto.name`.
pub const ONEOF_NAME: i32 = 1;
/// `EnumDescriptorProto.name`.
pub const ENUM_NAME: i32 = 1;
/// `EnumDescriptorProto.value`.
pub const ENUM_VALUE: i32 = 2;
/// `EnumValueDescriptorProto.name`.
pub const ENUM_VALUE_NAME: i32 = 1;
/// `ServiceDescriptorProto.name`.
pub const SERVICE_NAME: i32 = 1;
/// `ServiceDescriptorProto.method`.
pub const SERVICE_METHOD: i32 = 2;
/// `MethodDescriptorProto.name`.
pub const METHOD_NAME: i32 = 1;

/// The type of a field.
#[derive(Clone, Copy, Debug, PartialEq, Eq)]
pub enum FieldType {
    Double,
    Float,
    Int64,
    Uint64,
    Int32,
    Fixed64,
    Fixed32,
    Bool,
    Str,
    Group,
    Message,
    Bytes,
    Uint32,
    Enum,
    Sfixed32,
    Sfixed64,
    Sint32,
    Sint64,
}

/// The field type with wire number `n`, if there is one.
pub open spec fn spec_field_type(n: i32) -> Option<FieldType> {
    if n == 1 {
        Some(FieldType::Double)
    } else if n == 2 {
        Some(FieldType::Float)
    } else if n == 3 {
        Some(FieldType::Int64)
    } else if n == 4 {
        Some(FieldType::Uint64)
    } else if n == 5 {
        Some(FieldType::Int32)
    } else if n == 6 {
        Some(FieldType::Fixed64)
    } else if n == 7 {
        Some(FieldType::Fixed32)
    } else if n == 8 {
        Some(FieldType::Bool)
    } else if n == 9 {
        Some(FieldType::Str)
    } else if n == 10 {
        Some(FieldType::Group)
    } else if n == 11 {
        Some(FieldType::Message)
    } else if n == 12 {
        Some(FieldType::Bytes)
    } else if n == 13 {
        Some(FieldType::Uint32)
    } else if n == 14 {
        Some(FieldType::Enum)
    } else if n == 15 {
        Some(FieldType::Sfixed32)
    } else if n == 16 {
        Some(FieldType::Sfixed64)
    } else if n == 17 {
        Some(FieldType::Sint32)
    } else if n == 18 {
        Some(FieldType::Sint64)
    } else {
        None
    }
}

impl FieldType {
    /// The field type with wire number `n`, if there is one.
    pub fn from_i32(n: i32) -> (res: Option<FieldType>)
        ensures
            res == spec_field_type(n),
    {
        match n {
            1 => Some(FieldType::Double),
            2 => Some(FieldType::Float),
            3 => Some(FieldType::Int64),
            4 => Some(FieldType::Uint64),
            5 => Some(FieldType::Int32),
            6 => Some(FieldType::Fixed64),
            7 => Some(FieldType::Fixed32),
            8 => Some(FieldType::Bool),
            9 => Some(FieldType::Str),
            10 => Some(FieldType::Group),
            11 => Some(FieldType::Message),
            12 => Some(FieldType::Bytes),
            13 => Some(FieldType::Uint32),
            14 => Some(FieldType::Enum),
            15 => Some(FieldType::Sfixed32),
            16 => Some(FieldType::Sfixed64),
            17 => Some(FieldType::Sint32),
            18 => Some(FieldType::Sint64),
            _ => None,
        }
    }
}

/// The label of a field.
#[derive(Clone, Copy, Debug, PartialEq, Eq)]
pub enum FieldLabel {
    Optional,
    Required,
    Repeated,
}

/// The field label with wire number `n`, if there is one.
pub open spec fn spec_field_label(n: i32) -> Option<FieldLabel> {
    if n == 1 {
        Some(FieldLabel::Optional)
    } else if n == 2 {
        Some(FieldLabel::Required)
    } else if n == 3 {
        Some(FieldLabel::Repeated)
    } else {
        None
    }
}

impl FieldLabel {
    /// The field label with wire number `n`, if there is one.
    pub fn from_i32(n: i32) -> (res: Option<FieldLabel>)
        ensures
            res == spec_field_label(n),
    {
        match n {
            1 => Some(FieldLabel::Optional),
            2 => Some(FieldLabel::Required),
            3 => Some(FieldLabel::Repeated),
            _ => None,
        }
    }
}

/// A field of a message, or an extension.
#[derive(Clone, Debug, PartialEq, Default)]
pub struct FieldDescriptorProto {
    pub name: Option<String>,
    pub number: Option<i32>,
    pub label: Option<i32>,
    pub field_type: Option<i32>,
    pub field_type_name: Option<String>,
    pub extendee: Option<String>,
    pub oneof_index: Option<i32>,
}

/// A oneof of a message.
#[derive(Clone, Debug, PartialEq, Default)]
pub struct OneofDescriptorProto {
    pub name: Option<String>,
}

/// A value of an enum.
#[derive(Clone, Debug, PartialEq, Default)]
pub struct EnumValueDescriptorProto {
    pub name: Option<String>,
    pub number: Option<i32>,
}

/// An enum.
#[derive(Clone, Debug, PartialEq, Default)]
pub struct EnumDescriptorProto {
    pub name: Option<String>,
    pub value: Vec<EnumValueDescriptorProto>,
}

/// A method of a service.
#[derive(Clone, Debug, PartialEq, Default)]
pub struct MethodDescriptorProto {
    pub name: Option<String>,
}

/// A service.
#[derive(Clone, Debug, PartialEq, Default)]
pub struct ServiceDescriptorProto {
    pub name: Option<String>,
    pub method: Vec<MethodDescriptorProto>,
}

/// A range of field numbers reserved for extensions: `start` up to, not
/// including, `end`.
#[derive(Clone, Debug, PartialEq, Default)]
pub struct ExtensionRange {
    pub start: Option<i32>,
    pub end: Option<i32>,
}

/// A message.
pub struct DescriptorProto {
    pub name: Option<String>,
    pub field: Vec<FieldDescriptorProto>,
    pub extension: Vec<FieldDescriptorProto>,
    pub nested_type: Vec<DescriptorProto>,
    pub enum_type: Vec<EnumDescriptorProto>,
    pub extension_range: Vec<ExtensionRange>,
    pub oneof_decl: Vec<OneofDescriptorProto>,
}

/// The source position of one element of a file: the path that leads to
/// the element through the descriptor's fields, and its line/column span.
#[derive(Clone, Debug, PartialEq, Default)]
pub struct Location {
    pub path: Vec<i32>,
    pub span: Vec<i32>,
}

/// Source positions of the elements of a file.
#[derive(Clone, Debug, PartialEq, Default)]
pub struct SourceCodeInfo {
    pub location: Vec<Location>,
}

/// A protobuf file.
pub struct FileDescriptorProto {
    pub name: Option<String>,
    pub package: Option<String>,
    pub dependency: Vec<String>,
    pub public_dependency: Vec<i32>,
    pub message_type: Vec<DescriptorProto>,
    pub enum_type: Vec<EnumDescriptorProto>,
    pub service: Vec<ServiceDescriptorProto>,
    pub extension: Vec<FieldDescriptorProto>,
    pub source_code_info: Option<SourceCodeInfo>,
}

impl FileDescriptorProto {
    /// The file's package, or `""` when it declares none.
    pub fn package(&self) -> (res: &str)
        ensures
            res@ == opt_str(self.package),
    {
        opt_str_value(&self.package)
    }

    /// The locations of the file's source code info; none when it has none.
    pub fn locations(&self) -> (res: &[Location])
        ensures
            res@ == spec_locations(*self),
    {
        match &self.source_code_info {
            Some(info) => info.location.as_slice(),
            None => {
                let res: &[Location] = &[];
                assert(res@ =~= Seq::<Location>::empty());
                res
            },
        }
    }
}

/// The locations of a file's source code info.
pub open spec fn spec_locations(file: FileDescriptorProto) -> Seq<Location> {
    match file.source_code_info {
        Some(info) => info.location@,
        None => Seq::empty(),
    }
}

} // verus!
