use vstd::prelude::*;
use crate::region::Located;

verus! {

/// A type annotation as the parser produces it. Comments and newlines that
/// the parser keeps beside the nodes play no part in canonicalization and
/// are not held here.
#[derive(Debug, PartialEq, Eq)]
pub enum TypeAnnotation {
    /// A function type: the argument types and the return type.
    Function(Vec<Located<TypeAnnotation>>, Box<Located<TypeAnnotation>>),
    /// A type constructor applied to arguments: the module name (empty when
    /// unqualified), the name, and the arguments.
    Apply(String, String, Vec<Located<TypeAnnotation>>),
    /// A type variable, such as `a`.
    BoundVariable(String),
    /// `inner as Alias vars`: the annotation and the alias header.
    As(Box<Located<TypeAnnotation>>, Box<Located<TypeAnnotation>>),
    /// A record type: its fields and its optional extension.
    Record { fields: Vec<Located<AssignedField>>, ext: Option<Box<Located<TypeAnnotation>>> },
    /// A tag union type: its tags and its optional extension.
    TagUnion { tags: Vec<Located<Tag>>, ext: Option<Box<Located<TypeAnnotation>>> },
    /// The wildcard `*`.
    Wildcard,
    /// An annotation preceded by whitespace or comments.
    SpaceBefore(Box<TypeAnnotation>),
    /// An annotation followed by whitespace or comments.
    SpaceAfter(Box<TypeAnnotation>),
    /// Text that could not be parsed as an annotation.
    Malformed(String),
}

/// A field of a record type annotation.
#[derive(Debug, PartialEq, Eq)]
pub enum AssignedField {
    /// `name : type`
    RequiredValue(Located<String>, Box<Located<TypeAnnotation>>),
    /// `name ? type`
    OptionalValue(Located<String>, Box<Located<TypeAnnotation>>),
    /// `name` alone, which stands for `name : name`.
    LabelOnly(Located<String>),
    SpaceBefore(Box<AssignedField>),
    SpaceAfter(Box<AssignedField>),
    Malformed(String),
}

/// A tag of a tag union annotation.
#[derive(Debug, PartialEq, Eq)]
pub enum Tag {
    Global { name: Located<String>, args: Vec<Located<TypeAnnotation>> },
    Private { name: Located<String>, args: Vec<Located<TypeAnnotation>> },
    SpaceBefore(Box<Tag>),
    SpaceAfter(Box<Tag>),
    Malformed(String),
}

} // verus!
