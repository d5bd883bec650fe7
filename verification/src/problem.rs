use vstd::prelude::*;
use crate::region::{Located, Region};
use crate::symbol::TagName;

verus! {

/// A name that could not be resolved.
#[derive(Clone, Debug, PartialEq, Eq)]
pub enum RuntimeError {
    /// An unqualified name that is not in scope.
    LookupNotInScope(Located<String>),
    /// A qualified name whose module is not imported.
    ModuleNotImported { module_name: String, region: Region },
    /// A qualified name that its module does not expose.
    ValueNotExposed { module_name: String, ident: String, region: Region },
}

/// A problem found while canonicalizing, reported to the environment.
#[derive(Clone, Debug, PartialEq, Eq)]
pub enum CanProblem {
    /// An `as` alias in an annotation reuses a name that is already bound.
    ShadowingInAnnotation { original_region: Region, shadow: Located<String> },
    /// A name could not be resolved.
    RuntimeError(RuntimeError),
    /// A record type names the same field twice.
    DuplicateRecordFieldType {
        field_name: String,
        record_region: Region,
        field_region: Region,
        replaced_region: Region,
    },
    /// A tag union names the same tag twice.
    DuplicateTag {
        tag_name: TagName,
        tag_union_region: Region,
        tag_region: Region,
        replaced_region: Region,
    },
}

} // verus!
