//! Failure values returned by schema loading and by name resolution.

use vstd::prelude::*;

verus! {

/// A schema-load failure: the type string or the field list handed to the
/// loader is malformed.  Loading stops at the first such fault and the
/// schema is not built.
#[derive(Clone, Copy, Debug, PartialEq, Eq, Structural)]
pub enum SchemaError {
    /// A bracketed dimension opens without a matching close, or the close
    /// stands before the open.
    UnbalancedBrackets,
    /// An angle-bracket generic parameter opens without a matching close,
    /// or the close stands before the open.
    UnbalancedGenerics,
    /// A bracketed dimension is neither a known symbolic constant nor a
    /// parseable integer.
    BadDimension,
    /// A field's element schema points at a schema that is not yet loaded.
    BadNestedSerializer,
    /// A field has an empty name.
    EmptyFieldName,
    /// A field name contains a dot, which the dotted path syntax reserves.
    DottedFieldName,
    /// Two fields of one schema share a name.
    DuplicateFieldName,
    /// An array-of-distinct-decoder field lacks the element type parameter
    /// that type resolution returns for its elements.
    MissingElementType,
    /// A schema holds more fields than a path slot can index.
    TooManyFields,
    /// The schema nests deeper than a path has slots.
    TooDeep,
}

/// A name-resolution failure: no field at any nesting level matches the
/// requested dotted name.  Callers treat this as a recoverable condition.
#[derive(Debug)]
pub enum SerializerError {
    NoFieldPath(String),
}

} // verus!
