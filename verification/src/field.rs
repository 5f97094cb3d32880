//! One schema member and how it continues a path walk.

use vstd::prelude::*;

use crate::decoder::FieldDecoder;
use crate::fieldtype::FieldType;

verus! {

/// How a field continues a path walk.  Element schemas are named by their
/// position in the arena that owns every loaded schema, so that many
/// fields can share one schema without cycles.
#[derive(Clone, Copy, Debug)]
pub enum FieldModel {
    /// A terminal leaf: the path ends here.
    Value,
    /// A fixed array of leaves sharing the field's own decoder; the next
    /// slot is the element index and the path ends there.
    Array,
    /// An array whose elements decode under a different rule than the
    /// field's own; the element rule is carried explicitly.
    ArrayVector(FieldDecoder),
    /// A growable collection of structured elements: the next slot is the
    /// element index, and the walk continues in the element schema.
    Vector(usize),
    /// An embedded struct: the walk continues in the nested schema without
    /// consuming a slot for the pointer itself.
    Pointer(usize),
}

/// One schema member: a name, a parsed type, a decode rule, and the walk
/// model.  Immutable once the schema is loaded.
#[derive(Debug)]
pub struct Field {
    pub var_name: String,
    pub field_type: FieldType,
    pub decoder: FieldDecoder,
    pub model: FieldModel,
}

} // verus!
