//! The closed set of primitive wire-decode rules for leaf fields.

use vstd::prelude::*;

use crate::text::{append_dec_u32, dec_digits};

verus! {

/// The primitive decode rule attached to a leaf field.  The only
/// tag-specific parameter is the element width of a packed float vector.
#[derive(Clone, Copy, Debug, PartialEq, Eq, Structural)]
pub enum FieldDecoder {
    Boolean,
    String,
    Signed8,
    Signed16,
    Signed32,
    Unsigned8,
    Unsigned16,
    Unsigned32,
    Unsigned64,
    Float32,
    QuantizedFloat,
    QAngle,
    Vector(u8),
}

/// The display text of a decode rule: the storage type it decodes into.
pub open spec fn spec_render_decoder(d: FieldDecoder) -> Seq<char> {
    match d {
        FieldDecoder::Boolean => "bool"@,
        FieldDecoder::String => "String"@,
        FieldDecoder::Signed8 => "i32"@,
        FieldDecoder::Signed16 => "i16"@,
        FieldDecoder::Signed32 => "i32"@,
        FieldDecoder::Unsigned8 => "u8"@,
        FieldDecoder::Unsigned16 => "u16"@,
        FieldDecoder::Unsigned32 => "u32"@,
        FieldDecoder::Unsigned64 => "u64"@,
        FieldDecoder::Float32 => "f32"@,
        FieldDecoder::QuantizedFloat => "f32"@,
        FieldDecoder::QAngle => "[f32; 3]"@,
        FieldDecoder::Vector(count) => "[f32; "@ + dec_digits(count as nat) + "]"@,
    }
}

impl FieldDecoder {
    /// Render the decode rule to display text.
    pub fn render(&self) -> (r: String)
        ensures
            r@ == spec_render_decoder(*self),
    {
        let mut out = String::new();
        match self {
            FieldDecoder::Boolean => out.append("bool"),
            FieldDecoder::String => out.append("String"),
            FieldDecoder::Signed8 => out.append("i32"),
            FieldDecoder::Signed16 => out.append("i16"),
            FieldDecoder::Signed32 => out.append("i32"),
            FieldDecoder::Unsigned8 => out.append("u8"),
            FieldDecoder::Unsigned16 => out.append("u16"),
            FieldDecoder::Unsigned32 => out.append("u32"),
            FieldDecoder::Unsigned64 => out.append("u64"),
            FieldDecoder::Float32 => out.append("f32"),
            FieldDecoder::QuantizedFloat => out.append("f32"),
            FieldDecoder::QAngle => out.append("[f32; 3]"),
            FieldDecoder::Vector(count) => {
                out.append("[f32; ");
                append_dec_u32(&mut out, *count as u32);
                out.append("]");
            },
        }
        proof {
            assert(out@ =~= spec_render_decoder(*self));
        }
        out
    }
}

} // verus!
