//! Schema field-path resolution for recorded game replays.
//!
//! Game state arrives as compact integer field paths addressing leaves of a
//! per-class, possibly deeply nested, schema description.  This crate builds
//! those schema descriptions and translates integer paths to and from dotted
//! property names, resolves a path's storage type and decode rule, and
//! enumerates every path currently reachable under a schema.

mod decoder;
mod enumerate;
mod error;
mod field;
mod fieldpath;
mod fieldtype;
mod laws;
mod resolve;
mod schema;
mod state;
mod text;

pub use decoder::FieldDecoder;
pub use enumerate::{enum_ser, enum_field, enum_elems, child_node, node_len};
pub use error::SchemaError;
pub use error::SerializerError;
pub use field::Field;
pub use field::FieldModel;
pub use fieldpath::FieldPath;
pub use fieldtype::FieldType;
pub use fieldtype::FieldTypeView;
pub use laws::{vec_slots_small, opt_bounded, walk_end, lemma_name_path_round_trip, lemma_type_decoder_agree, lemma_valid_from_type_valid, lemma_enumeration_round_trip};
pub use resolve::{valid_from, type_valid_from, name_from, type_at, decoder_at, resolve_at, spec_resolve};
pub use schema::{Serializer, SchemaArena, wf_sers, ser_wf, ser_depth, field_wf, fields_acceptable, name_ok};
pub use state::{FieldState, state_wf, state_bounded};
pub use text::parse_u16_str;
