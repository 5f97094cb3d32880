use source2_demo::{
    parse_u16_str, Field, FieldDecoder, FieldModel, FieldType, SchemaArena, SchemaError,
};

#[test]
fn symbolic_array_dimension_resolves() {
    let t = FieldType::parse("m_items[MAX_ITEM_STOCKS]").unwrap();
    assert_eq!(t.base, "m_items");
    assert_eq!(t.count, Some(8));
    assert!(t.generic.is_none());
    assert!(!t.pointer);
}

#[test]
fn other_symbolic_dimensions_resolve() {
    let a = FieldType::parse("m_x[MAX_ABILITY_DRAFT_ABILITIES]").unwrap();
    assert_eq!(a.count, Some(48));
    let b = FieldType::parse("m_y[DOTA_ABILITY_DRAFT_HEROES_PER_GAME]").unwrap();
    assert_eq!(b.count, Some(10));
}

#[test]
fn literal_array_dimension_parses() {
    let t = FieldType::parse("m_rgFlHealth[8]").unwrap();
    assert_eq!(t.base, "m_rgFlHealth");
    assert_eq!(t.count, Some(8));
}

#[test]
fn generic_parameter_parses_recursively() {
    let t = FieldType::parse("CNetworkUtlVectorBase< CHandle< CBaseEntity > >").unwrap();
    assert_eq!(t.base, "CNetworkUtlVectorBase");
    let g = t.generic.as_ref().unwrap();
    assert_eq!(g.base, "CHandle");
    let gg = g.generic.as_ref().unwrap();
    assert_eq!(gg.base, "CBaseEntity");
}

#[test]
fn pointer_marker_and_component_names_set_the_flag() {
    let starred = FieldType::parse("CUnitData*").unwrap();
    assert!(starred.pointer);
    assert_eq!(starred.base, "CUnitData");
    let component = FieldType::parse("CBodyComponent").unwrap();
    assert!(component.pointer);
    assert_eq!(component.base, "CBodyComponent");
    let plain = FieldType::parse("CUnitData").unwrap();
    assert!(!plain.pointer);
}

#[test]
fn unbalanced_brackets_are_schema_errors() {
    assert!(matches!(
        FieldType::parse("m_items[8"),
        Err(SchemaError::UnbalancedBrackets)
    ));
    assert!(matches!(
        FieldType::parse("m_items]8["),
        Err(SchemaError::UnbalancedBrackets)
    ));
    assert!(matches!(
        FieldType::parse("V<T"),
        Err(SchemaError::UnbalancedGenerics)
    ));
    assert!(matches!(
        FieldType::parse("V>T<"),
        Err(SchemaError::UnbalancedGenerics)
    ));
    assert!(matches!(
        FieldType::parse("m_items[EIGHT]"),
        Err(SchemaError::BadDimension)
    ));
}

#[test]
fn trimming_strips_unicode_whitespace() {
    let t = FieldType::parse("\u{2009}CHandle\u{a0}").unwrap();
    assert_eq!(t.base, "CHandle");
    let g = FieldType::parse("V<\u{3000}CHandle\u{3000}>").unwrap();
    assert_eq!(g.base, "V");
    assert_eq!(g.generic.as_ref().unwrap().base, "CHandle");
}

#[test]
fn render_reconstructs_the_type_text() {
    let t = FieldType::parse("CNetworkUtlVectorBase< CHandle >").unwrap();
    assert_eq!(t.render(), "CNetworkUtlVectorBase< CHandle >");
    let p = FieldType::parse("CUnitData*").unwrap();
    assert_eq!(p.render(), "CUnitData*");
    let a = FieldType::parse("float32[8]").unwrap();
    assert_eq!(a.render(), "float32[8]");
}

#[test]
fn decoder_render_names_the_storage_type() {
    assert_eq!(FieldDecoder::Boolean.render(), "bool");
    assert_eq!(FieldDecoder::Signed8.render(), "i32");
    assert_eq!(FieldDecoder::QAngle.render(), "[f32; 3]");
    assert_eq!(FieldDecoder::Vector(2).render(), "[f32; 2]");
    assert_eq!(FieldDecoder::Unsigned64.render(), "u64");
}

#[test]
fn slot_index_text_parses_like_std() {
    assert_eq!(parse_u16_str("0003"), Some(3));
    assert_eq!(parse_u16_str("+12"), Some(12));
    assert_eq!(parse_u16_str("65535"), Some(65535));
    assert_eq!(parse_u16_str("65536"), None);
    assert_eq!(parse_u16_str(""), None);
    assert_eq!(parse_u16_str("12a"), None);
}

#[test]
fn schema_loading_rejects_bad_field_lists() {
    let mut arena = SchemaArena::new();
    let value = |name: &str| Field {
        var_name: name.to_string(),
        field_type: FieldType::new("int32"),
        decoder: FieldDecoder::Signed32,
        model: FieldModel::Value,
    };
    assert!(matches!(
        arena.push_serializer(vec![value("")]),
        Err(SchemaError::EmptyFieldName)
    ));
    assert!(matches!(
        arena.push_serializer(vec![value("a.b")]),
        Err(SchemaError::DottedFieldName)
    ));
    assert!(matches!(
        arena.push_serializer(vec![value("a"), value("a")]),
        Err(SchemaError::DuplicateFieldName)
    ));
    assert!(matches!(
        arena.push_serializer(vec![Field {
            var_name: "m_nested".to_string(),
            field_type: FieldType::new("CSome"),
            decoder: FieldDecoder::Boolean,
            model: FieldModel::Pointer(0),
        }]),
        Err(SchemaError::BadNestedSerializer)
    ));
    assert!(matches!(
        arena.push_serializer(vec![Field {
            var_name: "m_arr".to_string(),
            field_type: FieldType::new("float32[3]"),
            decoder: FieldDecoder::QAngle,
            model: FieldModel::ArrayVector(FieldDecoder::Float32),
        }]),
        Err(SchemaError::MissingElementType)
    ));
    // A failed load leaves the arena as it was.
    assert!(arena.push_serializer(vec![value("ok")]).is_ok());
}

#[test]
fn schema_loading_rejects_walks_deeper_than_a_path() {
    let mut arena = SchemaArena::new();
    let mut prev = arena
        .push_serializer(vec![Field {
            var_name: "leaf".to_string(),
            field_type: FieldType::new("int32"),
            decoder: FieldDecoder::Signed32,
            model: FieldModel::Value,
        }])
        .unwrap();
    // Each level of embedding costs one slot: six more still fit.
    for level in 0..6 {
        prev = arena
            .push_serializer(vec![Field {
                var_name: format!("m_lvl{}", level),
                field_type: FieldType::new("CSome"),
                decoder: FieldDecoder::Boolean,
                model: FieldModel::Pointer(prev),
            }])
            .unwrap();
    }
    // The eighth level would need an eighth slot.
    let too_deep = arena.push_serializer(vec![Field {
        var_name: "m_top".to_string(),
        field_type: FieldType::new("CSome"),
        decoder: FieldDecoder::Boolean,
        model: FieldModel::Pointer(prev),
    }]);
    assert!(matches!(too_deep, Err(SchemaError::TooDeep)));
}

#[test]
fn schema_loading_rejects_oversized_field_lists() {
    let mut arena = SchemaArena::new();
    let mut fields: Vec<Field> = Vec::with_capacity(0x10001);
    for _ in 0..0x10001 {
        fields.push(Field {
            var_name: "a".to_string(),
            field_type: FieldType::new("int32"),
            decoder: FieldDecoder::Signed32,
            model: FieldModel::Value,
        });
    }
    assert!(matches!(
        arena.push_serializer(fields),
        Err(SchemaError::TooManyFields)
    ));
}
