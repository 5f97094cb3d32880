use source2_demo::{
    Field, FieldDecoder, FieldModel, FieldPath, FieldState, FieldType, SchemaArena,
    SerializerError,
};

fn value_field(name: &str, type_str: &str, decoder: FieldDecoder) -> Field {
    Field {
        var_name: name.to_string(),
        field_type: FieldType::new(type_str),
        decoder,
        model: FieldModel::Value,
    }
}

fn weapon_unit_arena() -> (SchemaArena, usize, usize) {
    let mut arena = SchemaArena::new();
    let weapon = arena
        .push_serializer(vec![value_field("m_iAmmo", "int32", FieldDecoder::Signed32)])
        .unwrap();
    let unit = arena
        .push_serializer(vec![Field {
            var_name: "m_hWeapons".to_string(),
            field_type: FieldType::new("CNetworkUtlVectorBase< CHandle >"),
            decoder: FieldDecoder::Unsigned32,
            model: FieldModel::Vector(weapon),
        }])
        .unwrap();
    (arena, weapon, unit)
}

#[test]
fn vector_enumeration_yields_both_elements() {
    let (arena, _weapon, unit) = weapon_unit_arena();
    let state = FieldState {
        children: vec![FieldState {
            children: vec![FieldState::empty(), FieldState::empty()],
        }],
    };
    let mut scratch = FieldPath::default();
    let paths = arena.get_field_paths(unit, &mut scratch, &state);
    assert_eq!(paths.len(), 2);
    let names: Vec<String> = paths.iter().map(|p| arena.get_name_for_field_path(unit, p)).collect();
    assert_eq!(names[0], "m_hWeapons.0000.m_iAmmo");
    assert_eq!(names[1], "m_hWeapons.0001.m_iAmmo");
}

#[test]
fn vector_name_round_trips() {
    let (mut arena, _weapon, unit) = weapon_unit_arena();
    let fp = arena
        .get_field_path_for_name(unit, "m_hWeapons.0001.m_iAmmo")
        .unwrap();
    assert_eq!(fp.last, 2);
    assert_eq!(fp.path[0], 0);
    assert_eq!(fp.path[1], 1);
    assert_eq!(fp.path[2], 0);
    let name = arena.get_name_for_field_path(unit, &fp);
    assert_eq!(name, "m_hWeapons.0001.m_iAmmo");
}

#[test]
fn enumerated_paths_round_trip() {
    let (mut arena, _weapon, unit) = weapon_unit_arena();
    let state = FieldState {
        children: vec![FieldState {
            children: vec![FieldState::empty(), FieldState::empty()],
        }],
    };
    let mut scratch = FieldPath::default();
    let paths = arena.get_field_paths(unit, &mut scratch, &state);
    for p in paths.iter() {
        let name = arena.get_name_for_field_path(unit, p);
        let back = arena.get_field_path_for_name(unit, &name).unwrap();
        assert!(back == *p);
        assert_eq!(back.last, p.last);
    }
}

#[test]
fn fixed_array_index_resolves_even_past_declared_count() {
    let mut arena = SchemaArena::new();
    let ser = arena
        .push_serializer(vec![Field {
            var_name: "m_rgFlHealth".to_string(),
            field_type: FieldType::new("float32[8]"),
            decoder: FieldDecoder::Float32,
            model: FieldModel::Array,
        }])
        .unwrap();
    let fp = arena.get_field_path_for_name(ser, "m_rgFlHealth.0003").unwrap();
    assert_eq!(fp.last, 1);
    assert_eq!(fp.path[0], 0);
    assert_eq!(fp.path[1], 3);
    // The declared count is type metadata, not a runtime bound: a larger
    // index is still a structurally valid path.
    let past = arena.get_field_path_for_name(ser, "m_rgFlHealth.0009").unwrap();
    assert_eq!(past.last, 1);
    assert_eq!(past.path[1], 9);
    assert_eq!(arena.get_name_for_field_path(ser, &past), "m_rgFlHealth.0009");
}

#[test]
fn unknown_property_name_is_an_error_not_a_crash() {
    let (mut arena, _weapon, unit) = weapon_unit_arena();
    let err = arena.get_field_path_for_name(unit, "m_doesNotExist").unwrap_err();
    match err {
        SerializerError::NoFieldPath(name) => assert_eq!(name, "m_doesNotExist"),
    }
}

#[test]
fn cached_and_uncached_resolution_agree() {
    let (mut arena, _weapon, unit) = weapon_unit_arena();
    let uncached = arena
        .resolve_field_path_for_name(unit, "m_hWeapons.0001.m_iAmmo")
        .unwrap();
    let first = arena
        .get_field_path_for_name(unit, "m_hWeapons.0001.m_iAmmo")
        .unwrap();
    let second = arena
        .get_field_path_for_name(unit, "m_hWeapons.0001.m_iAmmo")
        .unwrap();
    let third = arena
        .resolve_field_path_for_name(unit, "m_hWeapons.0001.m_iAmmo")
        .unwrap();
    assert!(uncached == first);
    assert!(first == second);
    assert!(second == third);
    // A miss stays a miss however often it is asked.
    assert!(arena.get_field_path_for_name(unit, "m_nope").is_err());
    assert!(arena.get_field_path_for_name(unit, "m_nope").is_err());
}

#[test]
fn pointer_consumes_no_slot() {
    let mut arena = SchemaArena::new();
    let body = arena
        .push_serializer(vec![
            value_field("m_cellX", "uint16", FieldDecoder::Unsigned16),
            value_field("m_cellY", "uint16", FieldDecoder::Unsigned16),
        ])
        .unwrap();
    let entity = arena
        .push_serializer(vec![Field {
            var_name: "CBodyComponent".to_string(),
            field_type: FieldType::new("CBodyComponent"),
            decoder: FieldDecoder::Boolean,
            model: FieldModel::Pointer(body),
        }])
        .unwrap();
    let fp = arena
        .get_field_path_for_name(entity, "CBodyComponent.m_cellY")
        .unwrap();
    assert_eq!(fp.last, 1);
    assert_eq!(fp.path[0], 0);
    assert_eq!(fp.path[1], 1);
    assert_eq!(
        arena.get_name_for_field_path(entity, &fp),
        "CBodyComponent.m_cellY"
    );
    let ty = arena.get_type_for_field_path(entity, &fp);
    assert_eq!(ty.base, "uint16");
    assert!(*arena.get_decoder_for_field_path(entity, &fp) == FieldDecoder::Unsigned16);
}

#[test]
fn vector_field_itself_is_addressable() {
    let (mut arena, _weapon, unit) = weapon_unit_arena();
    let fp = arena.get_field_path_for_name(unit, "m_hWeapons").unwrap();
    assert_eq!(fp.last, 0);
    assert_eq!(fp.path[0], 0);
    assert_eq!(arena.get_name_for_field_path(unit, &fp), "m_hWeapons");
    let ty = arena.get_type_for_field_path(unit, &fp);
    assert_eq!(ty.base, "CNetworkUtlVectorBase");
}

#[test]
fn array_vector_element_gets_element_type_and_decoder() {
    // An array with a distinct element rule must carry the element type.
    let mut field_type = FieldType::new("CNetworkedQuantizedFloat[3]");
    field_type.generic = Some(Box::new(FieldType::new("float32")));
    let mut arena = SchemaArena::new();
    let ser = arena
        .push_serializer(vec![Field {
            var_name: "m_vecOrigin".to_string(),
            field_type,
            decoder: FieldDecoder::QAngle,
            model: FieldModel::ArrayVector(FieldDecoder::QuantizedFloat),
        }])
        .unwrap();
    let fp = arena.get_field_path_for_name(ser, "m_vecOrigin.0001").unwrap();
    assert_eq!(fp.last, 1);
    let ty = arena.get_type_for_field_path(ser, &fp);
    assert_eq!(ty.base, "float32");
    assert!(*arena.get_decoder_for_field_path(ser, &fp) == FieldDecoder::QuantizedFloat);
}

#[test]
fn nested_vectors_round_trip() {
    let mut arena = SchemaArena::new();
    let ability = arena
        .push_serializer(vec![value_field("m_iLevel", "int32", FieldDecoder::Signed32)])
        .unwrap();
    let hero = arena
        .push_serializer(vec![Field {
            var_name: "m_vecAbilities".to_string(),
            field_type: FieldType::new("CUtlVector< CAbility >"),
            decoder: FieldDecoder::Unsigned32,
            model: FieldModel::Vector(ability),
        }])
        .unwrap();
    let team = arena
        .push_serializer(vec![Field {
            var_name: "m_vecHeroes".to_string(),
            field_type: FieldType::new("CUtlVector< CHero >"),
            decoder: FieldDecoder::Unsigned32,
            model: FieldModel::Vector(hero),
        }])
        .unwrap();
    let name = "m_vecHeroes.0002.m_vecAbilities.0011.m_iLevel";
    let fp = arena.get_field_path_for_name(team, name).unwrap();
    assert_eq!(fp.last, 4);
    assert_eq!(
        [fp.path[0], fp.path[1], fp.path[2], fp.path[3], fp.path[4]],
        [0, 2, 0, 11, 0]
    );
    assert_eq!(arena.get_name_for_field_path(team, &fp), name);
    let ty = arena.get_type_for_field_path(team, &fp);
    assert_eq!(ty.base, "int32");
}

#[test]
fn wide_array_index_keeps_its_width() {
    let mut arena = SchemaArena::new();
    let ser = arena
        .push_serializer(vec![Field {
            var_name: "m_rgCells".to_string(),
            field_type: FieldType::new("uint16[8]"),
            decoder: FieldDecoder::Unsigned16,
            model: FieldModel::Array,
        }])
        .unwrap();
    // An array index is read from the whole remainder, so five digits
    // survive the round trip unchanged.
    let fp = arena.get_field_path_for_name(ser, "m_rgCells.12345").unwrap();
    assert_eq!(fp.path[1], 12345);
    assert_eq!(arena.get_name_for_field_path(ser, &fp), "m_rgCells.12345");
    // Below the four-digit width the rendering is zero padded.
    let narrow = arena.get_field_path_for_name(ser, "m_rgCells.7").unwrap();
    assert_eq!(narrow.path[1], 7);
    assert_eq!(arena.get_name_for_field_path(ser, &narrow), "m_rgCells.0007");
}

#[test]
fn whole_array_path_answers_the_outer_type() {
    // A path ending at the array field itself addresses the array as a
    // whole: type and decode-rule resolution answer for the field, not
    // for an element.
    let mut field_type = FieldType::new("CNetworkedQuantizedFloat[3]");
    field_type.generic = Some(Box::new(FieldType::new("float32")));
    let mut arena = SchemaArena::new();
    let ser = arena
        .push_serializer(vec![Field {
            var_name: "m_vecOrigin".to_string(),
            field_type,
            decoder: FieldDecoder::Vector(3),
            model: FieldModel::ArrayVector(FieldDecoder::QuantizedFloat),
        }])
        .unwrap();
    let whole = arena.get_field_path_for_name(ser, "m_vecOrigin").unwrap();
    assert_eq!(whole.last, 0);
    assert_eq!(
        arena.get_type_for_field_path(ser, &whole).base,
        "CNetworkedQuantizedFloat"
    );
    assert!(*arena.get_decoder_for_field_path(ser, &whole) == FieldDecoder::Vector(3));
    let element = arena.get_field_path_for_name(ser, "m_vecOrigin.0001").unwrap();
    assert_eq!(arena.get_type_for_field_path(ser, &element).base, "float32");
    assert!(*arena.get_decoder_for_field_path(ser, &element) == FieldDecoder::QuantizedFloat);
}

#[test]
fn vector_element_terminal_path_answers_the_field() {
    // A path that stops at a collection's element index gets the
    // collection field's own type and decode rule, without descending.
    let (arena, _weapon, unit) = weapon_unit_arena();
    let fp = FieldPath { path: [0, 1, 0, 0, 0, 0, 0], last: 1 };
    assert_eq!(
        arena.get_type_for_field_path(unit, &fp).base,
        "CNetworkUtlVectorBase"
    );
    assert!(*arena.get_decoder_for_field_path(unit, &fp) == FieldDecoder::Unsigned32);
}

#[test]
fn path_checkers_decide_the_preconditions() {
    let (arena, _weapon, unit) = weapon_unit_arena();
    let full = FieldPath { path: [0, 1, 0, 0, 0, 0, 0], last: 2 };
    let at_vector = FieldPath { path: [0, 0, 0, 0, 0, 0, 0], last: 0 };
    let at_element = FieldPath { path: [0, 1, 0, 0, 0, 0, 0], last: 1 };
    let bad_field = FieldPath { path: [5, 0, 0, 0, 0, 0, 0], last: 0 };
    let overlong = FieldPath { path: [0, 1, 0, 9, 0, 0, 0], last: 3 };
    let bad_last = FieldPath { path: [0, 0, 0, 0, 0, 0, 0], last: 9 };
    assert!(arena.check_field_path(unit, &full));
    assert!(arena.check_field_path(unit, &at_vector));
    assert!(!arena.check_field_path(unit, &at_element));
    assert!(!arena.check_field_path(unit, &bad_field));
    assert!(!arena.check_field_path(unit, &overlong));
    assert!(!arena.check_field_path(unit, &bad_last));
    // The type-walk checker also admits element-terminal endings.
    assert!(arena.check_field_path_for_type(unit, &full));
    assert!(arena.check_field_path_for_type(unit, &at_vector));
    assert!(arena.check_field_path_for_type(unit, &at_element));
    assert!(!arena.check_field_path_for_type(unit, &bad_field));
    assert!(!arena.check_field_path_for_type(unit, &overlong));
}

#[test]
fn path_equality_ignores_scratch_slots() {
    let a = FieldPath { path: [1, 2, 0, 0, 0, 0, 0], last: 1 };
    let b = FieldPath { path: [1, 2, 9, 9, 9, 9, 9], last: 1 };
    let c = FieldPath { path: [1, 2, 0, 0, 0, 0, 0], last: 2 };
    let d = FieldPath { path: [1, 3, 0, 0, 0, 0, 0], last: 1 };
    assert!(a == b);
    assert!(a != c);
    assert!(a != d);
}

#[test]
fn path_renders_slots_with_slashes() {
    let a = FieldPath { path: [1, 2, 0, 0, 0, 0, 0], last: 2 };
    assert_eq!(a.render(), "1/2/0");
    let b = FieldPath::default();
    assert_eq!(b.render(), "0");
}

#[test]
fn empty_schema_enumerates_nothing() {
    let mut arena = SchemaArena::new();
    let ser = arena.push_serializer(Vec::new()).unwrap();
    let mut scratch = FieldPath::default();
    let paths = arena.get_field_paths(ser, &mut scratch, &FieldState::empty());
    assert!(paths.is_empty());
    assert!(arena.get_field_path_for_name(ser, "anything").is_err());
}

#[test]
fn unpopulated_state_still_reaches_leaves() {
    let mut arena = SchemaArena::new();
    let inner = arena
        .push_serializer(vec![value_field("m_iHealth", "int32", FieldDecoder::Signed32)])
        .unwrap();
    let outer = arena
        .push_serializer(vec![
            value_field("m_iLevel", "int32", FieldDecoder::Signed32),
            Field {
                var_name: "m_pData".to_string(),
                field_type: FieldType::new("CUnitData*"),
                decoder: FieldDecoder::Boolean,
                model: FieldModel::Pointer(inner),
            },
        ])
        .unwrap();
    let mut scratch = FieldPath::default();
    // Leaves are schema-static: they are enumerated even with nothing
    // populated, while collection elements need populated entries.
    let paths = arena.get_field_paths(outer, &mut scratch, &FieldState::empty());
    let names: Vec<String> = paths.iter().map(|p| arena.get_name_for_field_path(outer, p)).collect();
    assert_eq!(names, vec!["m_iLevel".to_string(), "m_pData.m_iHealth".to_string()]);
}
