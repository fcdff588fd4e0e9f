use wasm_decode::decode::decode_module;
use wasm_decode::error::DecodeError;
use wasm_decode::model::{valtype_to_str, ExportKind, TypeEntry, ValueType};

fn header() -> Vec<u8> {
    vec![0x00, 0x61, 0x73, 0x6D, 0x01, 0x00, 0x00, 0x00]
}

fn module_with(sections: &[(u8, Vec<u8>)]) -> Vec<u8> {
    let mut out = header();
    for (id, body) in sections {
        out.push(*id);
        assert!(body.len() < 128);
        out.push(body.len() as u8);
        out.extend_from_slice(body);
    }
    out
}

#[test]
fn magic_and_version_only_decodes_to_all_empty_summary() {
    let bytes = header();
    let s = decode_module(&bytes).unwrap();
    assert_eq!(s.types.len(), 0);
    assert_eq!(s.functions.len(), 0);
    assert_eq!(s.exports.len(), 0);
    assert_eq!(s.memories.len(), 0);
    assert_eq!(s.customs.len(), 0);
}

#[test]
fn wrong_last_magic_byte_fails_with_bad_magic() {
    let bytes = vec![0x00, 0x61, 0x73, 0x6E, 0x01, 0x00, 0x00, 0x00];
    assert_eq!(decode_module(&bytes), Err(DecodeError::BadMagic));
}

#[test]
fn wrong_version_fails_with_unsupported_version() {
    let bytes = vec![0x00, 0x61, 0x73, 0x6D, 0x02, 0x00, 0x00, 0x00];
    assert_eq!(decode_module(&bytes), Err(DecodeError::UnsupportedVersion));
}

#[test]
fn short_input_fails_with_unexpected_eof() {
    assert_eq!(decode_module(&[0x00, 0x61, 0x73]), Err(DecodeError::UnexpectedEof));
    assert_eq!(
        decode_module(&[0x00, 0x61, 0x73, 0x6D, 0x01]),
        Err(DecodeError::UnexpectedEof)
    );
}

#[test]
fn empty_custom_section_only_module() {
    // one custom section with an empty name and a zero-length payload
    let bytes = module_with(&[(0, vec![0x00])]);
    let s = decode_module(&bytes).unwrap();
    assert_eq!(s.functions.len(), 0);
    assert_eq!(s.exports.len(), 0);
    assert_eq!(s.customs.len(), 1);
    assert_eq!(s.customs[0].name, "");
    assert_eq!(s.customs[0].payload.len(), 0);
}

#[test]
fn one_function_one_export_module() {
    let bytes = module_with(&[
        // one recursive group holding (i32) -> (i32)
        (1, vec![0x01, 0x60, 0x01, 0x7F, 0x01, 0x7F]),
        // one function declaration referencing type 0
        (3, vec![0x01, 0x00]),
        // one export "main", a function, index 0
        (7, vec![0x01, 0x04, 0x6D, 0x61, 0x69, 0x6E, 0x00, 0x00]),
    ]);
    let s = decode_module(&bytes).unwrap();
    assert_eq!(s.types.len(), 1);
    match &s.types[0] {
        TypeEntry::Func(ft) => {
            assert_eq!(ft.params, vec![ValueType::I32]);
            assert_eq!(ft.results, vec![ValueType::I32]);
        }
        TypeEntry::Other => panic!("expected a function type"),
    }
    assert_eq!(s.functions, vec![0]);
    assert_eq!(s.exports.len(), 1);
    assert_eq!(s.exports[0].name, "main");
    assert_eq!(s.exports[0].kind, ExportKind::Function);
    assert_eq!(s.exports[0].index, 0);
}

#[test]
fn truncated_section_fails_with_truncated_section() {
    // the record declares five bytes where only one remains
    let mut bytes = header();
    bytes.extend_from_slice(&[0x03, 0x05, 0x00]);
    assert_eq!(decode_module(&bytes), Err(DecodeError::TruncatedSection));
}

#[test]
fn varint_with_endless_continuation_fails_with_malformed_varint() {
    // a function section whose count never terminates within five bytes
    let bytes = module_with(&[(3, vec![0xFF, 0xFF, 0xFF, 0xFF, 0xFF])]);
    assert_eq!(decode_module(&bytes), Err(DecodeError::MalformedVarint));
}

#[test]
fn varint_beyond_u32_fails_with_overflow() {
    let bytes = module_with(&[(3, vec![0xFF, 0xFF, 0xFF, 0xFF, 0x7F])]);
    assert_eq!(decode_module(&bytes), Err(DecodeError::Overflow));
}

#[test]
fn invalid_name_bytes_fail_with_invalid_utf8() {
    // a custom section whose one-byte name is not UTF-8
    let bytes = module_with(&[(0, vec![0x01, 0xFF])]);
    assert_eq!(decode_module(&bytes), Err(DecodeError::InvalidUtf8));
}

#[test]
fn unrecognized_value_type_fails_with_invalid_value_type() {
    let bytes = module_with(&[(1, vec![0x01, 0x60, 0x01, 0x01, 0x00])]);
    assert_eq!(decode_module(&bytes), Err(DecodeError::InvalidValueType));
}

#[test]
fn unrecognized_export_kind_fails_with_invalid_export_kind() {
    let bytes = module_with(&[(7, vec![0x01, 0x00, 0x07, 0x00])]);
    assert_eq!(decode_module(&bytes), Err(DecodeError::InvalidExportKind));
}

#[test]
fn leftover_section_bytes_fail_with_section_length_mismatch() {
    // a function section with zero declarations and one stray byte
    let bytes = module_with(&[(3, vec![0x00, 0x00])]);
    assert_eq!(decode_module(&bytes), Err(DecodeError::SectionLengthMismatch));
}

#[test]
fn type_index_at_table_length_fails_with_dangling_type_index() {
    let bytes = module_with(&[
        (1, vec![0x01, 0x60, 0x00, 0x00]),
        (3, vec![0x01, 0x01]),
    ]);
    assert_eq!(
        decode_module(&bytes),
        Err(DecodeError::DanglingTypeIndex { function_index: 0, type_index: 1 })
    );
}

#[test]
fn type_index_below_table_length_succeeds() {
    let bytes = module_with(&[
        (1, vec![0x01, 0x60, 0x00, 0x00]),
        (3, vec![0x01, 0x00]),
    ]);
    let s = decode_module(&bytes).unwrap();
    assert_eq!(s.functions, vec![0]);
}

#[test]
fn first_dangling_declaration_is_reported() {
    let bytes = module_with(&[
        (1, vec![0x01, 0x60, 0x00, 0x00]),
        (3, vec![0x03, 0x00, 0x09, 0x08]),
    ]);
    assert_eq!(
        decode_module(&bytes),
        Err(DecodeError::DanglingTypeIndex { function_index: 1, type_index: 9 })
    );
}

#[test]
fn memory_limits_with_and_without_maximum() {
    let bytes = module_with(&[(5, vec![0x02, 0x01, 0x02, 0x05, 0x00, 0x03])]);
    let s = decode_module(&bytes).unwrap();
    assert_eq!(s.memories.len(), 2);
    assert_eq!(s.memories[0].initial, 2);
    assert_eq!(s.memories[0].maximum, Some(5));
    assert_eq!(s.memories[1].initial, 3);
    assert_eq!(s.memories[1].maximum, None);
}

#[test]
fn imports_are_validated_and_skipped() {
    let bytes = module_with(&[
        // one function import "a"."b" of type 0, not retained
        (2, vec![0x01, 0x01, 0x61, 0x01, 0x62, 0x00, 0x00]),
        // framing continues: a memory section after the imports
        (5, vec![0x01, 0x00, 0x01]),
    ]);
    let s = decode_module(&bytes).unwrap();
    assert_eq!(s.functions.len(), 0);
    assert_eq!(s.memories.len(), 1);
    assert_eq!(s.memories[0].initial, 1);
}

#[test]
fn malformed_import_descriptor_tag_fails() {
    let bytes = module_with(&[(2, vec![0x01, 0x00, 0x00, 0x09])]);
    assert_eq!(decode_module(&bytes), Err(DecodeError::SectionLengthMismatch));
}

#[test]
fn unrecognized_section_ids_are_skipped() {
    let bytes = module_with(&[(12, vec![0xAA, 0xBB]), (3, vec![0x00])]);
    let s = decode_module(&bytes).unwrap();
    assert_eq!(s.functions.len(), 0);
}

#[test]
fn repeated_custom_sections_keep_file_order() {
    let bytes = module_with(&[
        (0, vec![0x01, 0x61, 0x01]),
        (0, vec![0x01, 0x61, 0x02]),
    ]);
    let s = decode_module(&bytes).unwrap();
    assert_eq!(s.customs.len(), 2);
    assert_eq!(s.customs[0].name, "a");
    assert_eq!(s.customs[0].payload, vec![0x01]);
    assert_eq!(s.customs[1].name, "a");
    assert_eq!(s.customs[1].payload, vec![0x02]);
}

#[test]
fn non_ascii_name_decodes_through_utf8() {
    // "é" is 0xC3 0xA9 in UTF-8
    let bytes = module_with(&[(0, vec![0x02, 0xC3, 0xA9])]);
    let s = decode_module(&bytes).unwrap();
    assert_eq!(s.customs[0].name, "é");
}

#[test]
fn other_composite_types_keep_their_table_position() {
    // a struct-type marker, then a function type in a second group
    let bytes = module_with(&[
        (1, vec![0x01, 0x5F, 0x01, 0x60, 0x00, 0x00]),
        (3, vec![0x01, 0x01]),
    ]);
    let s = decode_module(&bytes).unwrap();
    assert_eq!(s.types.len(), 2);
    assert_eq!(s.types[0], TypeEntry::Other);
    assert_eq!(s.functions, vec![1]);
}

#[test]
fn valtype_names_match_the_inspector_output() {
    assert_eq!(valtype_to_str(ValueType::I32), "i32");
    assert_eq!(valtype_to_str(ValueType::I64), "i64");
    assert_eq!(valtype_to_str(ValueType::F32), "f32");
    assert_eq!(valtype_to_str(ValueType::F64), "f64");
    assert_eq!(valtype_to_str(ValueType::V128), "v128");
    assert_eq!(valtype_to_str(ValueType::FuncRef), "ref");
    assert_eq!(valtype_to_str(ValueType::ExternRef), "ref");
}

#[test]
fn name_reaching_past_its_section_fails_with_unexpected_eof() {
    // the export name declares five bytes but its section slice holds two;
    // the section's own cursor must not read into the next section
    let bytes = module_with(&[(7, vec![0x01, 0x05, 0x61, 0x62]), (3, vec![0x00])]);
    assert_eq!(decode_module(&bytes), Err(DecodeError::UnexpectedEof));
}

#[test]
fn invalid_export_name_bytes_fail_with_invalid_utf8() {
    let bytes = module_with(&[(7, vec![0x01, 0x01, 0xC0, 0x00, 0x00])]);
    assert_eq!(decode_module(&bytes), Err(DecodeError::InvalidUtf8));
}
