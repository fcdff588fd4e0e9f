use wasm_decode::cursor::Cursor;
use wasm_decode::decode::decode_module;
use wasm_decode::encode::encode_module;
use wasm_decode::error::DecodeError;
use wasm_decode::model::{
    CustomSection, ExportEntry, ExportKind, FuncType, MemoryLimit, ModuleSummary, TypeEntry,
    ValueType,
};

#[test]
fn empty_summary_encodes_to_bare_header() {
    let s = ModuleSummary::default();
    let bytes = encode_module(&s);
    assert_eq!(bytes, vec![0x00, 0x61, 0x73, 0x6D, 0x01, 0x00, 0x00, 0x00]);
    assert_eq!(decode_module(&bytes), Ok(s));
}

#[test]
fn full_summary_round_trips() {
    let s = ModuleSummary {
        types: vec![
            TypeEntry::Func(FuncType {
                params: vec![ValueType::I32, ValueType::I64],
                results: vec![ValueType::F64],
            }),
            TypeEntry::Other,
            TypeEntry::Func(FuncType { params: vec![], results: vec![ValueType::V128] }),
        ],
        functions: vec![0, 2, 0],
        exports: vec![
            ExportEntry { name: "main".to_string(), kind: ExportKind::Function, index: 0 },
            ExportEntry { name: "mém".to_string(), kind: ExportKind::Memory, index: 0 },
            ExportEntry { name: "".to_string(), kind: ExportKind::Global, index: 7 },
        ],
        memories: vec![
            MemoryLimit { initial: 1, maximum: Some(16) },
            MemoryLimit { initial: 300, maximum: None },
        ],
        customs: vec![
            CustomSection { name: "name".to_string(), payload: vec![1, 2, 3] },
            CustomSection { name: "name".to_string(), payload: vec![] },
        ],
    };
    let bytes = encode_module(&s);
    assert_eq!(decode_module(&bytes), Ok(s));
}

#[test]
fn large_counts_round_trip_through_multi_byte_varints() {
    let s = ModuleSummary {
        types: vec![TypeEntry::Func(FuncType { params: vec![], results: vec![] })],
        functions: vec![0; 200],
        exports: vec![ExportEntry {
            name: "x".repeat(1000),
            kind: ExportKind::Table,
            index: 624485,
        }],
        memories: vec![MemoryLimit { initial: 65536, maximum: Some(4294967295) }],
        customs: vec![],
    };
    let bytes = encode_module(&s);
    assert_eq!(decode_module(&bytes), Ok(s));
}

#[test]
fn unsigned_varint_reads() {
    let bytes = vec![0xE5, 0x8E, 0x26];
    let mut c = Cursor::new(&bytes);
    assert_eq!(c.read_uleb128(), Ok(624485));
    // non-minimal encodings within the width are accepted
    let bytes = vec![0x80, 0x00];
    let mut c = Cursor::new(&bytes);
    assert_eq!(c.read_uleb128(), Ok(0));
    let bytes = vec![0x80];
    let mut c = Cursor::new(&bytes);
    assert_eq!(c.read_uleb128(), Err(DecodeError::UnexpectedEof));
}

#[test]
fn signed_varint_reads() {
    let bytes = vec![0x7F];
    let mut c = Cursor::new(&bytes);
    assert_eq!(c.read_sleb128(), Ok(-1));
    let bytes = vec![0x40];
    let mut c = Cursor::new(&bytes);
    assert_eq!(c.read_sleb128(), Ok(-64));
    let bytes = vec![0xC0, 0x00];
    let mut c = Cursor::new(&bytes);
    assert_eq!(c.read_sleb128(), Ok(64));
    let bytes = vec![0x9B, 0xF1, 0x59];
    let mut c = Cursor::new(&bytes);
    assert_eq!(c.read_sleb128(), Ok(-624485));
    let bytes = vec![0x80; 10];
    let mut c = Cursor::new(&bytes);
    assert_eq!(c.read_sleb128(), Err(DecodeError::MalformedVarint));
}
