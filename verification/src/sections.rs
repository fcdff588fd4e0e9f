use vstd::prelude::*;

use crate::cursor::{
    lemma_uleb32_advance, spec_read_name, spec_read_u8, spec_uleb32, Cursor, ReadOk,
};
use crate::error::DecodeError;
use crate::model::{
    entries_view, exports_view, CustomModel, CustomSection, ExportEntry, ExportKind, ExportModel,
    FuncType, FuncTypeModel, MemoryLimit, TypeEntry, TypeEntryModel, ValueType,
};

verus! {

// ------------------------------------------------------------------
// Value types
// ------------------------------------------------------------------
/// The value type a byte encodes, or `InvalidValueType`.
pub open spec fn spec_valtype(byte: u8) -> Result<ValueType, DecodeError> {
    if byte == 0x7F {
        Ok(ValueType::I32)
    } else if byte == 0x7E {
        Ok(ValueType::I64)
    } else if byte == 0x7D {
        Ok(ValueType::F32)
    } else if byte == 0x7C {
        Ok(ValueType::F64)
    } else if byte == 0x7B {
        Ok(ValueType::V128)
    } else if byte == 0x70 {
        Ok(ValueType::FuncRef)
    } else if byte == 0x6F {
        Ok(ValueType::ExternRef)
    } else {
        Err(DecodeError::InvalidValueType)
    }
}

pub fn decode_valtype(byte: u8) -> (r: Result<ValueType, DecodeError>)
    ensures
        r == spec_valtype(byte),
{
    if byte == 0x7F {
        Ok(ValueType::I32)
    } else if byte == 0x7E {
        Ok(ValueType::I64)
    } else if byte == 0x7D {
        Ok(ValueType::F32)
    } else if byte == 0x7C {
        Ok(ValueType::F64)
    } else if byte == 0x7B {
        Ok(ValueType::V128)
    } else if byte == 0x70 {
        Ok(ValueType::FuncRef)
    } else if byte == 0x6F {
        Ok(ValueType::ExternRef)
    } else {
        Err(DecodeError::InvalidValueType)
    }
}

/// `n` value type bytes starting at `off`.
pub open spec fn spec_valtypes(b: Seq<u8>, off: int, n: nat) -> Result<
    ReadOk<Seq<ValueType>>,
    DecodeError,
>
    decreases n,
{
    if n == 0 {
        Ok((Seq::empty(), off))
    } else {
        match spec_read_u8(b, off) {
            Ok((byte, o1)) => match spec_valtype(byte) {
                Ok(vt) => match spec_valtypes(b, o1, (n - 1) as nat) {
                    Ok((rest, o2)) => Ok((seq![vt] + rest, o2)),
                    Err(e) => Err(e),
                },
                Err(e) => Err(e),
            },
            Err(e) => Err(e),
        }
    }
}

pub proof fn lemma_valtypes_advance(b: Seq<u8>, off: int, n: nat)
    requires
        0 <= off <= b.len(),
    ensures
        match spec_valtypes(b, off, n) {
            Ok((_vs, o)) => off <= o <= b.len(),
            Err(_) => true,
        },
    decreases n,
{
    if n > 0 {
        if let Ok((_byte, o1)) = spec_read_u8(b, off) {
            lemma_valtypes_advance(b, o1, (n - 1) as nat);
        }
    }
}

#[verifier::loop_isolation(false)]
fn decode_valtypes(c: &mut Cursor, n: u32) -> (r: Result<Vec<ValueType>, DecodeError>)
    requires
        old(c).wf(),
    ensures
        final (c).wf(),
        final (c).bytes@ == old(c).bytes@,
        match spec_valtypes(old(c).bytes@, old(c).pos as int, n as nat) {
            Ok((vs, o)) => r matches Ok(v) && v@ == vs && final (c).pos == o,
            Err(e) => r == Err::<Vec<ValueType>, DecodeError>(e),
        },
{
    let ghost b = c.bytes@;
    let ghost off0 = c.pos as int;
    let mut out: Vec<ValueType> = Vec::new();
    let mut i: u32 = 0;
    while i < n
        invariant
            c.wf(),
            c.bytes@ == b,
            i <= n,
            spec_valtypes(b, off0, n as nat) == (match spec_valtypes(
                b,
                c.pos as int,
                (n - i) as nat,
            ) {
                Ok((rest, o)) => Ok::<ReadOk<Seq<ValueType>>, DecodeError>((out@ + rest, o)),
                Err(e) => Err::<ReadOk<Seq<ValueType>>, DecodeError>(e),
            }),
        decreases n - i,
    {
        let byte = match c.read_u8() {
            Ok(x) => x,
            Err(e) => {
                return Err(e);
            },
        };
        let vt = match decode_valtype(byte) {
            Ok(x) => x,
            Err(e) => {
                return Err(e);
            },
        };
        let ghost out_old = out@;
        out.push(vt);
        proof {
            if let Ok((rest2, _o2)) = spec_valtypes(b, c.pos as int, (n - i - 1) as nat) {
                assert(out@ + rest2 =~= out_old + (seq![vt] + rest2));
            }
        }
        i = i + 1;
    }
    proof {
        assert(out@ + Seq::<ValueType>::empty() =~= out@);
    }
    Ok(out)
}

// ------------------------------------------------------------------
// Type section
// ------------------------------------------------------------------
/// One sub-type record: a composite-type tag; a function-type tag is decoded
/// into parameters and results, any other tag stands as an opaque marker so
/// that table positions stay stable.
pub open spec fn spec_subtype(b: Seq<u8>, off: int) -> Result<ReadOk<TypeEntryModel>, DecodeError> {
    match spec_read_u8(b, off) {
        Ok((tag, o1)) => if tag == 0x60 {
            match spec_uleb32(b, o1) {
                Ok((np, o2)) => match spec_valtypes(b, o2, np as nat) {
                    Ok((ps, o3)) => match spec_uleb32(b, o3) {
                        Ok((nr, o4)) => match spec_valtypes(b, o4, nr as nat) {
                            Ok((rs, o5)) => Ok(
                                (
                                    TypeEntryModel::Func(
                                        FuncTypeModel { params: ps, results: rs },
                                    ),
                                    o5,
                                ),
                            ),
                            Err(e) => Err(e),
                        },
                        Err(e) => Err(e),
                    },
                    Err(e) => Err(e),
                },
                Err(e) => Err(e),
            }
        } else {
            Ok((TypeEntryModel::Other, o1))
        },
        Err(e) => Err(e),
    }
}

pub proof fn lemma_subtype_advance(b: Seq<u8>, off: int)
    requires
        0 <= off <= b.len(),
    ensures
        match spec_subtype(b, off) {
            Ok((_t, o)) => off < o <= b.len(),
            Err(_) => true,
        },
{
    if let Ok((tag, o1)) = spec_read_u8(b, off) {
        if tag == 0x60 {
            lemma_uleb32_advance(b, o1);
            if let Ok((np, o2)) = spec_uleb32(b, o1) {
                lemma_valtypes_advance(b, o2, np as nat);
                if let Ok((_ps, o3)) = spec_valtypes(b, o2, np as nat) {
                    lemma_uleb32_advance(b, o3);
                    if let Ok((nr, o4)) = spec_uleb32(b, o3) {
                        lemma_valtypes_advance(b, o4, nr as nat);
                    }
                }
            }
        }
    }
}

fn decode_subtype(c: &mut Cursor) -> (r: Result<TypeEntry, DecodeError>)
    requires
        old(c).wf(),
    ensures
        final (c).wf(),
        final (c).bytes@ == old(c).bytes@,
        match spec_subtype(old(c).bytes@, old(c).pos as int) {
            Ok((t, o)) => r matches Ok(e) && e@ == t && final (c).pos == o,
            Err(e) => r == Err::<TypeEntry, DecodeError>(e),
        },
{
    let tag = match c.read_u8() {
        Ok(x) => x,
        Err(e) => {
            return Err(e);
        },
    };
    if tag == 0x60 {
        let np = match c.read_uleb128() {
            Ok(x) => x,
            Err(e) => {
                return Err(e);
            },
        };
        let params = match decode_valtypes(c, np) {
            Ok(x) => x,
            Err(e) => {
                return Err(e);
            },
        };
        let nr = match c.read_uleb128() {
            Ok(x) => x,
            Err(e) => {
                return Err(e);
            },
        };
        let results = match decode_valtypes(c, nr) {
            Ok(x) => x,
            Err(e) => {
                return Err(e);
            },
        };
        Ok(TypeEntry::Func(FuncType { params, results }))
    } else {
        Ok(TypeEntry::Other)
    }
}

/// `n` sub-type records starting at `off`.
pub open spec fn spec_subtypes(b: Seq<u8>, off: int, n: nat) -> Result<
    ReadOk<Seq<TypeEntryModel>>,
    DecodeError,
>
    decreases n,
{
    if n == 0 {
        Ok((Seq::empty(), off))
    } else {
        match spec_subtype(b, off) {
            Ok((t, o1)) => match spec_subtypes(b, o1, (n - 1) as nat) {
                Ok((rest, o2)) => Ok((seq![t] + rest, o2)),
                Err(e) => Err(e),
            },
            Err(e) => Err(e),
        }
    }
}

pub proof fn lemma_subtypes_advance(b: Seq<u8>, off: int, n: nat)
    requires
        0 <= off <= b.len(),
    ensures
        match spec_subtypes(b, off, n) {
            Ok((_ts, o)) => off <= o <= b.len(),
            Err(_) => true,
        },
    decreases n,
{
    if n > 0 {
        lemma_subtype_advance(b, off);
        if let Ok((_t, o1)) = spec_subtype(b, off) {
            lemma_subtypes_advance(b, o1, (n - 1) as nat);
        }
    }
}

#[verifier::loop_isolation(false)]
fn decode_subtypes(c: &mut Cursor, n: u32) -> (r: Result<Vec<TypeEntry>, DecodeError>)
    requires
        old(c).wf(),
    ensures
        final (c).wf(),
        final (c).bytes@ == old(c).bytes@,
        match spec_subtypes(old(c).bytes@, old(c).pos as int, n as nat) {
            Ok((ts, o)) => r matches Ok(v) && entries_view(v@) == ts && final (c).pos == o,
            Err(e) => r == Err::<Vec<TypeEntry>, DecodeError>(e),
        },
{
    let ghost b = c.bytes@;
    let ghost off0 = c.pos as int;
    let mut out: Vec<TypeEntry> = Vec::new();
    let mut i: u32 = 0;
    while i < n
        invariant
            c.wf(),
            c.bytes@ == b,
            i <= n,
            spec_subtypes(b, off0, n as nat) == (match spec_subtypes(
                b,
                c.pos as int,
                (n - i) as nat,
            ) {
                Ok((rest, o)) => Ok::<ReadOk<Seq<TypeEntryModel>>, DecodeError>(
                    (entries_view(out@) + rest, o),
                ),
                Err(e) => Err::<ReadOk<Seq<TypeEntryModel>>, DecodeError>(e),
            }),
        decreases n - i,
    {
        let t = match decode_subtype(c) {
            Ok(x) => x,
            Err(e) => {
                return Err(e);
            },
        };
        let ghost out_old = out@;
        out.push(t);
        proof {
            assert(entries_view(out@) =~= entries_view(out_old) + seq![t@]);
            if let Ok((rest2, _o2)) = spec_subtypes(b, c.pos as int, (n - i - 1) as nat) {
                assert(entries_view(out@) + rest2 =~= entries_view(out_old) + (seq![t@] + rest2));
            }
        }
        i = i + 1;
    }
    proof {
        assert(entries_view(out@) + Seq::<TypeEntryModel>::empty() =~= entries_view(out@));
    }
    Ok(out)
}

/// Recursive groups from `off` to the end of the slice: each group is a
/// count followed by that many sub-type records, appended in order.
pub open spec fn spec_type_groups(b: Seq<u8>, off: int) -> Result<Seq<TypeEntryModel>, DecodeError>
    decreases b.len() - off,
    when 0 <= off <= b.len()
{
    if off >= b.len() {
        Ok(Seq::empty())
    } else {
        match spec_uleb32(b, off) {
            Ok((n, o1)) => match spec_subtypes(b, o1, n as nat) {
                Ok((ts, o2)) => {
                    proof {
                        lemma_uleb32_advance(b, off);
                        lemma_subtypes_advance(b, o1, n as nat);
                    }
                    match spec_type_groups(b, o2) {
                        Ok(rest) => Ok(ts + rest),
                        Err(e) => Err(e),
                    }
                },
                Err(e) => Err(e),
            },
            Err(e) => Err(e),
        }
    }
}

/// The whole type section: groups until the slice is exhausted.
pub open spec fn spec_type_section(b: Seq<u8>) -> Result<Seq<TypeEntryModel>, DecodeError> {
    spec_type_groups(b, 0)
}

#[verifier::loop_isolation(false)]
pub fn decode_type_section(body: &[u8]) -> (r: Result<Vec<TypeEntry>, DecodeError>)
    ensures
        match spec_type_section(body@) {
            Ok(ts) => r matches Ok(v) && entries_view(v@) == ts,
            Err(e) => r == Err::<Vec<TypeEntry>, DecodeError>(e),
        },
{
    let mut c = Cursor::new(body);
    let mut out: Vec<TypeEntry> = Vec::new();
    while c.pos < body.len()
        invariant
            c.wf(),
            c.bytes@ == body@,
            spec_type_groups(body@, 0) == (match spec_type_groups(body@, c.pos as int) {
                Ok(rest) => Ok::<Seq<TypeEntryModel>, DecodeError>(entries_view(out@) + rest),
                Err(e) => Err::<Seq<TypeEntryModel>, DecodeError>(e),
            }),
        decreases body@.len() - c.pos,
    {
        let ghost pos_old = c.pos as int;
        let n = match c.read_uleb128() {
            Ok(x) => x,
            Err(e) => {
                return Err(e);
            },
        };
        proof {
            lemma_uleb32_advance(body@, pos_old);
        }
        let ghost pos1 = c.pos as int;
        let mut got = match decode_subtypes(&mut c, n) {
            Ok(x) => x,
            Err(e) => {
                return Err(e);
            },
        };
        proof {
            lemma_subtypes_advance(body@, pos1, n as nat);
        }
        let ghost out_old = out@;
        let ghost got_seq = got@;
        out.append(&mut got);
        proof {
            assert(entries_view(out@) =~= entries_view(out_old) + entries_view(got_seq));
            if let Ok(rest2) = spec_type_groups(body@, c.pos as int) {
                assert(entries_view(out@) + rest2 =~= entries_view(out_old) + (entries_view(
                    got_seq,
                ) + rest2));
            }
        }
    }
    proof {
        assert(entries_view(out@) + Seq::<TypeEntryModel>::empty() =~= entries_view(out@));
    }
    Ok(out)
}

// ------------------------------------------------------------------
// Function section
// ------------------------------------------------------------------
/// `n` type indices starting at `off`.
pub open spec fn spec_u32s(b: Seq<u8>, off: int, n: nat) -> Result<ReadOk<Seq<u32>>, DecodeError>
    decreases n,
{
    if n == 0 {
        Ok((Seq::empty(), off))
    } else {
        match spec_uleb32(b, off) {
            Ok((x, o1)) => match spec_u32s(b, o1, (n - 1) as nat) {
                Ok((rest, o2)) => Ok((seq![x] + rest, o2)),
                Err(e) => Err(e),
            },
            Err(e) => Err(e),
        }
    }
}

/// The whole function section: a count, then that many type indices, which
/// must end exactly at the slice end.
pub open spec fn spec_function_section(b: Seq<u8>) -> Result<Seq<u32>, DecodeError> {
    match spec_uleb32(b, 0) {
        Ok((n, o1)) => match spec_u32s(b, o1, n as nat) {
            Ok((xs, o2)) => if o2 == b.len() {
                Ok(xs)
            } else {
                Err(DecodeError::SectionLengthMismatch)
            },
            Err(e) => Err(e),
        },
        Err(e) => Err(e),
    }
}

#[verifier::loop_isolation(false)]
pub fn decode_function_section(body: &[u8]) -> (r: Result<Vec<u32>, DecodeError>)
    ensures
        match spec_function_section(body@) {
            Ok(xs) => r matches Ok(v) && v@ == xs,
            Err(e) => r == Err::<Vec<u32>, DecodeError>(e),
        },
{
    let mut c = Cursor::new(body);
    let n = match c.read_uleb128() {
        Ok(x) => x,
        Err(e) => {
            return Err(e);
        },
    };
    let ghost off0 = c.pos as int;
    let mut out: Vec<u32> = Vec::new();
    let mut i: u32 = 0;
    while i < n
        invariant
            c.wf(),
            c.bytes@ == body@,
            i <= n,
            spec_u32s(body@, off0, n as nat) == (match spec_u32s(
                body@,
                c.pos as int,
                (n - i) as nat,
            ) {
                Ok((rest, o)) => Ok::<ReadOk<Seq<u32>>, DecodeError>((out@ + rest, o)),
                Err(e) => Err::<ReadOk<Seq<u32>>, DecodeError>(e),
            }),
        decreases n - i,
    {
        let x = match c.read_uleb128() {
            Ok(x) => x,
            Err(e) => {
                return Err(e);
            },
        };
        let ghost out_old = out@;
        out.push(x);
        proof {
            if let Ok((rest2, _o2)) = spec_u32s(body@, c.pos as int, (n - i - 1) as nat) {
                assert(out@ + rest2 =~= out_old + (seq![x] + rest2));
            }
        }
        i = i + 1;
    }
    proof {
        assert(out@ + Seq::<u32>::empty() =~= out@);
    }
    if c.pos != body.len() {
        return Err(DecodeError::SectionLengthMismatch);
    }
    Ok(out)
}

// ------------------------------------------------------------------
// Export section
// ------------------------------------------------------------------
/// The export kind a byte encodes, or `InvalidExportKind`.
pub open spec fn spec_export_kind(byte: u8) -> Result<ExportKind, DecodeError> {
    if byte == 0x00 {
        Ok(ExportKind::Function)
    } else if byte == 0x01 {
        Ok(ExportKind::Table)
    } else if byte == 0x02 {
        Ok(ExportKind::Memory)
    } else if byte == 0x03 {
        Ok(ExportKind::Global)
    } else {
        Err(DecodeError::InvalidExportKind)
    }
}

pub fn decode_export_kind(byte: u8) -> (r: Result<ExportKind, DecodeError>)
    ensures
        r == spec_export_kind(byte),
{
    if byte == 0x00 {
        Ok(ExportKind::Function)
    } else if byte == 0x01 {
        Ok(ExportKind::Table)
    } else if byte == 0x02 {
        Ok(ExportKind::Memory)
    } else if byte == 0x03 {
        Ok(ExportKind::Global)
    } else {
        Err(DecodeError::InvalidExportKind)
    }
}

/// One export entry: a name, a kind byte, an index.
pub open spec fn spec_export(b: Seq<u8>, off: int) -> Result<ReadOk<ExportModel>, DecodeError> {
    match spec_read_name(b, off) {
        Ok((name, o1)) => match spec_read_u8(b, o1) {
            Ok((kb, o2)) => match spec_export_kind(kb) {
                Ok(kind) => match spec_uleb32(b, o2) {
                    Ok((idx, o3)) => Ok((ExportModel { name, kind, index: idx }, o3)),
                    Err(e) => Err(e),
                },
                Err(e) => Err(e),
            },
            Err(e) => Err(e),
        },
        Err(e) => Err(e),
    }
}

fn decode_export(c: &mut Cursor) -> (r: Result<ExportEntry, DecodeError>)
    requires
        old(c).wf(),
    ensures
        final (c).wf(),
        final (c).bytes@ == old(c).bytes@,
        match spec_export(old(c).bytes@, old(c).pos as int) {
            Ok((em, o)) => r matches Ok(e) && e@ == em && final (c).pos == o,
            Err(e) => r == Err::<ExportEntry, DecodeError>(e),
        },
{
    let name = match c.read_name() {
        Ok(x) => x,
        Err(e) => {
            return Err(e);
        },
    };
    let kb = match c.read_u8() {
        Ok(x) => x,
        Err(e) => {
            return Err(e);
        },
    };
    let kind = match decode_export_kind(kb) {
        Ok(x) => x,
        Err(e) => {
            return Err(e);
        },
    };
    let index = match c.read_uleb128() {
        Ok(x) => x,
        Err(e) => {
            return Err(e);
        },
    };
    Ok(ExportEntry { name, kind, index })
}

/// `n` export entries starting at `off`.
pub open spec fn spec_exports(b: Seq<u8>, off: int, n: nat) -> Result<
    ReadOk<Seq<ExportModel>>,
    DecodeError,
>
    decreases n,
{
    if n == 0 {
        Ok((Seq::empty(), off))
    } else {
        match spec_export(b, off) {
            Ok((em, o1)) => match spec_exports(b, o1, (n - 1) as nat) {
                Ok((rest, o2)) => Ok((seq![em] + rest, o2)),
                Err(e) => Err(e),
            },
            Err(e) => Err(e),
        }
    }
}

/// The whole export section: a count, then that many entries, ending exactly
/// at the slice end.
pub open spec fn spec_export_section(b: Seq<u8>) -> Result<Seq<ExportModel>, DecodeError> {
    match spec_uleb32(b, 0) {
        Ok((n, o1)) => match spec_exports(b, o1, n as nat) {
            Ok((es, o2)) => if o2 == b.len() {
                Ok(es)
            } else {
                Err(DecodeError::SectionLengthMismatch)
            },
            Err(e) => Err(e),
        },
        Err(e) => Err(e),
    }
}

#[verifier::loop_isolation(false)]
pub fn decode_export_section(body: &[u8]) -> (r: Result<Vec<ExportEntry>, DecodeError>)
    ensures
        match spec_export_section(body@) {
            Ok(es) => r matches Ok(v) && exports_view(v@) == es,
            Err(e) => r == Err::<Vec<ExportEntry>, DecodeError>(e),
        },
{
    let mut c = Cursor::new(body);
    let n = match c.read_uleb128() {
        Ok(x) => x,
        Err(e) => {
            return Err(e);
        },
    };
    let ghost off0 = c.pos as int;
    let mut out: Vec<ExportEntry> = Vec::new();
    let mut i: u32 = 0;
    while i < n
        invariant
            c.wf(),
            c.bytes@ == body@,
            i <= n,
            spec_exports(body@, off0, n as nat) == (match spec_exports(
                body@,
                c.pos as int,
                (n - i) as nat,
            ) {
                Ok((rest, o)) => Ok::<ReadOk<Seq<ExportModel>>, DecodeError>(
                    (exports_view(out@) + rest, o),
                ),
                Err(e) => Err::<ReadOk<Seq<ExportModel>>, DecodeError>(e),
            }),
        decreases n - i,
    {
        let ee = match decode_export(&mut c) {
            Ok(x) => x,
            Err(e) => {
                return Err(e);
            },
        };
        let ghost out_old = out@;
        out.push(ee);
        proof {
            assert(exports_view(out@) =~= exports_view(out_old) + seq![ee@]);
            if let Ok((rest2, _o2)) = spec_exports(body@, c.pos as int, (n - i - 1) as nat) {
                assert(exports_view(out@) + rest2 =~= exports_view(out_old) + (seq![ee@] + rest2));
            }
        }
        i = i + 1;
    }
    proof {
        assert(exports_view(out@) + Seq::<ExportModel>::empty() =~= exports_view(out@));
    }
    if c.pos != body.len() {
        return Err(DecodeError::SectionLengthMismatch);
    }
    Ok(out)
}

// ------------------------------------------------------------------
// Memory section
// ------------------------------------------------------------------
/// One memory limit record: a flag byte whose bit 0 says whether a maximum
/// follows, the initial page count, then the maximum page count if present.
pub open spec fn spec_limit(b: Seq<u8>, off: int) -> Result<ReadOk<MemoryLimit>, DecodeError> {
    match spec_read_u8(b, off) {
        Ok((flag, o1)) => match spec_uleb32(b, o1) {
            Ok((initial, o2)) => if flag & 1 == 1 {
                match spec_uleb32(b, o2) {
                    Ok((max, o3)) => Ok((MemoryLimit { initial, maximum: Some(max) }, o3)),
                    Err(e) => Err(e),
                }
            } else {
                Ok((MemoryLimit { initial, maximum: None }, o2))
            },
            Err(e) => Err(e),
        },
        Err(e) => Err(e),
    }
}

fn decode_limit(c: &mut Cursor) -> (r: Result<MemoryLimit, DecodeError>)
    requires
        old(c).wf(),
    ensures
        final (c).wf(),
        final (c).bytes@ == old(c).bytes@,
        match spec_limit(old(c).bytes@, old(c).pos as int) {
            Ok((m, o)) => r matches Ok(l) && l == m && final (c).pos == o,
            Err(e) => r == Err::<MemoryLimit, DecodeError>(e),
        },
{
    let flag = match c.read_u8() {
        Ok(x) => x,
        Err(e) => {
            return Err(e);
        },
    };
    let initial = match c.read_uleb128() {
        Ok(x) => x,
        Err(e) => {
            return Err(e);
        },
    };
    if flag & 1 == 1 {
        let max = match c.read_uleb128() {
            Ok(x) => x,
            Err(e) => {
                return Err(e);
            },
        };
        Ok(MemoryLimit { initial, maximum: Some(max) })
    } else {
        Ok(MemoryLimit { initial, maximum: None })
    }
}

/// `n` memory limit records starting at `off`.
pub open spec fn spec_limits(b: Seq<u8>, off: int, n: nat) -> Result<
    ReadOk<Seq<MemoryLimit>>,
    DecodeError,
>
    decreases n,
{
    if n == 0 {
        Ok((Seq::empty(), off))
    } else {
        match spec_limit(b, off) {
            Ok((m, o1)) => match spec_limits(b, o1, (n - 1) as nat) {
                Ok((rest, o2)) => Ok((seq![m] + rest, o2)),
                Err(e) => Err(e),
            },
            Err(e) => Err(e),
        }
    }
}

/// The whole memory section: a count, then that many limit records, ending
/// exactly at the slice end.
pub open spec fn spec_memory_section(b: Seq<u8>) -> Result<Seq<MemoryLimit>, DecodeError> {
    match spec_uleb32(b, 0) {
        Ok((n, o1)) => match spec_limits(b, o1, n as nat) {
            Ok((ms, o2)) => if o2 == b.len() {
                Ok(ms)
            } else {
                Err(DecodeError::SectionLengthMismatch)
            },
            Err(e) => Err(e),
        },
        Err(e) => Err(e),
    }
}

#[verifier::loop_isolation(false)]
pub fn decode_memory_section(body: &[u8]) -> (r: Result<Vec<MemoryLimit>, DecodeError>)
    ensures
        match spec_memory_section(body@) {
            Ok(ms) => r matches Ok(v) && v@ == ms,
            Err(e) => r == Err::<Vec<MemoryLimit>, DecodeError>(e),
        },
{
    let mut c = Cursor::new(body);
    let n = match c.read_uleb128() {
        Ok(x) => x,
        Err(e) => {
            return Err(e);
        },
    };
    let ghost off0 = c.pos as int;
    let mut out: Vec<MemoryLimit> = Vec::new();
    let mut i: u32 = 0;
    while i < n
        invariant
            c.wf(),
            c.bytes@ == body@,
            i <= n,
            spec_limits(body@, off0, n as nat) == (match spec_limits(
                body@,
                c.pos as int,
                (n - i) as nat,
            ) {
                Ok((rest, o)) => Ok::<ReadOk<Seq<MemoryLimit>>, DecodeError>((out@ + rest, o)),
                Err(e) => Err::<ReadOk<Seq<MemoryLimit>>, DecodeError>(e),
            }),
        decreases n - i,
    {
        let m = match decode_limit(&mut c) {
            Ok(x) => x,
            Err(e) => {
                return Err(e);
            },
        };
        let ghost out_old = out@;
        out.push(m);
        proof {
            if let Ok((rest2, _o2)) = spec_limits(body@, c.pos as int, (n - i - 1) as nat) {
                assert(out@ + rest2 =~= out_old + (seq![m] + rest2));
            }
        }
        i = i + 1;
    }
    proof {
        assert(out@ + Seq::<MemoryLimit>::empty() =~= out@);
    }
    if c.pos != body.len() {
        return Err(DecodeError::SectionLengthMismatch);
    }
    Ok(out)
}

// ------------------------------------------------------------------
// Import section
// ------------------------------------------------------------------
/// One import entry: module name, import name, then a kind-tagged
/// descriptor.  Descriptors are recognized and skipped, not retained; an
/// unrecognized descriptor tag leaves the rest of the section unframeable,
/// so it fails with `SectionLengthMismatch`.
pub open spec fn spec_import(b: Seq<u8>, off: int) -> Result<int, DecodeError> {
    match spec_read_name(b, off) {
        Ok((_module, o1)) => match spec_read_name(b, o1) {
            Ok((_name, o2)) => match spec_read_u8(b, o2) {
                Ok((kind, o3)) => if kind == 0x00 {
                    // a function import: a type index
                    match spec_uleb32(b, o3) {
                        Ok((_idx, o4)) => Ok(o4),
                        Err(e) => Err(e),
                    }
                } else if kind == 0x01 {
                    // a table import: an element type, then limits
                    match spec_read_u8(b, o3) {
                        Ok((et, o4)) => match spec_valtype(et) {
                            Ok(_vt) => match spec_limit(b, o4) {
                                Ok((_m, o5)) => Ok(o5),
                                Err(e) => Err(e),
                            },
                            Err(e) => Err(e),
                        },
                        Err(e) => Err(e),
                    }
                } else if kind == 0x02 {
                    // a memory import: limits
                    match spec_limit(b, o3) {
                        Ok((_m, o4)) => Ok(o4),
                        Err(e) => Err(e),
                    }
                } else if kind == 0x03 {
                    // a global import: a value type, then a mutability byte
                    match spec_read_u8(b, o3) {
                        Ok((vt, o4)) => match spec_valtype(vt) {
                            Ok(_v) => match spec_read_u8(b, o4) {
                                Ok((_mu, o5)) => Ok(o5),
                                Err(e) => Err(e),
                            },
                            Err(e) => Err(e),
                        },
                        Err(e) => Err(e),
                    }
                } else {
                    Err(DecodeError::SectionLengthMismatch)
                },
                Err(e) => Err(e),
            },
            Err(e) => Err(e),
        },
        Err(e) => Err(e),
    }
}

fn decode_import(c: &mut Cursor) -> (r: Result<(), DecodeError>)
    requires
        old(c).wf(),
    ensures
        final (c).wf(),
        final (c).bytes@ == old(c).bytes@,
        match spec_import(old(c).bytes@, old(c).pos as int) {
            Ok(o) => r is Ok && final (c).pos == o,
            Err(e) => r == Err::<(), DecodeError>(e),
        },
{
    let _module = match c.read_name() {
        Ok(x) => x,
        Err(e) => {
            return Err(e);
        },
    };
    let _name = match c.read_name() {
        Ok(x) => x,
        Err(e) => {
            return Err(e);
        },
    };
    let kind = match c.read_u8() {
        Ok(x) => x,
        Err(e) => {
            return Err(e);
        },
    };
    if kind == 0x00 {
        let _idx = match c.read_uleb128() {
            Ok(x) => x,
            Err(e) => {
                return Err(e);
            },
        };
        Ok(())
    } else if kind == 0x01 {
        let et = match c.read_u8() {
            Ok(x) => x,
            Err(e) => {
                return Err(e);
            },
        };
        let _vt = match decode_valtype(et) {
            Ok(x) => x,
            Err(e) => {
                return Err(e);
            },
        };
        let _m = match decode_limit(c) {
            Ok(x) => x,
            Err(e) => {
                return Err(e);
            },
        };
        Ok(())
    } else if kind == 0x02 {
        let _m = match decode_limit(c) {
            Ok(x) => x,
            Err(e) => {
                return Err(e);
            },
        };
        Ok(())
    } else if kind == 0x03 {
        let vt = match c.read_u8() {
            Ok(x) => x,
            Err(e) => {
                return Err(e);
            },
        };
        let _v = match decode_valtype(vt) {
            Ok(x) => x,
            Err(e) => {
                return Err(e);
            },
        };
        let _mu = match c.read_u8() {
            Ok(x) => x,
            Err(e) => {
                return Err(e);
            },
        };
        Ok(())
    } else {
        Err(DecodeError::SectionLengthMismatch)
    }
}

/// `n` import entries starting at `off`; only the final offset matters.
pub open spec fn spec_imports(b: Seq<u8>, off: int, n: nat) -> Result<int, DecodeError>
    decreases n,
{
    if n == 0 {
        Ok(off)
    } else {
        match spec_import(b, off) {
            Ok(o1) => spec_imports(b, o1, (n - 1) as nat),
            Err(e) => Err(e),
        }
    }
}

/// The whole import section: a count, then that many entries, ending exactly
/// at the slice end.  Entries are validated and skipped, not retained.
pub open spec fn spec_import_section(b: Seq<u8>) -> Result<(), DecodeError> {
    match spec_uleb32(b, 0) {
        Ok((n, o1)) => match spec_imports(b, o1, n as nat) {
            Ok(o2) => if o2 == b.len() {
                Ok(())
            } else {
                Err(DecodeError::SectionLengthMismatch)
            },
            Err(e) => Err(e),
        },
        Err(e) => Err(e),
    }
}

#[verifier::loop_isolation(false)]
pub fn decode_import_section(body: &[u8]) -> (r: Result<(), DecodeError>)
    ensures
        r == spec_import_section(body@),
{
    let mut c = Cursor::new(body);
    let n = match c.read_uleb128() {
        Ok(x) => x,
        Err(e) => {
            return Err(e);
        },
    };
    let ghost off0 = c.pos as int;
    let mut i: u32 = 0;
    while i < n
        invariant
            c.wf(),
            c.bytes@ == body@,
            i <= n,
            spec_imports(body@, off0, n as nat) == spec_imports(
                body@,
                c.pos as int,
                (n - i) as nat,
            ),
        decreases n - i,
    {
        match decode_import(&mut c) {
            Ok(x) => x,
            Err(e) => {
                return Err(e);
            },
        };
        i = i + 1;
    }
    if c.pos != body.len() {
        return Err(DecodeError::SectionLengthMismatch);
    }
    Ok(())
}

// ------------------------------------------------------------------
// Custom section
// ------------------------------------------------------------------
/// The whole custom section: a name, and the rest of the slice verbatim as
/// the opaque payload.
pub open spec fn spec_custom_section(b: Seq<u8>) -> Result<CustomModel, DecodeError> {
    match spec_read_name(b, 0) {
        Ok((name, o)) => Ok(CustomModel { name, payload: b.subrange(o, b.len() as int) }),
        Err(e) => Err(e),
    }
}

pub fn decode_custom_section(body: &[u8]) -> (r: Result<CustomSection, DecodeError>)
    ensures
        match spec_custom_section(body@) {
            Ok(cm) => r matches Ok(cs) && cs@ == cm,
            Err(e) => r == Err::<CustomSection, DecodeError>(e),
        },
{
    let mut c = Cursor::new(body);
    let name = match c.read_name() {
        Ok(x) => x,
        Err(e) => {
            return Err(e);
        },
    };
    let rest = body.len() - c.pos;
    let payload = match c.read_bytes(rest) {
        Ok(x) => x,
        Err(e) => {
            return Err(e);
        },
    };
    Ok(CustomSection { name, payload })
}

} // verus!
