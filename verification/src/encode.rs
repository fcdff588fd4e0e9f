use vstd::arithmetic::div_mod::lemma_div_decreases;
use vstd::prelude::*;
use vstd::slice::slice_to_vec;
use vstd::utf8::encode_utf8;

use crate::decode::{CUSTOM_ID, EXPORT_ID, FUNCTION_ID, MEMORY_ID, TYPE_ID};
use crate::model::{
    CustomModel, ExportKind, ExportModel, MemoryLimit, ModuleModel, ModuleSummary, TypeEntryModel,
    ValueType,
};

verus! {

/// The largest count or byte length a 32-bit varint can carry, plus one.
pub const U32_BOUND: u64 = 0x1_0000_0000;

// ------------------------------------------------------------------
// Specification of the encoding
// ------------------------------------------------------------------
/// The unsigned LEB128 encoding of `n` (minimal form).
pub open spec fn spec_encode_uleb32(n: nat) -> Seq<u8>
    decreases n,
{
    if n < 128 {
        seq![n as u8]
    } else {
        proof {
            lemma_div_decreases(n as int, 128);
        }
        seq![(128 + n % 128) as u8] + spec_encode_uleb32(n / 128)
    }
}

/// The byte that encodes a value type.
pub open spec fn spec_valtype_byte(vt: ValueType) -> u8 {
    match vt {
        ValueType::I32 => 0x7F,
        ValueType::I64 => 0x7E,
        ValueType::F32 => 0x7D,
        ValueType::F64 => 0x7C,
        ValueType::V128 => 0x7B,
        ValueType::FuncRef => 0x70,
        ValueType::ExternRef => 0x6F,
    }
}

/// A count-prefixed vector of value type bytes.
pub open spec fn spec_encode_valtypes(vs: Seq<ValueType>) -> Seq<u8> {
    spec_encode_uleb32(vs.len()) + Seq::new(vs.len(), |i: int| spec_valtype_byte(vs[i]))
}

/// One sub-type record: a function type in full, any other entry as the
/// struct-type tag alone.
pub open spec fn spec_encode_subtype(t: TypeEntryModel) -> Seq<u8> {
    match t {
        TypeEntryModel::Func(ft) => seq![0x60u8] + spec_encode_valtypes(ft.params)
            + spec_encode_valtypes(ft.results),
        TypeEntryModel::Other => seq![0x5Fu8],
    }
}

/// The type section body: each entry as a recursive group of one.
pub open spec fn spec_encode_type_body(ts: Seq<TypeEntryModel>) -> Seq<u8>
    decreases ts.len(),
{
    if ts.len() == 0 {
        Seq::empty()
    } else {
        seq![0x01u8] + spec_encode_subtype(ts[0]) + spec_encode_type_body(ts.drop_first())
    }
}

/// The type indices of the function section, in order.
pub open spec fn spec_encode_u32s(xs: Seq<u32>) -> Seq<u8>
    decreases xs.len(),
{
    if xs.len() == 0 {
        Seq::empty()
    } else {
        spec_encode_uleb32(xs[0] as nat) + spec_encode_u32s(xs.drop_first())
    }
}

/// The function section body: a count, then the indices.
pub open spec fn spec_encode_function_body(xs: Seq<u32>) -> Seq<u8> {
    spec_encode_uleb32(xs.len()) + spec_encode_u32s(xs)
}

/// A length-prefixed UTF-8 name.
pub open spec fn spec_encode_name(name: Seq<char>) -> Seq<u8> {
    spec_encode_uleb32(encode_utf8(name).len()) + encode_utf8(name)
}

/// The byte that encodes an export kind.
pub open spec fn spec_export_kind_byte(k: ExportKind) -> u8 {
    match k {
        ExportKind::Function => 0x00,
        ExportKind::Table => 0x01,
        ExportKind::Memory => 0x02,
        ExportKind::Global => 0x03,
    }
}

/// One export entry: name, kind byte, index.
pub open spec fn spec_encode_export(e: ExportModel) -> Seq<u8> {
    spec_encode_name(e.name) + seq![spec_export_kind_byte(e.kind)] + spec_encode_uleb32(
        e.index as nat,
    )
}

pub open spec fn spec_encode_exports(es: Seq<ExportModel>) -> Seq<u8>
    decreases es.len(),
{
    if es.len() == 0 {
        Seq::empty()
    } else {
        spec_encode_export(es[0]) + spec_encode_exports(es.drop_first())
    }
}

/// The export section body: a count, then the entries.
pub open spec fn spec_encode_export_body(es: Seq<ExportModel>) -> Seq<u8> {
    spec_encode_uleb32(es.len()) + spec_encode_exports(es)
}

/// One memory limit record: a flag byte, the initial page count, and the
/// maximum page count when present.
pub open spec fn spec_encode_limit(m: MemoryLimit) -> Seq<u8> {
    match m.maximum {
        Some(max) => seq![0x01u8] + spec_encode_uleb32(m.initial as nat) + spec_encode_uleb32(
            max as nat,
        ),
        None => seq![0x00u8] + spec_encode_uleb32(m.initial as nat),
    }
}

pub open spec fn spec_encode_limits(ms: Seq<MemoryLimit>) -> Seq<u8>
    decreases ms.len(),
{
    if ms.len() == 0 {
        Seq::empty()
    } else {
        spec_encode_limit(ms[0]) + spec_encode_limits(ms.drop_first())
    }
}

/// The memory section body: a count, then the limit records.
pub open spec fn spec_encode_memory_body(ms: Seq<MemoryLimit>) -> Seq<u8> {
    spec_encode_uleb32(ms.len()) + spec_encode_limits(ms)
}

/// One custom section body: a name, then the payload verbatim.
pub open spec fn spec_encode_custom_body(c: CustomModel) -> Seq<u8> {
    spec_encode_name(c.name) + c.payload
}

/// One framed section record: id, declared length, body.
pub open spec fn spec_section(id: u8, body: Seq<u8>) -> Seq<u8> {
    seq![id] + spec_encode_uleb32(body.len()) + body
}

/// The custom sections, each as its own record, in file order.
pub open spec fn spec_encode_customs(cs: Seq<CustomModel>) -> Seq<u8>
    decreases cs.len(),
{
    if cs.len() == 0 {
        Seq::empty()
    } else {
        spec_section(CUSTOM_ID, spec_encode_custom_body(cs[0])) + spec_encode_customs(
            cs.drop_first(),
        )
    }
}

/// The module header: magic, then version 1.
pub open spec fn spec_header_bytes() -> Seq<u8> {
    seq![0x00u8, 0x61u8, 0x73u8, 0x6Du8, 0x01u8, 0x00u8, 0x00u8, 0x00u8]
}

/// The whole module: header, then one section per non-empty part in the
/// conventional id order, then the custom sections.
pub open spec fn spec_encode_module(m: ModuleModel) -> Seq<u8> {
    spec_header_bytes() + (if m.types.len() > 0 {
        spec_section(TYPE_ID, spec_encode_type_body(m.types))
    } else {
        Seq::empty()
    }) + (if m.functions.len() > 0 {
        spec_section(FUNCTION_ID, spec_encode_function_body(m.functions))
    } else {
        Seq::empty()
    }) + (if m.memories.len() > 0 {
        spec_section(MEMORY_ID, spec_encode_memory_body(m.memories))
    } else {
        Seq::empty()
    }) + (if m.exports.len() > 0 {
        spec_section(EXPORT_ID, spec_encode_export_body(m.exports))
    } else {
        Seq::empty()
    }) + spec_encode_customs(m.customs)
}

// ------------------------------------------------------------------
// What a summary must satisfy to be encodable
// ------------------------------------------------------------------
/// Every count, byte length and name length fits a 32-bit varint, and every
/// function declaration references an existing type table entry.
pub open spec fn encodable(m: ModuleModel) -> bool {
    &&& forall|i: int|
        0 <= i < m.types.len() ==> match #[trigger] m.types[i] {
            TypeEntryModel::Func(ft) => ft.params.len() < U32_BOUND && ft.results.len()
                < U32_BOUND,
            TypeEntryModel::Other => true,
        }
    &&& m.functions.len() < U32_BOUND
    &&& m.exports.len() < U32_BOUND
    &&& forall|i: int|
        0 <= i < m.exports.len() ==> encode_utf8(#[trigger] m.exports[i].name).len() < U32_BOUND
    &&& m.memories.len() < U32_BOUND
    &&& forall|i: int|
        0 <= i < m.customs.len() ==> encode_utf8(#[trigger] m.customs[i].name).len() < U32_BOUND
            && spec_encode_custom_body(m.customs[i]).len() < U32_BOUND
    &&& spec_encode_type_body(m.types).len() < U32_BOUND
    &&& spec_encode_function_body(m.functions).len() < U32_BOUND
    &&& spec_encode_memory_body(m.memories).len() < U32_BOUND
    &&& spec_encode_export_body(m.exports).len() < U32_BOUND
    &&& forall|i: int|
        0 <= i < m.functions.len() ==> (#[trigger] m.functions[i] as nat) < m.types.len()
}

// ------------------------------------------------------------------
// Executable encoder
// ------------------------------------------------------------------
/// Append the unsigned LEB128 encoding of `n`.
#[verifier::loop_isolation(false)]
pub fn emit_uleb(out: &mut Vec<u8>, n: u32)
    ensures
        final (out)@ == old(out)@ + spec_encode_uleb32(n as nat),
{
    let mut x = n;
    while x >= 128
        invariant
            old(out)@ + spec_encode_uleb32(n as nat) == out@ + spec_encode_uleb32(x as nat),
        decreases x,
    {
        let ghost x_old = x as nat;
        out.push((128 + x % 128) as u8);
        x = x / 128;
        proof {
            assert(spec_encode_uleb32(x_old) == seq![(128 + x_old % 128) as u8]
                + spec_encode_uleb32(x_old / 128));
            assert(old(out)@ + spec_encode_uleb32(n as nat) =~= out@ + spec_encode_uleb32(
                x as nat,
            ));
        }
    }
    out.push(x as u8);
    proof {
        assert(spec_encode_uleb32(x as nat) == seq![x as u8]);
        assert(final (out)@ =~= old(out)@ + spec_encode_uleb32(n as nat));
    }
}

/// Append the byte of one value type.
pub fn emit_valtype(out: &mut Vec<u8>, vt: ValueType)
    ensures
        final (out)@ == old(out)@ + seq![spec_valtype_byte(vt)],
{
    let byte: u8 = match vt {
        ValueType::I32 => 0x7F,
        ValueType::I64 => 0x7E,
        ValueType::F32 => 0x7D,
        ValueType::F64 => 0x7C,
        ValueType::V128 => 0x7B,
        ValueType::FuncRef => 0x70,
        ValueType::ExternRef => 0x6F,
    };
    out.push(byte);
    proof {
        assert(final (out)@ =~= old(out)@ + seq![spec_valtype_byte(vt)]);
    }
}

/// Append a count-prefixed vector of value types.
#[verifier::loop_isolation(false)]
pub fn emit_valtypes(out: &mut Vec<u8>, vs: &Vec<ValueType>)
    requires
        vs@.len() < U32_BOUND,
    ensures
        final (out)@ == old(out)@ + spec_encode_valtypes(vs@),
{
    emit_uleb(out, vs.len() as u32);
    let ghost mid = out@;
    let ghost bytes = Seq::new(vs@.len(), |i: int| spec_valtype_byte(vs@[i]));
    let mut i: usize = 0;
    while i < vs.len()
        invariant
            i <= vs@.len(),
            out@ == mid + bytes.take(i as int),
        decreases vs@.len() - i,
    {
        emit_valtype(out, vs[i]);
        proof {
            assert(mid + bytes.take(i as int) + seq![spec_valtype_byte(vs@[i as int])] =~= mid
                + bytes.take(i as int + 1));
        }
        i = i + 1;
    }
    proof {
        assert(bytes.take(vs@.len() as int) =~= bytes);
        assert(final (out)@ =~= old(out)@ + spec_encode_valtypes(vs@));
    }
}

/// Append a length-prefixed UTF-8 name.
pub fn emit_name(out: &mut Vec<u8>, name: &str)
    requires
        encode_utf8(name@).len() < U32_BOUND,
    ensures
        final (out)@ == old(out)@ + spec_encode_name(name@),
{
    let bytes = name.as_bytes();
    emit_uleb(out, bytes.len() as u32);
    let mut v = slice_to_vec(bytes);
    out.append(&mut v);
    proof {
        assert(final (out)@ =~= old(out)@ + spec_encode_name(name@));
    }
}

/// Build the body of the type section.
#[verifier::loop_isolation(false)]
fn encode_type_body(summary: &ModuleSummary) -> (r: Vec<u8>)
    requires
        encodable(summary@),
    ensures
        r@ == spec_encode_type_body(summary@.types),
{
    let ghost ts = summary@.types;
    let mut out: Vec<u8> = Vec::new();
    let mut i: usize = 0;
    proof {
        assert(ts.skip(0) =~= ts);
        assert(out@ + spec_encode_type_body(ts) =~= spec_encode_type_body(ts));
    }
    while i < summary.types.len()
        invariant
            i <= ts.len(),
            out@ + spec_encode_type_body(ts.skip(i as int)) == spec_encode_type_body(ts),
        decreases ts.len() - i,
    {
        let ghost out_old = out@;
        out.push(0x01);
        match &summary.types[i] {
            crate::model::TypeEntry::Func(ft) => {
                out.push(0x60);
                emit_valtypes(&mut out, &ft.params);
                emit_valtypes(&mut out, &ft.results);
            },
            crate::model::TypeEntry::Other => {
                out.push(0x5F);
            },
        }
        proof {
            let rest = ts.skip(i as int);
            assert(rest[0] == ts[i as int]);
            assert(rest.drop_first() =~= ts.skip(i as int + 1));
            assert(spec_encode_type_body(rest) == seq![0x01u8] + spec_encode_subtype(rest[0])
                + spec_encode_type_body(rest.drop_first()));
            assert(out@ =~= out_old + (seq![0x01u8] + spec_encode_subtype(ts[i as int])));
            assert(out@ + spec_encode_type_body(ts.skip(i as int + 1)) =~= spec_encode_type_body(
                ts,
            ));
        }
        i = i + 1;
    }
    proof {
        assert(ts.skip(ts.len() as int) =~= Seq::<TypeEntryModel>::empty());
        assert(out@ + Seq::<u8>::empty() =~= out@);
    }
    out
}

/// Build the body of the function section.
#[verifier::loop_isolation(false)]
fn encode_function_body(summary: &ModuleSummary) -> (r: Vec<u8>)
    requires
        encodable(summary@),
    ensures
        r@ == spec_encode_function_body(summary@.functions),
{
    let ghost xs = summary@.functions;
    let mut out: Vec<u8> = Vec::new();
    emit_uleb(&mut out, summary.functions.len() as u32);
    let mut i: usize = 0;
    proof {
        assert(xs.skip(0) =~= xs);
        assert(out@ =~= spec_encode_uleb32(xs.len()));
    }
    while i < summary.functions.len()
        invariant
            i <= xs.len(),
            out@ + spec_encode_u32s(xs.skip(i as int)) == spec_encode_function_body(xs),
        decreases xs.len() - i,
    {
        let ghost out_old = out@;
        emit_uleb(&mut out, summary.functions[i]);
        proof {
            let rest = xs.skip(i as int);
            assert(rest[0] == xs[i as int]);
            assert(rest.drop_first() =~= xs.skip(i as int + 1));
            assert(out@ + spec_encode_u32s(xs.skip(i as int + 1)) =~= spec_encode_function_body(
                xs,
            ));
        }
        i = i + 1;
    }
    proof {
        assert(xs.skip(xs.len() as int) =~= Seq::<u32>::empty());
        assert(out@ + Seq::<u8>::empty() =~= out@);
    }
    out
}

/// Build the body of the memory section.
#[verifier::loop_isolation(false)]
fn encode_memory_body(summary: &ModuleSummary) -> (r: Vec<u8>)
    requires
        encodable(summary@),
    ensures
        r@ == spec_encode_memory_body(summary@.memories),
{
    let ghost ms = summary@.memories;
    let mut out: Vec<u8> = Vec::new();
    emit_uleb(&mut out, summary.memories.len() as u32);
    let mut i: usize = 0;
    proof {
        assert(ms.skip(0) =~= ms);
        assert(out@ =~= spec_encode_uleb32(ms.len()));
    }
    while i < summary.memories.len()
        invariant
            i <= ms.len(),
            out@ + spec_encode_limits(ms.skip(i as int)) == spec_encode_memory_body(ms),
        decreases ms.len() - i,
    {
        let ghost out_old = out@;
        let m = summary.memories[i];
        match m.maximum {
            Some(max) => {
                out.push(0x01);
                emit_uleb(&mut out, m.initial);
                emit_uleb(&mut out, max);
            },
            None => {
                out.push(0x00);
                emit_uleb(&mut out, m.initial);
            },
        }
        proof {
            let rest = ms.skip(i as int);
            assert(rest[0] == ms[i as int]);
            assert(rest.drop_first() =~= ms.skip(i as int + 1));
            assert(out@ =~= out_old + spec_encode_limit(ms[i as int]));
            assert(out@ + spec_encode_limits(ms.skip(i as int + 1)) =~= spec_encode_memory_body(
                ms,
            ));
        }
        i = i + 1;
    }
    proof {
        assert(ms.skip(ms.len() as int) =~= Seq::<MemoryLimit>::empty());
        assert(out@ + Seq::<u8>::empty() =~= out@);
    }
    out
}

/// Build the body of the export section.
#[verifier::loop_isolation(false)]
fn encode_export_body(summary: &ModuleSummary) -> (r: Vec<u8>)
    requires
        encodable(summary@),
    ensures
        r@ == spec_encode_export_body(summary@.exports),
{
    let ghost es = summary@.exports;
    let mut out: Vec<u8> = Vec::new();
    emit_uleb(&mut out, summary.exports.len() as u32);
    let mut i: usize = 0;
    proof {
        assert(es.skip(0) =~= es);
        assert(out@ =~= spec_encode_uleb32(es.len()));
    }
    while i < summary.exports.len()
        invariant
            i <= es.len(),
            out@ + spec_encode_exports(es.skip(i as int)) == spec_encode_export_body(es),
        decreases es.len() - i,
    {
        let ghost out_old = out@;
        let e = &summary.exports[i];
        proof {
            assert(summary@.exports[i as int] == summary.exports@[i as int]@);
        }
        emit_name(&mut out, e.name.as_str());
        let kb: u8 = match e.kind {
            ExportKind::Function => 0x00,
            ExportKind::Table => 0x01,
            ExportKind::Memory => 0x02,
            ExportKind::Global => 0x03,
        };
        out.push(kb);
        emit_uleb(&mut out, e.index);
        proof {
            let rest = es.skip(i as int);
            assert(rest[0] == es[i as int]);
            assert(rest.drop_first() =~= es.skip(i as int + 1));
            assert(out@ =~= out_old + spec_encode_export(es[i as int]));
            assert(out@ + spec_encode_exports(es.skip(i as int + 1)) =~= spec_encode_export_body(
                es,
            ));
        }
        i = i + 1;
    }
    proof {
        assert(es.skip(es.len() as int) =~= Seq::<ExportModel>::empty());
        assert(out@ + Seq::<u8>::empty() =~= out@);
    }
    out
}

/// Frame one section record onto the output.
fn emit_section(out: &mut Vec<u8>, id: u8, body: &mut Vec<u8>)
    requires
        old(body)@.len() < U32_BOUND,
    ensures
        final (out)@ == old(out)@ + spec_section(id, old(body)@),
{
    out.push(id);
    emit_uleb(out, body.len() as u32);
    out.append(body);
    proof {
        assert(final (out)@ =~= old(out)@ + spec_section(id, old(body)@));
    }
}

/// Encode a summary back into module bytes.  The result decodes to the very
/// summary it came from; it exists so that tools (and tests) can build
/// modules from values.
#[verifier::loop_isolation(false)]
pub fn encode_module(summary: &ModuleSummary) -> (r: Vec<u8>)
    requires
        encodable(summary@),
    ensures
        r@ == spec_encode_module(summary@),
{
    let ghost m = summary@;
    let mut out: Vec<u8> = Vec::new();
    out.push(0x00);
    out.push(0x61);
    out.push(0x73);
    out.push(0x6D);
    out.push(0x01);
    out.push(0x00);
    out.push(0x00);
    out.push(0x00);
    proof {
        assert(out@ =~= spec_header_bytes());
    }
    if summary.types.len() > 0 {
        let mut body = encode_type_body(summary);
        emit_section(&mut out, TYPE_ID, &mut body);
    }
    if summary.functions.len() > 0 {
        let mut body = encode_function_body(summary);
        emit_section(&mut out, FUNCTION_ID, &mut body);
    }
    if summary.memories.len() > 0 {
        let mut body = encode_memory_body(summary);
        emit_section(&mut out, MEMORY_ID, &mut body);
    }
    if summary.exports.len() > 0 {
        let mut body = encode_export_body(summary);
        emit_section(&mut out, EXPORT_ID, &mut body);
    }
    let ghost before_customs = out@;
    let mut i: usize = 0;
    proof {
        assert(m.customs.skip(0) =~= m.customs);
    }
    while i < summary.customs.len()
        invariant
            i <= m.customs.len(),
            out@ + spec_encode_customs(m.customs.skip(i as int)) == before_customs
                + spec_encode_customs(m.customs),
        decreases m.customs.len() - i,
    {
        let ghost out_old = out@;
        let cs = &summary.customs[i];
        proof {
            assert(m.customs[i as int] == summary.customs@[i as int]@);
        }
        let mut body: Vec<u8> = Vec::new();
        emit_name(&mut body, cs.name.as_str());
        let mut payload = slice_to_vec(cs.payload.as_slice());
        body.append(&mut payload);
        proof {
            assert(body@ =~= spec_encode_custom_body(m.customs[i as int]));
        }
        emit_section(&mut out, CUSTOM_ID, &mut body);
        proof {
            let rest = m.customs.skip(i as int);
            assert(rest[0] == m.customs[i as int]);
            assert(rest.drop_first() =~= m.customs.skip(i as int + 1));
            assert(out@ =~= out_old + spec_section(
                CUSTOM_ID,
                spec_encode_custom_body(m.customs[i as int]),
            ));
            assert(out@ + spec_encode_customs(m.customs.skip(i as int + 1)) =~= before_customs
                + spec_encode_customs(m.customs));
        }
        i = i + 1;
    }
    proof {
        assert(m.customs.skip(m.customs.len() as int) =~= Seq::<CustomModel>::empty());
        assert(out@ + Seq::<u8>::empty() =~= out@);
        assert(before_customs + spec_encode_customs(m.customs) =~= spec_encode_module(m));
        assert(out@ =~= spec_encode_module(m));
    }
    out
}

} // verus!
