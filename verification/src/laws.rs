use vstd::arithmetic::div_mod::lemma_fundamental_div_mod;
use vstd::prelude::*;
use vstd::utf8::{encode_utf8, encode_utf8_decode_utf8, encode_utf8_valid_utf8};

use crate::cursor::{lemma_pow128_pos, pow128, spec_read_name, spec_uleb32, spec_uleb_rec};
use crate::encode::{
    spec_encode_custom_body, spec_encode_export, spec_encode_export_body, spec_encode_exports,
    spec_encode_function_body, spec_encode_limit, spec_encode_limits, spec_encode_memory_body,
    spec_encode_name, spec_encode_subtype, spec_encode_type_body, spec_encode_u32s,
    spec_encode_uleb32, spec_encode_valtypes, spec_export_kind_byte, spec_valtype_byte, U32_BOUND,
};
use crate::decode::{
    spec_apply_section, spec_decode_module, spec_first_dangling, spec_header, spec_sections,
    spec_validate, CUSTOM_ID, EXPORT_ID, FUNCTION_ID, MEMORY_ID, TYPE_ID,
};
use crate::encode::{
    encodable, spec_encode_customs, spec_encode_module, spec_header_bytes, spec_section,
};
use crate::error::DecodeError;
use crate::model::{empty_module, ModuleModel};
use crate::model::{CustomModel, ExportModel, MemoryLimit, TypeEntryModel, ValueType};
use crate::sections::{
    spec_custom_section, spec_export, spec_export_kind, spec_export_section,
    spec_exports, spec_function_section, spec_limit, spec_limits, spec_memory_section,
    spec_subtype, spec_subtypes, spec_type_groups, spec_u32s, spec_valtype, spec_valtypes,
};

verus! {

/// A region of `b` equal to `enc` agrees with `enc` on every sub-region.
pub proof fn lemma_sub_embed(b: Seq<u8>, off: int, enc: Seq<u8>, lo: int, hi: int)
    requires
        0 <= off,
        off + enc.len() <= b.len(),
        b.subrange(off, off + enc.len()) == enc,
        0 <= lo <= hi <= enc.len(),
    ensures
        b.subrange(off + lo, off + hi) == enc.subrange(lo, hi),
{
    assert forall|j: int| 0 <= j < hi - lo implies b[off + lo + j] == #[trigger] enc[lo + j] by {
        assert(b.subrange(off, off + enc.len())[lo + j] == b[off + lo + j]);
    }
    assert(b.subrange(off + lo, off + hi) =~= enc.subrange(lo, hi));
}

/// A value below `128^k` encodes in at most `k` varint bytes.
pub proof fn lemma_enc_uleb_len(n: nat, k: nat)
    requires
        1 <= k,
        n < pow128(k),
    ensures
        1 <= spec_encode_uleb32(n).len() <= k,
    decreases n,
{
    if n < 128 {
    } else {
        lemma_pow128_pos((k - 1) as nat);
        if k == 1 {
            assert(pow128(1) == 128 * pow128(0));
            assert(false);
        }
        assert(n / 128 < pow128((k - 1) as nat)) by (nonlinear_arith)
            requires
                n < 128 * pow128((k - 1) as nat),
                n >= 128,
        ;
        assert(n / 128 < n) by (nonlinear_arith)
            requires
                n >= 128,
        ;
        lemma_enc_uleb_len(n / 128, (k - 1) as nat);
    }
}

/// Decoding an embedded varint encoding gives the encoded value back and
/// stops just past it.
pub proof fn lemma_uleb_embed_rec(n: nat, b: Seq<u8>, off: int, max_bytes: nat)
    requires
        spec_encode_uleb32(n).len() <= max_bytes,
        0 <= off,
        off + spec_encode_uleb32(n).len() <= b.len(),
        b.subrange(off, off + spec_encode_uleb32(n).len()) == spec_encode_uleb32(n),
    ensures
        spec_uleb_rec(b, off, max_bytes) == Ok::<(nat, int), DecodeError>(
            (n, off + spec_encode_uleb32(n).len()),
        ),
    decreases n,
{
    let enc = spec_encode_uleb32(n);
    assert(b[off] == enc[0]);
    if n < 128 {
        assert(enc == seq![n as u8]);
        assert(b[off] == n as u8);
    } else {
        assert(n / 128 < n) by (nonlinear_arith)
            requires
                n >= 128,
        ;
        let tail = spec_encode_uleb32(n / 128);
        assert(enc == seq![(128 + n % 128) as u8] + tail);
        assert(b[off] == (128 + n % 128) as u8);
        assert(b[off] >= 0x80);
        lemma_sub_embed(b, off, enc, 1, enc.len() as int);
        assert(enc.subrange(1, enc.len() as int) =~= tail);
        lemma_uleb_embed_rec(n / 128, b, off + 1, (max_bytes - 1) as nat);
        lemma_fundamental_div_mod(n as int, 128);
        assert((b[off] - 0x80) as nat + 128 * (n / 128) == n);
    }
}

/// A 32-bit varint read of an embedded encoding of `n < 2^32`.
pub proof fn lemma_uleb32_embed(n: nat, b: Seq<u8>, off: int)
    requires
        n < U32_BOUND,
        0 <= off,
        off + spec_encode_uleb32(n).len() <= b.len(),
        b.subrange(off, off + spec_encode_uleb32(n).len()) == spec_encode_uleb32(n),
    ensures
        spec_uleb32(b, off) == Ok::<(u32, int), DecodeError>(
            (n as u32, off + spec_encode_uleb32(n).len()),
        ),
        1 <= spec_encode_uleb32(n).len() <= 5,
{
    assert(pow128(5) == 0x8_0000_0000) by {
        reveal_with_fuel(pow128, 6);
    }
    lemma_enc_uleb_len(n, 5);
    lemma_uleb_embed_rec(n, b, off, 5);
}

/// Reading an embedded encoded name gives the name back.
pub proof fn lemma_name_embed(name: Seq<char>, b: Seq<u8>, off: int)
    requires
        encode_utf8(name).len() < U32_BOUND,
        0 <= off,
        off + spec_encode_name(name).len() <= b.len(),
        b.subrange(off, off + spec_encode_name(name).len()) == spec_encode_name(name),
    ensures
        spec_read_name(b, off) == Ok::<(Seq<char>, int), DecodeError>(
            (name, off + spec_encode_name(name).len()),
        ),
{
    let raw = encode_utf8(name);
    let cnt = spec_encode_uleb32(raw.len());
    let enc = spec_encode_name(name);
    assert(enc == cnt + raw);
    lemma_sub_embed(b, off, enc, 0, cnt.len() as int);
    assert(enc.subrange(0, cnt.len() as int) =~= cnt);
    lemma_uleb32_embed(raw.len(), b, off);
    let o1 = off + cnt.len();
    lemma_sub_embed(b, off, enc, cnt.len() as int, enc.len() as int);
    assert(enc.subrange(cnt.len() as int, enc.len() as int) =~= raw);
    encode_utf8_valid_utf8(name);
    encode_utf8_decode_utf8(name);
}

/// A value type byte decodes back to the value type it encodes.
pub proof fn lemma_valtype_byte_round(vt: ValueType)
    ensures
        spec_valtype(spec_valtype_byte(vt)) == Ok::<ValueType, DecodeError>(vt),
{
}

/// Decoding an embedded run of value type bytes gives the types back.
pub proof fn lemma_vt_list_embed(vs: Seq<ValueType>, b: Seq<u8>, off: int)
    requires
        0 <= off,
        off + vs.len() <= b.len(),
        b.subrange(off, off + vs.len() as int) == Seq::new(
            vs.len(),
            |i: int| spec_valtype_byte(vs[i]),
        ),
    ensures
        spec_valtypes(b, off, vs.len()) == Ok::<(Seq<ValueType>, int), DecodeError>(
            (vs, off + vs.len()),
        ),
    decreases vs.len(),
{
    let bytes = Seq::new(vs.len(), |i: int| spec_valtype_byte(vs[i]));
    if vs.len() == 0 {
        assert(Seq::<ValueType>::empty() =~= vs);
    } else {
        assert(b.subrange(off, off + vs.len() as int)[0] == b[off]);
        assert(b[off] == bytes[0]);
        lemma_valtype_byte_round(vs[0]);
        let vs2 = vs.drop_first();
        let bytes2 = Seq::new(vs2.len(), |i: int| spec_valtype_byte(vs2[i]));
        lemma_sub_embed(b, off, bytes, 1, vs.len() as int);
        assert(bytes.subrange(1, vs.len() as int) =~= bytes2);
        lemma_vt_list_embed(vs2, b, off + 1);
        assert(seq![vs[0]] + vs2 =~= vs);
    }
}

/// Decoding an embedded count-prefixed value type vector.
pub proof fn lemma_valtypes_embed(vs: Seq<ValueType>, b: Seq<u8>, off: int)
    requires
        vs.len() < U32_BOUND,
        0 <= off,
        off + spec_encode_valtypes(vs).len() <= b.len(),
        b.subrange(off, off + spec_encode_valtypes(vs).len()) == spec_encode_valtypes(vs),
    ensures
        spec_uleb32(b, off) matches Ok((n, o1)) && n == vs.len() && spec_valtypes(b, o1, vs.len())
            == Ok::<(Seq<ValueType>, int), DecodeError>(
            (vs, off + spec_encode_valtypes(vs).len()),
        ),
{
    let enc = spec_encode_valtypes(vs);
    let cnt = spec_encode_uleb32(vs.len());
    let bytes = Seq::new(vs.len(), |i: int| spec_valtype_byte(vs[i]));
    assert(enc == cnt + bytes);
    lemma_sub_embed(b, off, enc, 0, cnt.len() as int);
    assert(enc.subrange(0, cnt.len() as int) =~= cnt);
    lemma_uleb32_embed(vs.len(), b, off);
    lemma_sub_embed(b, off, enc, cnt.len() as int, enc.len() as int);
    assert(enc.subrange(cnt.len() as int, enc.len() as int) =~= bytes);
    lemma_vt_list_embed(vs, b, off + cnt.len());
}

/// Decoding an embedded encoded sub-type record.
pub proof fn lemma_subtype_embed(t: TypeEntryModel, b: Seq<u8>, off: int)
    requires
        (t matches TypeEntryModel::Func(ft) ==> ft.params.len() < U32_BOUND && ft.results.len()
            < U32_BOUND),
        0 <= off,
        off + spec_encode_subtype(t).len() <= b.len(),
        b.subrange(off, off + spec_encode_subtype(t).len()) == spec_encode_subtype(t),
    ensures
        spec_subtype(b, off) == Ok::<(TypeEntryModel, int), DecodeError>(
            (t, off + spec_encode_subtype(t).len()),
        ),
{
    let enc = spec_encode_subtype(t);
    assert(b.subrange(off, off + enc.len())[0] == b[off]);
    match t {
        TypeEntryModel::Func(ft) => {
            let e1 = spec_encode_valtypes(ft.params);
            let e2 = spec_encode_valtypes(ft.results);
            assert(enc == seq![0x60u8] + e1 + e2);
            assert(b[off] == 0x60);
            lemma_sub_embed(b, off, enc, 1, 1 + e1.len() as int);
            assert(enc.subrange(1, 1 + e1.len() as int) =~= e1);
            lemma_valtypes_embed(ft.params, b, off + 1);
            lemma_sub_embed(b, off, enc, 1 + e1.len() as int, enc.len() as int);
            assert(enc.subrange(1 + e1.len() as int, enc.len() as int) =~= e2);
            lemma_valtypes_embed(ft.results, b, off + 1 + e1.len());
            assert(t =~~= TypeEntryModel::Func(
                crate::model::FuncTypeModel { params: ft.params, results: ft.results },
            ));
        },
        TypeEntryModel::Other => {
            assert(enc == seq![0x5Fu8]);
            assert(b[off] == 0x5F);
        },
    }
}

/// Whether every function type entry of a table has encodable arities.
pub open spec fn entries_bounded(ts: Seq<TypeEntryModel>) -> bool {
    forall|i: int|
        0 <= i < ts.len() ==> match #[trigger] ts[i] {
            TypeEntryModel::Func(ft) => ft.params.len() < U32_BOUND && ft.results.len()
                < U32_BOUND,
            TypeEntryModel::Other => true,
        }
}

/// Decoding an embedded encoded type section body gives the table back.
pub proof fn lemma_type_groups_embed(ts: Seq<TypeEntryModel>, b: Seq<u8>, off: int)
    requires
        entries_bounded(ts),
        0 <= off,
        b.len() == off + spec_encode_type_body(ts).len(),
        b.subrange(off, b.len() as int) == spec_encode_type_body(ts),
    ensures
        spec_type_groups(b, off) == Ok::<Seq<TypeEntryModel>, DecodeError>(ts),
    decreases ts.len(),
{
    let enc = spec_encode_type_body(ts);
    if ts.len() == 0 {
        assert(Seq::<TypeEntryModel>::empty() =~= ts);
    } else {
        let st = spec_encode_subtype(ts[0]);
        assert(enc == seq![0x01u8] + st + spec_encode_type_body(ts.drop_first()));
        assert(spec_encode_uleb32(1) == seq![1u8]);
        lemma_sub_embed(b, off, enc, 0, 1);
        assert(enc.subrange(0, 1) =~= seq![1u8]);
        lemma_uleb32_embed(1, b, off);
        lemma_sub_embed(b, off, enc, 1, 1 + st.len() as int);
        assert(enc.subrange(1, 1 + st.len() as int) =~= st);
        assert(ts[0] == ts[0]);
        lemma_subtype_embed(ts[0], b, off + 1);
        let o2 = off + 1 + st.len() as int;
        assert(spec_subtypes(b, o2, 0) == Ok::<(Seq<TypeEntryModel>, int), DecodeError>(
            (Seq::empty(), o2),
        ));
        assert(spec_subtypes(b, off + 1, 1) == Ok::<(Seq<TypeEntryModel>, int), DecodeError>(
            (seq![ts[0]] + Seq::empty(), o2),
        ));
        lemma_sub_embed(b, off, enc, 1 + st.len() as int, enc.len() as int);
        assert(enc.subrange(1 + st.len() as int, enc.len() as int) =~= spec_encode_type_body(
            ts.drop_first(),
        ));
        lemma_type_groups_embed(ts.drop_first(), b, o2);
        assert((seq![ts[0]] + Seq::<TypeEntryModel>::empty()) + ts.drop_first() =~= ts);
    }
}

/// Decoding an embedded run of encoded type indices gives them back.
pub proof fn lemma_u32s_embed(xs: Seq<u32>, b: Seq<u8>, off: int)
    requires
        0 <= off,
        off + spec_encode_u32s(xs).len() <= b.len(),
        b.subrange(off, off + spec_encode_u32s(xs).len()) == spec_encode_u32s(xs),
    ensures
        spec_u32s(b, off, xs.len()) == Ok::<(Seq<u32>, int), DecodeError>(
            (xs, off + spec_encode_u32s(xs).len()),
        ),
    decreases xs.len(),
{
    let enc = spec_encode_u32s(xs);
    if xs.len() == 0 {
        assert(Seq::<u32>::empty() =~= xs);
    } else {
        let e0 = spec_encode_uleb32(xs[0] as nat);
        assert(enc == e0 + spec_encode_u32s(xs.drop_first()));
        lemma_sub_embed(b, off, enc, 0, e0.len() as int);
        assert(enc.subrange(0, e0.len() as int) =~= e0);
        lemma_uleb32_embed(xs[0] as nat, b, off);
        lemma_sub_embed(b, off, enc, e0.len() as int, enc.len() as int);
        assert(enc.subrange(e0.len() as int, enc.len() as int) =~= spec_encode_u32s(
            xs.drop_first(),
        ));
        lemma_u32s_embed(xs.drop_first(), b, off + e0.len());
        assert(seq![xs[0]] + xs.drop_first() =~= xs);
    }
}

/// A whole encoded function section body decodes to its indices.
pub proof fn lemma_function_section_embed(xs: Seq<u32>, b: Seq<u8>)
    requires
        xs.len() < U32_BOUND,
        b == spec_encode_function_body(xs),
    ensures
        spec_function_section(b) == Ok::<Seq<u32>, DecodeError>(xs),
{
    let cnt = spec_encode_uleb32(xs.len());
    assert(b.subrange(0, b.len() as int) =~= b);
    lemma_sub_embed(b, 0, b, 0, cnt.len() as int);
    assert(b.subrange(0, cnt.len() as int) =~= cnt);
    lemma_uleb32_embed(xs.len(), b, 0);
    lemma_sub_embed(b, 0, b, cnt.len() as int, b.len() as int);
    assert(b.subrange(cnt.len() as int, b.len() as int) =~= spec_encode_u32s(xs));
    lemma_u32s_embed(xs, b, cnt.len() as int);
}

/// An export kind byte decodes back to the kind it encodes.
pub proof fn lemma_export_kind_round(k: crate::model::ExportKind)
    ensures
        spec_export_kind(spec_export_kind_byte(k)) == Ok::<crate::model::ExportKind, DecodeError>(
            k,
        ),
{
}

/// Decoding an embedded encoded export entry gives the entry back.
pub proof fn lemma_export_embed(e: ExportModel, b: Seq<u8>, off: int)
    requires
        encode_utf8(e.name).len() < U32_BOUND,
        0 <= off,
        off + spec_encode_export(e).len() <= b.len(),
        b.subrange(off, off + spec_encode_export(e).len()) == spec_encode_export(e),
    ensures
        spec_export(b, off) == Ok::<(ExportModel, int), DecodeError>(
            (e, off + spec_encode_export(e).len()),
        ),
{
    let enc = spec_encode_export(e);
    let en = spec_encode_name(e.name);
    let ei = spec_encode_uleb32(e.index as nat);
    assert(enc == en + seq![spec_export_kind_byte(e.kind)] + ei);
    lemma_sub_embed(b, off, enc, 0, en.len() as int);
    assert(enc.subrange(0, en.len() as int) =~= en);
    lemma_name_embed(e.name, b, off);
    let o1 = off + en.len() as int;
    assert(b.subrange(off, off + enc.len())[en.len() as int] == b[o1]);
    assert(b[o1] == spec_export_kind_byte(e.kind));
    lemma_export_kind_round(e.kind);
    lemma_sub_embed(b, off, enc, en.len() as int + 1, enc.len() as int);
    assert(enc.subrange(en.len() as int + 1, enc.len() as int) =~= ei);
    lemma_uleb32_embed(e.index as nat, b, o1 + 1);
    assert(e =~~= (ExportModel { name: e.name, kind: e.kind, index: e.index }));
}

/// Whether every export name of a sequence has an encodable length.
pub open spec fn exports_bounded(es: Seq<ExportModel>) -> bool {
    forall|i: int| 0 <= i < es.len() ==> encode_utf8(#[trigger] es[i].name).len() < U32_BOUND
}

/// Decoding an embedded run of encoded export entries gives them back.
pub proof fn lemma_exports_embed(es: Seq<ExportModel>, b: Seq<u8>, off: int)
    requires
        exports_bounded(es),
        0 <= off,
        off + spec_encode_exports(es).len() <= b.len(),
        b.subrange(off, off + spec_encode_exports(es).len()) == spec_encode_exports(es),
    ensures
        spec_exports(b, off, es.len()) == Ok::<(Seq<ExportModel>, int), DecodeError>(
            (es, off + spec_encode_exports(es).len()),
        ),
    decreases es.len(),
{
    let enc = spec_encode_exports(es);
    if es.len() == 0 {
        assert(Seq::<ExportModel>::empty() =~= es);
    } else {
        let e0 = spec_encode_export(es[0]);
        assert(enc == e0 + spec_encode_exports(es.drop_first()));
        lemma_sub_embed(b, off, enc, 0, e0.len() as int);
        assert(enc.subrange(0, e0.len() as int) =~= e0);
        lemma_export_embed(es[0], b, off);
        lemma_sub_embed(b, off, enc, e0.len() as int, enc.len() as int);
        assert(enc.subrange(e0.len() as int, enc.len() as int) =~= spec_encode_exports(
            es.drop_first(),
        ));
        lemma_exports_embed(es.drop_first(), b, off + e0.len());
        assert(seq![es[0]] + es.drop_first() =~= es);
    }
}

/// A whole encoded export section body decodes to its entries.
pub proof fn lemma_export_section_embed(es: Seq<ExportModel>, b: Seq<u8>)
    requires
        es.len() < U32_BOUND,
        exports_bounded(es),
        b == spec_encode_export_body(es),
    ensures
        spec_export_section(b) == Ok::<Seq<ExportModel>, DecodeError>(es),
{
    let cnt = spec_encode_uleb32(es.len());
    assert(b.subrange(0, b.len() as int) =~= b);
    lemma_sub_embed(b, 0, b, 0, cnt.len() as int);
    assert(b.subrange(0, cnt.len() as int) =~= cnt);
    lemma_uleb32_embed(es.len(), b, 0);
    lemma_sub_embed(b, 0, b, cnt.len() as int, b.len() as int);
    assert(b.subrange(cnt.len() as int, b.len() as int) =~= spec_encode_exports(es));
    lemma_exports_embed(es, b, cnt.len() as int);
}

/// Decoding an embedded encoded memory limit record gives it back.
pub proof fn lemma_limit_embed(m: MemoryLimit, b: Seq<u8>, off: int)
    requires
        0 <= off,
        off + spec_encode_limit(m).len() <= b.len(),
        b.subrange(off, off + spec_encode_limit(m).len()) == spec_encode_limit(m),
    ensures
        spec_limit(b, off) == Ok::<(MemoryLimit, int), DecodeError>(
            (m, off + spec_encode_limit(m).len()),
        ),
{
    let enc = spec_encode_limit(m);
    assert(b.subrange(off, off + enc.len())[0] == b[off]);
    let ei = spec_encode_uleb32(m.initial as nat);
    match m.maximum {
        Some(max) => {
            let em = spec_encode_uleb32(max as nat);
            assert(enc == seq![0x01u8] + ei + em);
            assert(b[off] == 0x01);
            lemma_sub_embed(b, off, enc, 1, 1 + ei.len() as int);
            assert(enc.subrange(1, 1 + ei.len() as int) =~= ei);
            lemma_uleb32_embed(m.initial as nat, b, off + 1);
            lemma_sub_embed(b, off, enc, 1 + ei.len() as int, enc.len() as int);
            assert(enc.subrange(1 + ei.len() as int, enc.len() as int) =~= em);
            lemma_uleb32_embed(max as nat, b, off + 1 + ei.len());
            assert(m =~~= (MemoryLimit { initial: m.initial, maximum: Some(max) }));
        },
        None => {
            assert(enc == seq![0x00u8] + ei);
            assert(b[off] == 0x00);
            let fb: u8 = b[off];
            assert(fb & 1 == 0) by (bit_vector)
                requires
                    fb == 0x00,
            ;
            lemma_sub_embed(b, off, enc, 1, enc.len() as int);
            assert(enc.subrange(1, enc.len() as int) =~= ei);
            lemma_uleb32_embed(m.initial as nat, b, off + 1);
            assert(m =~~= (MemoryLimit { initial: m.initial, maximum: None }));
        },
    }
    assert(1u8 & 1 == 1) by (bit_vector);
}

/// Decoding an embedded run of encoded memory limit records gives them back.
pub proof fn lemma_limits_embed(ms: Seq<MemoryLimit>, b: Seq<u8>, off: int)
    requires
        0 <= off,
        off + spec_encode_limits(ms).len() <= b.len(),
        b.subrange(off, off + spec_encode_limits(ms).len()) == spec_encode_limits(ms),
    ensures
        spec_limits(b, off, ms.len()) == Ok::<(Seq<MemoryLimit>, int), DecodeError>(
            (ms, off + spec_encode_limits(ms).len()),
        ),
    decreases ms.len(),
{
    let enc = spec_encode_limits(ms);
    if ms.len() == 0 {
        assert(Seq::<MemoryLimit>::empty() =~= ms);
    } else {
        let e0 = spec_encode_limit(ms[0]);
        assert(enc == e0 + spec_encode_limits(ms.drop_first()));
        lemma_sub_embed(b, off, enc, 0, e0.len() as int);
        assert(enc.subrange(0, e0.len() as int) =~= e0);
        lemma_limit_embed(ms[0], b, off);
        lemma_sub_embed(b, off, enc, e0.len() as int, enc.len() as int);
        assert(enc.subrange(e0.len() as int, enc.len() as int) =~= spec_encode_limits(
            ms.drop_first(),
        ));
        lemma_limits_embed(ms.drop_first(), b, off + e0.len());
        assert(seq![ms[0]] + ms.drop_first() =~= ms);
    }
}

/// A whole encoded memory section body decodes to its records.
pub proof fn lemma_memory_section_embed(ms: Seq<MemoryLimit>, b: Seq<u8>)
    requires
        ms.len() < U32_BOUND,
        b == spec_encode_memory_body(ms),
    ensures
        spec_memory_section(b) == Ok::<Seq<MemoryLimit>, DecodeError>(ms),
{
    let cnt = spec_encode_uleb32(ms.len());
    assert(b.subrange(0, b.len() as int) =~= b);
    lemma_sub_embed(b, 0, b, 0, cnt.len() as int);
    assert(b.subrange(0, cnt.len() as int) =~= cnt);
    lemma_uleb32_embed(ms.len(), b, 0);
    lemma_sub_embed(b, 0, b, cnt.len() as int, b.len() as int);
    assert(b.subrange(cnt.len() as int, b.len() as int) =~= spec_encode_limits(ms));
    lemma_limits_embed(ms, b, cnt.len() as int);
}

/// A whole encoded custom section body decodes to its name and payload.
pub proof fn lemma_custom_section_embed(c: CustomModel, b: Seq<u8>)
    requires
        encode_utf8(c.name).len() < U32_BOUND,
        b == spec_encode_custom_body(c),
    ensures
        spec_custom_section(b) == Ok::<CustomModel, DecodeError>(c),
{
    let en = spec_encode_name(c.name);
    assert(b.subrange(0, b.len() as int) =~= b);
    lemma_sub_embed(b, 0, b, 0, en.len() as int);
    assert(b.subrange(0, en.len() as int) =~= en);
    lemma_name_embed(c.name, b, 0);
    lemma_sub_embed(b, 0, b, en.len() as int, b.len() as int);
    assert(b.subrange(en.len() as int, b.len() as int) =~= c.payload);
    assert(c =~~= (CustomModel { name: c.name, payload: c.payload }));
}

/// One embedded framed section record steps the section walk by applying its
/// payload decoder to the accumulated parts.
pub proof fn lemma_section_step(b: Seq<u8>, off: int, id: u8, body: Seq<u8>, acc: ModuleModel)
    requires
        body.len() < U32_BOUND,
        0 <= off,
        off + spec_section(id, body).len() <= b.len(),
        b.subrange(off, off + spec_section(id, body).len()) == spec_section(id, body),
    ensures
        spec_sections(b, off, acc) == (match spec_apply_section(id, body, acc) {
            Ok(acc2) => spec_sections(b, off + spec_section(id, body).len(), acc2),
            Err(e) => Err::<ModuleModel, DecodeError>(e),
        }),
{
    let enc = spec_section(id, body);
    let cnt = spec_encode_uleb32(body.len());
    assert(enc == seq![id] + cnt + body);
    assert(b.subrange(off, off + enc.len())[0] == b[off]);
    assert(b[off] == id);
    lemma_sub_embed(b, off, enc, 1, 1 + cnt.len() as int);
    assert(enc.subrange(1, 1 + cnt.len() as int) =~= cnt);
    lemma_uleb32_embed(body.len(), b, off + 1);
    let o1 = off + 1 + cnt.len() as int;
    lemma_sub_embed(b, off, enc, 1 + cnt.len() as int, enc.len() as int);
    assert(enc.subrange(1 + cnt.len() as int, enc.len() as int) =~= body);
    assert(b.subrange(o1, o1 + body.len()) == body);
}

/// Whether every custom section of a sequence has encodable lengths.
pub open spec fn customs_bounded(cs: Seq<CustomModel>) -> bool {
    forall|i: int|
        0 <= i < cs.len() ==> encode_utf8(#[trigger] cs[i].name).len() < U32_BOUND
            && spec_encode_custom_body(cs[i]).len() < U32_BOUND
}

/// Walking embedded encoded custom sections to the end of the buffer appends
/// exactly those custom sections.
pub proof fn lemma_customs_sections(cs: Seq<CustomModel>, b: Seq<u8>, off: int, acc: ModuleModel)
    requires
        customs_bounded(cs),
        0 <= off,
        b.len() == off + spec_encode_customs(cs).len(),
        b.subrange(off, b.len() as int) == spec_encode_customs(cs),
    ensures
        spec_sections(b, off, acc) == Ok::<ModuleModel, DecodeError>(
            ModuleModel { customs: acc.customs + cs, ..acc },
        ),
    decreases cs.len(),
{
    let enc = spec_encode_customs(cs);
    if cs.len() == 0 {
        assert(acc.customs + cs =~= acc.customs);
        assert((ModuleModel { customs: acc.customs + cs, ..acc }) =~~= acc);
    } else {
        let body = spec_encode_custom_body(cs[0]);
        let s0 = spec_section(CUSTOM_ID, body);
        assert(enc == s0 + spec_encode_customs(cs.drop_first()));
        lemma_sub_embed(b, off, enc, 0, s0.len() as int);
        assert(enc.subrange(0, s0.len() as int) =~= s0);
        lemma_section_step(b, off, CUSTOM_ID, body, acc);
        lemma_custom_section_embed(cs[0], body);
        let acc2 = ModuleModel { customs: acc.customs.push(cs[0]), ..acc };
        assert(spec_apply_section(CUSTOM_ID, body, acc) == Ok::<ModuleModel, DecodeError>(acc2));
        lemma_sub_embed(b, off, enc, s0.len() as int, enc.len() as int);
        assert(enc.subrange(s0.len() as int, enc.len() as int) =~= spec_encode_customs(
            cs.drop_first(),
        ));
        lemma_customs_sections(cs.drop_first(), b, off + s0.len(), acc2);
        assert(acc2.customs + cs.drop_first() =~= acc.customs + cs);
        assert((ModuleModel { customs: acc2.customs + cs.drop_first(), ..acc2 }) =~~= (ModuleModel {
            customs: acc.customs + cs,
            ..acc
        }));
    }
}

/// When every declaration from `i` on references an existing type, the scan
/// finds nothing.
pub proof fn lemma_no_dangling(fns: Seq<u32>, n_types: nat, i: nat)
    requires
        i <= fns.len(),
        forall|j: int| i <= j < fns.len() ==> (#[trigger] fns[j] as nat) < n_types,
    ensures
        spec_first_dangling(fns, n_types, i) is None,
    decreases fns.len() - i,
{
    if i < fns.len() {
        lemma_no_dangling(fns, n_types, i + 1);
    }
}

/// Round trip: a module built by encoding any encodable summary decodes back
/// to an equal summary.
#[verifier::rlimit(100)]
pub proof fn lemma_encode_decode_round_trip(m: ModuleModel)
    requires
        encodable(m),
    ensures
        spec_decode_module(spec_encode_module(m)) == Ok::<ModuleModel, DecodeError>(m),
{
    let b = spec_encode_module(m);
    let h = spec_header_bytes();
    let s1 = if m.types.len() > 0 {
        spec_section(TYPE_ID, spec_encode_type_body(m.types))
    } else {
        Seq::<u8>::empty()
    };
    let s2 = if m.functions.len() > 0 {
        spec_section(FUNCTION_ID, spec_encode_function_body(m.functions))
    } else {
        Seq::<u8>::empty()
    };
    let s3 = if m.memories.len() > 0 {
        spec_section(MEMORY_ID, spec_encode_memory_body(m.memories))
    } else {
        Seq::<u8>::empty()
    };
    let s4 = if m.exports.len() > 0 {
        spec_section(EXPORT_ID, spec_encode_export_body(m.exports))
    } else {
        Seq::<u8>::empty()
    };
    let sc = spec_encode_customs(m.customs);
    assert(b == h + s1 + s2 + s3 + s4 + sc);
    // the header is read back
    assert(b.subrange(0, 8) =~= h);
    assert(b[0] == 0x00 && b[1] == 0x61 && b[2] == 0x73 && b[3] == 0x6D);
    assert(b[4] == 0x01 && b[5] == 0x00 && b[6] == 0x00 && b[7] == 0x00);
    assert(spec_header(b) == Ok::<int, DecodeError>(8));
    // the four leading sections
    let off1: int = 8;
    let off2 = off1 + s1.len();
    let off3 = off2 + s2.len();
    let off4 = off3 + s3.len();
    let off5 = off4 + s4.len();
    let acc0 = empty_module();
    let acc1 = ModuleModel { types: acc0.types + m.types, ..acc0 };
    let acc2 = ModuleModel { functions: acc1.functions + m.functions, ..acc1 };
    let acc3 = ModuleModel { memories: acc2.memories + m.memories, ..acc2 };
    let acc4 = ModuleModel { exports: acc3.exports + m.exports, ..acc3 };
    if m.types.len() > 0 {
        let body = spec_encode_type_body(m.types);
        assert(b.subrange(off1, off2) =~= s1);
        lemma_section_step(b, off1, TYPE_ID, body, acc0);
        assert(body.subrange(0, body.len() as int) =~= body);
        lemma_type_groups_embed(m.types, body, 0);
        assert(spec_apply_section(TYPE_ID, body, acc0) == Ok::<ModuleModel, DecodeError>(acc1));
        assert(spec_sections(b, off1, acc0) == spec_sections(b, off2, acc1));
    } else {
        assert(acc1 =~~= acc0);
    }
    if m.functions.len() > 0 {
        let body = spec_encode_function_body(m.functions);
        assert(b.subrange(off2, off3) =~= s2);
        lemma_section_step(b, off2, FUNCTION_ID, body, acc1);
        lemma_function_section_embed(m.functions, body);
        assert(spec_apply_section(FUNCTION_ID, body, acc1) == Ok::<ModuleModel, DecodeError>(
            acc2,
        ));
        assert(spec_sections(b, off2, acc1) == spec_sections(b, off3, acc2));
    } else {
        assert(acc2 =~~= acc1);
    }
    if m.memories.len() > 0 {
        let body = spec_encode_memory_body(m.memories);
        assert(b.subrange(off3, off4) =~= s3);
        lemma_section_step(b, off3, MEMORY_ID, body, acc2);
        lemma_memory_section_embed(m.memories, body);
        assert(spec_apply_section(MEMORY_ID, body, acc2) == Ok::<ModuleModel, DecodeError>(acc3));
        assert(spec_sections(b, off3, acc2) == spec_sections(b, off4, acc3));
    } else {
        assert(acc3 =~~= acc2);
    }
    if m.exports.len() > 0 {
        let body = spec_encode_export_body(m.exports);
        assert(b.subrange(off4, off5) =~= s4);
        lemma_section_step(b, off4, EXPORT_ID, body, acc3);
        lemma_export_section_embed(m.exports, body);
        assert(spec_apply_section(EXPORT_ID, body, acc3) == Ok::<ModuleModel, DecodeError>(acc4));
        assert(spec_sections(b, off4, acc3) == spec_sections(b, off5, acc4));
    } else {
        assert(acc4 =~~= acc3);
    }
    // the custom sections close the buffer
    assert(b.subrange(off5, b.len() as int) =~= sc);
    lemma_customs_sections(m.customs, b, off5, acc4);
    let accf = ModuleModel { customs: acc4.customs + m.customs, ..acc4 };
    assert(spec_sections(b, off1, acc0) == Ok::<ModuleModel, DecodeError>(accf));
    assert(accf.types =~= m.types);
    assert(accf.functions =~= m.functions);
    assert(accf.memories =~= m.memories);
    assert(accf.exports =~= m.exports);
    assert(accf.customs =~= m.customs);
    assert(accf =~~= m);
    // the cross-reference pass finds nothing
    lemma_no_dangling(m.functions, m.types.len(), 0);
    assert(spec_validate(m) == Ok::<ModuleModel, DecodeError>(m));
}

/// A section record that declares more bytes than remain fails the whole
/// walk with `TruncatedSection`, wherever it stands.
pub proof fn lemma_truncated_section(b: Seq<u8>, off: int, acc: ModuleModel)
    requires
        0 <= off < b.len(),
        spec_uleb32(b, off + 1) matches Ok((len, o1)) && o1 + len > b.len(),
    ensures
        spec_sections(b, off, acc) == Err::<ModuleModel, DecodeError>(
            DecodeError::TruncatedSection,
        ),
{
}

/// A module whose first section record declares more bytes than remain fails
/// with `TruncatedSection`.
pub proof fn lemma_truncated_module(b: Seq<u8>)
    requires
        spec_header(b) == Ok::<int, DecodeError>(8),
        8 < b.len(),
        spec_uleb32(b, 9) matches Ok((len, o1)) && o1 + len > b.len(),
    ensures
        spec_decode_module(b) == Err::<ModuleModel, DecodeError>(DecodeError::TruncatedSection),
{
    lemma_truncated_section(b, 8, empty_module());
}

/// A varint whose continuation bit never clears within the five-byte width
/// fails with `MalformedVarint`.
pub proof fn lemma_malformed_varint(b: Seq<u8>, off: int)
    requires
        0 <= off,
        forall|k: int| 0 <= k < 5 ==> off + k < b.len() && #[trigger] b[off + k] >= 0x80,
    ensures
        spec_uleb32(b, off) == Err::<(u32, int), DecodeError>(DecodeError::MalformedVarint),
{
    assert(b[off + 0] >= 0x80);
    assert(b[off + 1] >= 0x80);
    assert(b[off + 2] >= 0x80);
    assert(b[off + 3] >= 0x80);
    assert(b[off + 4] >= 0x80);
    assert(spec_uleb_rec(b, off + 5, 0) == Err::<(nat, int), DecodeError>(
        DecodeError::MalformedVarint,
    ));
    assert(spec_uleb_rec(b, off + 4, 1) == Err::<(nat, int), DecodeError>(
        DecodeError::MalformedVarint,
    ));
    assert(spec_uleb_rec(b, off + 3, 2) == Err::<(nat, int), DecodeError>(
        DecodeError::MalformedVarint,
    ));
    assert(spec_uleb_rec(b, off + 2, 3) == Err::<(nat, int), DecodeError>(
        DecodeError::MalformedVarint,
    ));
    assert(spec_uleb_rec(b, off + 1, 4) == Err::<(nat, int), DecodeError>(
        DecodeError::MalformedVarint,
    ));
    assert(spec_uleb_rec(b, off, 5) == Err::<(nat, int), DecodeError>(
        DecodeError::MalformedVarint,
    ));
}

/// The cross-reference pass in both directions: it accepts exactly the
/// summaries whose declarations all reference existing types, and otherwise
/// reports the first dangling declaration with its type index.
pub proof fn lemma_validate_complete(m: ModuleModel)
    requires
        m.functions.len() <= usize::MAX,
    ensures
        (forall|j: int| 0 <= j < m.functions.len() ==> (#[trigger] m.functions[j] as nat)
            < m.types.len()) ==> spec_validate(m) == Ok::<ModuleModel, DecodeError>(m),
        (exists|j: int|
            0 <= j < m.functions.len() && (#[trigger] m.functions[j] as nat) >= m.types.len())
            ==> (spec_validate(m) matches Err(DecodeError::DanglingTypeIndex {
            function_index,
            type_index,
        }) && function_index < m.functions.len() && m.functions[function_index as int]
            == type_index && type_index as nat >= m.types.len() && (forall|j: int|
            0 <= j < function_index ==> (#[trigger] m.functions[j] as nat) < m.types.len())),
{
    if forall|j: int|
        0 <= j < m.functions.len() ==> (#[trigger] m.functions[j] as nat) < m.types.len() {
        lemma_no_dangling(m.functions, m.types.len(), 0);
    } else {
        lemma_first_dangling(m.functions, m.types.len(), 0);
    }
}

/// The scan from `i` finds the first dangling declaration at or past `i`,
/// when one exists.
pub proof fn lemma_first_dangling(fns: Seq<u32>, n_types: nat, i: nat)
    requires
        i <= fns.len(),
        exists|j: int| i <= j < fns.len() && (#[trigger] fns[j] as nat) >= n_types,
    ensures
        spec_first_dangling(fns, n_types, i) matches Some(fi) && i <= fi < fns.len()
            && (fns[fi as int] as nat >= n_types) && (forall|j: int|
            i <= j < fi ==> (#[trigger] fns[j] as nat) < n_types),
    decreases fns.len() - i,
{
    if fns[i as int] as nat >= n_types {
    } else {
        lemma_first_dangling(fns, n_types, i + 1);
    }
}

} // verus!
