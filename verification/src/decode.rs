use vstd::prelude::*;
use vstd::slice::slice_subrange;

use crate::cursor::{lemma_uleb32_advance, spec_uleb32, Cursor};
use crate::error::DecodeError;
use crate::model::{
    customs_view, empty_module, entries_view, exports_view, new_summary, ModuleModel,
    ModuleSummary,
};
use crate::sections::{
    decode_custom_section, decode_export_section, decode_function_section, decode_import_section,
    decode_memory_section, decode_type_section, spec_custom_section, spec_export_section,
    spec_function_section, spec_import_section, spec_memory_section, spec_type_section,
};

verus! {

/// Section ids of the sections this decoder retains or validates.
pub const CUSTOM_ID: u8 = 0;

pub const TYPE_ID: u8 = 1;

pub const IMPORT_ID: u8 = 2;

pub const FUNCTION_ID: u8 = 3;

pub const MEMORY_ID: u8 = 5;

pub const EXPORT_ID: u8 = 7;

/// The module header: the four magic bytes, then the four version bytes.
/// The result is the offset of the first section record.
pub open spec fn spec_header(b: Seq<u8>) -> Result<int, DecodeError> {
    if b.len() < 4 {
        Err(DecodeError::UnexpectedEof)
    } else if !(b[0] == 0x00 && b[1] == 0x61 && b[2] == 0x73 && b[3] == 0x6D) {
        Err(DecodeError::BadMagic)
    } else if b.len() < 8 {
        Err(DecodeError::UnexpectedEof)
    } else if !(b[4] == 0x01 && b[5] == 0x00 && b[6] == 0x00 && b[7] == 0x00) {
        Err(DecodeError::UnsupportedVersion)
    } else {
        Ok(8)
    }
}

/// Dispatch of one framed section body onto the accumulated module parts.
/// Retained kinds append in file order; imports are validated and skipped;
/// unrecognized ids are passed over to preserve forward compatibility.
pub open spec fn spec_apply_section(id: u8, body: Seq<u8>, acc: ModuleModel) -> Result<
    ModuleModel,
    DecodeError,
> {
    if id == TYPE_ID {
        match spec_type_section(body) {
            Ok(ts) => Ok(ModuleModel { types: acc.types + ts, ..acc }),
            Err(e) => Err(e),
        }
    } else if id == IMPORT_ID {
        match spec_import_section(body) {
            Ok(_u) => Ok(acc),
            Err(e) => Err(e),
        }
    } else if id == FUNCTION_ID {
        match spec_function_section(body) {
            Ok(xs) => Ok(ModuleModel { functions: acc.functions + xs, ..acc }),
            Err(e) => Err(e),
        }
    } else if id == MEMORY_ID {
        match spec_memory_section(body) {
            Ok(ms) => Ok(ModuleModel { memories: acc.memories + ms, ..acc }),
            Err(e) => Err(e),
        }
    } else if id == EXPORT_ID {
        match spec_export_section(body) {
            Ok(es) => Ok(ModuleModel { exports: acc.exports + es, ..acc }),
            Err(e) => Err(e),
        }
    } else if id == CUSTOM_ID {
        match spec_custom_section(body) {
            Ok(cm) => Ok(ModuleModel { customs: acc.customs.push(cm), ..acc }),
            Err(e) => Err(e),
        }
    } else {
        Ok(acc)
    }
}

/// Section records from `off` to the end of the buffer: each record is an id
/// byte, a declared byte length, and exactly that many body bytes.
/// `TruncatedSection` if the declared length exceeds what remains.
pub open spec fn spec_sections(b: Seq<u8>, off: int, acc: ModuleModel) -> Result<
    ModuleModel,
    DecodeError,
>
    decreases b.len() - off,
    when 0 <= off <= b.len()
{
    if off >= b.len() {
        Ok(acc)
    } else {
        let id = b[off];
        match spec_uleb32(b, off + 1) {
            Ok((len, o1)) => if o1 + len > b.len() {
                Err(DecodeError::TruncatedSection)
            } else {
                match spec_apply_section(id, b.subrange(o1, o1 + len), acc) {
                    Ok(acc2) => {
                        proof {
                            lemma_uleb32_advance(b, off + 1);
                        }
                        spec_sections(b, o1 + len, acc2)
                    },
                    Err(e) => Err(e),
                }
            },
            Err(e) => Err(e),
        }
    }
}

/// The first function declaration at or after `i` whose type index is not
/// below `n_types`, if any.
pub open spec fn spec_first_dangling(fns: Seq<u32>, n_types: nat, i: nat) -> Option<nat>
    decreases fns.len() - i,
    when i <= fns.len()
{
    if i >= fns.len() {
        None
    } else if fns[i as int] as nat >= n_types {
        Some(i)
    } else {
        spec_first_dangling(fns, n_types, i + 1)
    }
}

/// The cross-reference pass: every function declaration must name a type
/// index below the type table's length; the first that does not fails the
/// whole decode with `DanglingTypeIndex`.
pub open spec fn spec_validate(m: ModuleModel) -> Result<ModuleModel, DecodeError> {
    match spec_first_dangling(m.functions, m.types.len(), 0) {
        Some(i) => Err(
            DecodeError::DanglingTypeIndex {
                function_index: i as usize,
                type_index: m.functions[i as int],
            },
        ),
        None => Ok(m),
    }
}

/// What decoding a whole module means: header, then section records to the
/// end of the buffer, then the cross-reference pass.
pub open spec fn spec_decode_module(b: Seq<u8>) -> Result<ModuleModel, DecodeError> {
    match spec_header(b) {
        Ok(off) => match spec_sections(b, off, empty_module()) {
            Ok(m) => spec_validate(m),
            Err(e) => Err(e),
        },
        Err(e) => Err(e),
    }
}

/// Decode one framed section body into the summary under construction.
#[verifier::loop_isolation(false)]
fn apply_section(id: u8, body: &[u8], acc: &mut ModuleSummary) -> (r: Result<(), DecodeError>)
    ensures
        match spec_apply_section(id, body@, old(acc)@) {
            Ok(m2) => r is Ok && final (acc)@ == m2,
            Err(e) => r == Err::<(), DecodeError>(e),
        },
{
    let ghost m0 = acc@;
    if id == TYPE_ID {
        match decode_type_section(body) {
            Ok(mut ts) => {
                let ghost got = ts@;
                acc.types.append(&mut ts);
                proof {
                    assert(entries_view(acc.types@) =~= entries_view(old(acc).types@)
                        + entries_view(got));
                    assert(acc@ =~~= (ModuleModel { types: m0.types + entries_view(got), ..m0 }));
                }
                Ok(())
            },
            Err(e) => Err(e),
        }
    } else if id == IMPORT_ID {
        match decode_import_section(body) {
            Ok(_u) => Ok(()),
            Err(e) => Err(e),
        }
    } else if id == FUNCTION_ID {
        match decode_function_section(body) {
            Ok(mut xs) => {
                let ghost got = xs@;
                acc.functions.append(&mut xs);
                proof {
                    assert(acc@ =~~= (ModuleModel { functions: m0.functions + got, ..m0 }));
                }
                Ok(())
            },
            Err(e) => Err(e),
        }
    } else if id == MEMORY_ID {
        match decode_memory_section(body) {
            Ok(mut ms) => {
                let ghost got = ms@;
                acc.memories.append(&mut ms);
                proof {
                    assert(acc@ =~~= (ModuleModel { memories: m0.memories + got, ..m0 }));
                }
                Ok(())
            },
            Err(e) => Err(e),
        }
    } else if id == EXPORT_ID {
        match decode_export_section(body) {
            Ok(mut es) => {
                let ghost got = es@;
                acc.exports.append(&mut es);
                proof {
                    assert(exports_view(acc.exports@) =~= exports_view(old(acc).exports@)
                        + exports_view(got));
                    assert(acc@ =~~= (ModuleModel { exports: m0.exports + exports_view(got), ..m0 }));
                }
                Ok(())
            },
            Err(e) => Err(e),
        }
    } else if id == CUSTOM_ID {
        match decode_custom_section(body) {
            Ok(cs) => {
                let ghost cm = cs@;
                acc.customs.push(cs);
                proof {
                    assert(customs_view(acc.customs@) =~= customs_view(old(acc).customs@).push(cm));
                    assert(acc@ =~~= (ModuleModel { customs: m0.customs.push(cm), ..m0 }));
                }
                Ok(())
            },
            Err(e) => Err(e),
        }
    } else {
        Ok(())
    }
}

/// Decode a whole WASM module.  The result is exactly what
/// [`spec_decode_module`] says of the input bytes: the summary on success,
/// and the same error the specification names on failure.  The input buffer
/// is only borrowed; the summary owns all of its contents.
#[verifier::loop_isolation(false)]
pub fn decode_module(bytes: &[u8]) -> (r: Result<ModuleSummary, DecodeError>)
    ensures
        match spec_decode_module(bytes@) {
            Ok(m) => r matches Ok(s) && s@ == m,
            Err(e) => r == Err::<ModuleSummary, DecodeError>(e),
        },
{
    if bytes.len() < 4 {
        return Err(DecodeError::UnexpectedEof);
    }
    let m0 = *vstd::slice::slice_index_get(bytes, 0);
    let m1 = *vstd::slice::slice_index_get(bytes, 1);
    let m2 = *vstd::slice::slice_index_get(bytes, 2);
    let m3 = *vstd::slice::slice_index_get(bytes, 3);
    if !(m0 == 0x00 && m1 == 0x61 && m2 == 0x73 && m3 == 0x6D) {
        return Err(DecodeError::BadMagic);
    }
    if bytes.len() < 8 {
        return Err(DecodeError::UnexpectedEof);
    }
    let v0 = *vstd::slice::slice_index_get(bytes, 4);
    let v1 = *vstd::slice::slice_index_get(bytes, 5);
    let v2 = *vstd::slice::slice_index_get(bytes, 6);
    let v3 = *vstd::slice::slice_index_get(bytes, 7);
    if !(v0 == 0x01 && v1 == 0x00 && v2 == 0x00 && v3 == 0x00) {
        return Err(DecodeError::UnsupportedVersion);
    }
    let mut summary = new_summary();
    let mut c = Cursor::new(bytes);
    c.pos = 8;
    while c.pos < bytes.len()
        invariant
            c.wf(),
            c.bytes@ == bytes@,
            8 <= c.pos,
            spec_sections(bytes@, 8, empty_module()) == spec_sections(
                bytes@,
                c.pos as int,
                summary@,
            ),
        decreases bytes@.len() - c.pos,
    {
        let ghost pos_rec = c.pos as int;
        let id = match c.read_u8() {
            Ok(x) => x,
            Err(e) => {
                return Err(e);
            },
        };
        let len = match c.read_uleb128() {
            Ok(x) => x,
            Err(e) => {
                return Err(e);
            },
        };
        proof {
            lemma_uleb32_advance(bytes@, pos_rec + 1);
        }
        if len as usize > bytes.len() - c.pos {
            return Err(DecodeError::TruncatedSection);
        }
        let end = c.pos + len as usize;
        let body = slice_subrange(bytes, c.pos, end);
        match apply_section(id, body, &mut summary) {
            Ok(_u) => {},
            Err(e) => {
                return Err(e);
            },
        };
        c.pos = end;
    }
    // the cross-reference pass
    let ghost m = summary@;
    let n_types = summary.types.len();
    let mut i: usize = 0;
    while i < summary.functions.len()
        invariant
            summary@ == m,
            n_types == summary.types.len(),
            i <= summary.functions.len(),
            spec_first_dangling(m.functions, m.types.len(), 0) == spec_first_dangling(
                m.functions,
                m.types.len(),
                i as nat,
            ),
        decreases summary.functions@.len() - i,
    {
        let ti = summary.functions[i];
        if ti as usize >= n_types {
            return Err(DecodeError::DanglingTypeIndex { function_index: i, type_index: ti });
        }
        i = i + 1;
    }
    Ok(summary)
}

} // verus!
