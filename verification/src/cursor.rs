use vstd::prelude::*;
use vstd::slice::{slice_subrange, slice_to_vec};
use vstd::utf8::{decode_utf8, encode_utf8, encode_utf8_decode_utf8, valid_utf8};

use crate::error::DecodeError;

verus! {

/// What a successful read yields at the specification level: the value and
/// the offset just past it.
pub type ReadOk<T> = (T, int);

/// Relates an executable read result and new position to the corresponding
/// specification-level read.
pub open spec fn read_result_matches<T>(
    r: Result<T, DecodeError>,
    s: Result<ReadOk<T>, DecodeError>,
    new_pos: int,
) -> bool {
    match s {
        Ok((v, o)) => r == Ok::<T, DecodeError>(v) && new_pos == o,
        Err(e) => r == Err::<T, DecodeError>(e),
    }
}

/// One byte at `off`, or `UnexpectedEof`.
pub open spec fn spec_read_u8(b: Seq<u8>, off: int) -> Result<ReadOk<u8>, DecodeError>
    recommends
        0 <= off,
{
    if off < b.len() {
        Ok((b[off], off + 1))
    } else {
        Err(DecodeError::UnexpectedEof)
    }
}

/// `n` bytes starting at `off`, or `UnexpectedEof`.
pub open spec fn spec_read_bytes(b: Seq<u8>, off: int, n: int) -> Result<
    ReadOk<Seq<u8>>,
    DecodeError,
>
    recommends
        0 <= off,
        0 <= n,
{
    if off + n <= b.len() {
        Ok((b.subrange(off, off + n), off + n))
    } else {
        Err(DecodeError::UnexpectedEof)
    }
}

/// 128 to the power `n`; the range of an unsigned LEB128 value of `n` bytes.
pub open spec fn pow128(n: nat) -> nat
    decreases n,
{
    if n == 0 {
        1
    } else {
        128 * pow128((n - 1) as nat)
    }
}

pub proof fn lemma_pow128_pos(n: nat)
    ensures
        pow128(n) >= 1,
    decreases n,
{
    if n > 0 {
        lemma_pow128_pos((n - 1) as nat);
    }
}

pub proof fn lemma_pow128_le(a: nat, b: nat)
    requires
        a <= b,
    ensures
        pow128(a) <= pow128(b),
    decreases b,
{
    if a < b && b > 0 {
        lemma_pow128_le(a, (b - 1) as nat);
        lemma_pow128_pos((b - 1) as nat);
    }
}

/// An unsigned LEB128 integer of at most `max_bytes` bytes, as an unbounded
/// natural number.  `MalformedVarint` if the continuation bit never clears
/// within `max_bytes`; `UnexpectedEof` if the buffer ends first.
pub open spec fn spec_uleb_rec(b: Seq<u8>, off: int, max_bytes: nat) -> Result<
    ReadOk<nat>,
    DecodeError,
>
    decreases max_bytes,
{
    if max_bytes == 0 {
        Err(DecodeError::MalformedVarint)
    } else if !(0 <= off < b.len()) {
        Err(DecodeError::UnexpectedEof)
    } else if b[off] < 0x80 {
        Ok((b[off] as nat, off + 1))
    } else {
        match spec_uleb_rec(b, off + 1, (max_bytes - 1) as nat) {
            Ok((v, o)) => Ok(((b[off] - 0x80) as nat + 128 * v, o)),
            Err(e) => Err(e),
        }
    }
}

/// Bounds of a successful unsigned LEB128 read: it advances, it stays in the
/// buffer, and the value fits `max_bytes` groups of seven bits.
pub proof fn lemma_uleb_rec_bounds(b: Seq<u8>, off: int, max_bytes: nat)
    ensures
        match spec_uleb_rec(b, off, max_bytes) {
            Ok((v, o)) => off < o <= b.len() && o <= off + max_bytes && v < pow128(max_bytes),
            Err(_) => true,
        },
    decreases max_bytes,
{
    if max_bytes > 0 && 0 <= off < b.len() {
        let byte = b[off];
        if byte < 0x80 {
            lemma_pow128_pos((max_bytes - 1) as nat);
            assert(byte < pow128(max_bytes)) by {
                assert(pow128(max_bytes) == 128 * pow128((max_bytes - 1) as nat));
                assert(128 * pow128((max_bytes - 1) as nat) >= 128) by (nonlinear_arith)
                    requires
                        pow128((max_bytes - 1) as nat) >= 1,
                ;
            }
        } else {
            lemma_uleb_rec_bounds(b, off + 1, (max_bytes - 1) as nat);
            if let Ok((v, _o)) = spec_uleb_rec(b, off + 1, (max_bytes - 1) as nat) {
                assert((byte - 0x80) as nat + 128 * v < pow128(max_bytes)) by (nonlinear_arith)
                    requires
                        v < pow128((max_bytes - 1) as nat),
                        byte < 256,
                        byte >= 0x80,
                        pow128(max_bytes) == 128 * pow128((max_bytes - 1) as nat),
                ;
            }
        }
    }
}

/// An unsigned LEB128 integer for a 32-bit domain: at most five bytes, and
/// `Overflow` if the decoded magnitude does not fit in `u32`.
pub open spec fn spec_uleb32(b: Seq<u8>, off: int) -> Result<ReadOk<u32>, DecodeError> {
    match spec_uleb_rec(b, off, 5) {
        Ok((v, o)) => if v < 0x1_0000_0000 {
            Ok((v as u32, o))
        } else {
            Err(DecodeError::Overflow)
        },
        Err(e) => Err(e),
    }
}

/// A successful 32-bit varint read lands strictly past `off` and inside the
/// buffer.
pub proof fn lemma_uleb32_advance(b: Seq<u8>, off: int)
    ensures
        match spec_uleb32(b, off) {
            Ok((_v, o)) => off < o <= b.len(),
            Err(_) => true,
        },
{
    lemma_uleb_rec_bounds(b, off, 5);
}

/// A signed LEB128 integer of at most `max_bytes` bytes, as an unbounded
/// integer.  The final byte's bit 6 is the sign.
pub open spec fn spec_sleb_rec(b: Seq<u8>, off: int, max_bytes: nat) -> Result<
    ReadOk<int>,
    DecodeError,
>
    decreases max_bytes,
{
    if max_bytes == 0 {
        Err(DecodeError::MalformedVarint)
    } else if !(0 <= off < b.len()) {
        Err(DecodeError::UnexpectedEof)
    } else if b[off] < 0x40 {
        Ok((b[off] as int, off + 1))
    } else if b[off] < 0x80 {
        Ok((b[off] - 128, off + 1))
    } else {
        match spec_sleb_rec(b, off + 1, (max_bytes - 1) as nat) {
            Ok((v, o)) => Ok(((b[off] - 0x80) + 128 * v, o)),
            Err(e) => Err(e),
        }
    }
}

/// Bounds of a successful signed LEB128 read.
pub proof fn lemma_sleb_rec_bounds(b: Seq<u8>, off: int, max_bytes: nat)
    ensures
        match spec_sleb_rec(b, off, max_bytes) {
            Ok((v, o)) => {
                &&& off < o <= b.len()
                &&& o <= off + max_bytes
                &&& max_bytes >= 1
                &&& -64 * pow128((max_bytes - 1) as nat) <= v < 64 * pow128(
                    (max_bytes - 1) as nat,
                )
            },
            Err(_) => true,
        },
    decreases max_bytes,
{
    if max_bytes > 0 && 0 <= off < b.len() {
        let byte = b[off];
        lemma_pow128_pos((max_bytes - 1) as nat);
        if byte < 0x80 {
        } else {
            lemma_sleb_rec_bounds(b, off + 1, (max_bytes - 1) as nat);
            if let Ok((v, _o)) = spec_sleb_rec(b, off + 1, (max_bytes - 1) as nat) {
                let p = pow128((max_bytes - 2) as nat);
                assert(pow128((max_bytes - 1) as nat) == 128 * p);
                assert(-64 * (128 * p) <= (byte - 0x80) + 128 * v < 64 * (128 * p))
                    by (nonlinear_arith)
                    requires
                        -64 * p <= v < 64 * p,
                        0x80 <= byte < 256,
                        p >= 1,
                ;
            }
        }
    }
}

/// A signed LEB128 integer for a 64-bit domain: at most ten bytes, and
/// `Overflow` if the decoded value does not fit in `i64`.
pub open spec fn spec_sleb64(b: Seq<u8>, off: int) -> Result<ReadOk<i64>, DecodeError> {
    match spec_sleb_rec(b, off, 10) {
        Ok((v, o)) => if -0x8000_0000_0000_0000 <= v < 0x8000_0000_0000_0000 {
            Ok((v as i64, o))
        } else {
            Err(DecodeError::Overflow)
        },
        Err(e) => Err(e),
    }
}

/// A length-prefixed UTF-8 name: a 32-bit varint byte length, then that many
/// bytes decoded as UTF-8.  `InvalidUtf8` if the bytes are not valid UTF-8.
pub open spec fn spec_read_name(b: Seq<u8>, off: int) -> Result<ReadOk<Seq<char>>, DecodeError> {
    match spec_uleb32(b, off) {
        Ok((n, o)) => if o + n <= b.len() {
            if valid_utf8(b.subrange(o, o + n)) {
                Ok((decode_utf8(b.subrange(o, o + n)), o + n))
            } else {
                Err(DecodeError::InvalidUtf8)
            }
        } else {
            Err(DecodeError::UnexpectedEof)
        },
        Err(e) => Err(e),
    }
}

/// Relies on `String::from_utf8`: it returns `Ok` exactly when the bytes are
/// valid UTF-8, and then the returned string's UTF-8 encoding is the input.
#[verifier::external_body]
fn bytes_to_string(bytes: Vec<u8>) -> (r: Option<String>)
    ensures
        r is Some <==> valid_utf8(bytes@),
        r matches Some(s) ==> encode_utf8(s@) == bytes@,
{
    String::from_utf8(bytes).ok()
}

/// A sequential reader over an immutable byte buffer: an offset that only
/// moves forward, with bounds-checked reads.  The buffer is borrowed, never
/// copied; every returned value is freshly allocated.
pub struct Cursor<'a> {
    pub bytes: &'a [u8],
    pub pos: usize,
}

impl<'a> Cursor<'a> {
    /// The offset never passes the end of the buffer.
    pub open spec fn wf(&self) -> bool {
        self.pos <= self.bytes@.len()
    }

    pub fn new(bytes: &'a [u8]) -> (r: Cursor<'a>)
        ensures
            r.wf(),
            r.bytes@ == bytes@,
            r.pos == 0,
    {
        Cursor { bytes, pos: 0 }
    }

    pub fn at_end(&self) -> (r: bool)
        requires
            self.wf(),
        ensures
            r <==> self.pos == self.bytes@.len(),
    {
        self.pos == self.bytes.len()
    }

    pub fn read_u8(&mut self) -> (r: Result<u8, DecodeError>)
        requires
            old(self).wf(),
        ensures
            final(self).wf(),
            final(self).bytes@ == old(self).bytes@,
            read_result_matches(
                r,
                spec_read_u8(old(self).bytes@, old(self).pos as int),
                final(self).pos as int,
            ),
            r is Err ==> final(self).pos == old(self).pos,
    {
        if self.pos < self.bytes.len() {
            let b = *vstd::slice::slice_index_get(self.bytes, self.pos);
            self.pos = self.pos + 1;
            Ok(b)
        } else {
            Err(DecodeError::UnexpectedEof)
        }
    }

    pub fn read_bytes(&mut self, n: usize) -> (r: Result<Vec<u8>, DecodeError>)
        requires
            old(self).wf(),
        ensures
            final(self).wf(),
            final(self).bytes@ == old(self).bytes@,
            match spec_read_bytes(old(self).bytes@, old(self).pos as int, n as int) {
                Ok((s, o)) => r matches Ok(v) && v@ == s && final(self).pos == o,
                Err(e) => r == Err::<Vec<u8>, DecodeError>(e) && final(self).pos == old(self).pos,
            },
    {
        if n <= self.bytes.len() - self.pos {
            let sub = slice_subrange(self.bytes, self.pos, self.pos + n);
            let v = slice_to_vec(sub);
            self.pos = self.pos + n;
            Ok(v)
        } else {
            Err(DecodeError::UnexpectedEof)
        }
    }

    /// An unsigned LEB128 integer for a 32-bit domain.
    pub fn read_uleb128(&mut self) -> (r: Result<u32, DecodeError>)
        requires
            old(self).wf(),
        ensures
            final(self).wf(),
            final(self).bytes@ == old(self).bytes@,
            read_result_matches(
                r,
                spec_uleb32(old(self).bytes@, old(self).pos as int),
                final(self).pos as int,
            ),
            r is Err ==> final(self).pos == old(self).pos,
    {
        proof {
            lemma_uleb_rec_bounds(self.bytes@, self.pos as int, 5);
        }
        match uleb_body(self.bytes, self.pos, 5) {
            Ok((v, o)) => {
                if v < 0x1_0000_0000u64 {
                    self.pos = o;
                    Ok(v as u32)
                } else {
                    Err(DecodeError::Overflow)
                }
            },
            Err(e) => Err(e),
        }
    }

    /// A signed LEB128 integer for a 64-bit domain.
    pub fn read_sleb128(&mut self) -> (r: Result<i64, DecodeError>)
        requires
            old(self).wf(),
        ensures
            final(self).wf(),
            final(self).bytes@ == old(self).bytes@,
            read_result_matches(
                r,
                spec_sleb64(old(self).bytes@, old(self).pos as int),
                final(self).pos as int,
            ),
            r is Err ==> final(self).pos == old(self).pos,
    {
        proof {
            lemma_sleb_rec_bounds(self.bytes@, self.pos as int, 10);
        }
        match sleb_body(self.bytes, self.pos, 10) {
            Ok((v, o)) => {
                if -0x8000_0000_0000_0000i128 <= v && v < 0x8000_0000_0000_0000i128 {
                    self.pos = o;
                    Ok(v as i64)
                } else {
                    Err(DecodeError::Overflow)
                }
            },
            Err(e) => Err(e),
        }
    }

    /// A length-prefixed UTF-8 name.
    pub fn read_name(&mut self) -> (r: Result<String, DecodeError>)
        requires
            old(self).wf(),
        ensures
            final(self).wf(),
            final(self).bytes@ == old(self).bytes@,
            match spec_read_name(old(self).bytes@, old(self).pos as int) {
                Ok((cs, o)) => r matches Ok(s) && s@ == cs && final(self).pos == o,
                Err(e) => r == Err::<String, DecodeError>(e),
            },
    {
        let n = match self.read_uleb128() {
            Ok(n) => n,
            Err(e) => {
                return Err(e);
            },
        };
        if n as usize > self.bytes.len() - self.pos {
            return Err(DecodeError::UnexpectedEof);
        }
        let end = self.pos + n as usize;
        let raw = slice_subrange(self.bytes, self.pos, end);
        let raw_vec = slice_to_vec(raw);
        match bytes_to_string(raw_vec) {
            Some(s) => {
                proof {
                    encode_utf8_decode_utf8(s@);
                }
                self.pos = end;
                Ok(s)
            },
            None => Err(DecodeError::InvalidUtf8),
        }
    }
}

/// Executable body of the unsigned LEB128 read.
fn uleb_body(b: &[u8], off: usize, max_bytes: u8) -> (r: Result<(u64, usize), DecodeError>)
    requires
        off <= b@.len(),
        max_bytes <= 5,
    ensures
        match spec_uleb_rec(b@, off as int, max_bytes as nat) {
            Ok((v, o)) => r matches Ok(p) && p.0 == v && p.1 == o,
            Err(e) => r == Err::<(u64, usize), DecodeError>(e),
        },
    decreases max_bytes,
{
    if max_bytes == 0 {
        Err(DecodeError::MalformedVarint)
    } else if off >= b.len() {
        Err(DecodeError::UnexpectedEof)
    } else {
        let byte = *vstd::slice::slice_index_get(b, off);
        if byte < 0x80 {
            Ok((byte as u64, off + 1))
        } else {
            match uleb_body(b, off + 1, max_bytes - 1) {
                Ok((v, o)) => {
                    proof {
                        lemma_uleb_rec_bounds(b@, off as int + 1, (max_bytes - 1) as nat);
                        lemma_pow128_le((max_bytes - 1) as nat, 4);
                        assert(pow128(4) == 0x1000_0000) by {
                            reveal_with_fuel(pow128, 5);
                        }
                    }
                    Ok(((byte - 0x80) as u64 + 128 * v, o))
                },
                Err(e) => Err(e),
            }
        }
    }
}

/// Executable body of the signed LEB128 read.
fn sleb_body(b: &[u8], off: usize, max_bytes: u8) -> (r: Result<(i128, usize), DecodeError>)
    requires
        off <= b@.len(),
        max_bytes <= 10,
    ensures
        match spec_sleb_rec(b@, off as int, max_bytes as nat) {
            Ok((v, o)) => r matches Ok(p) && p.0 == v && p.1 == o,
            Err(e) => r == Err::<(i128, usize), DecodeError>(e),
        },
    decreases max_bytes,
{
    if max_bytes == 0 {
        Err(DecodeError::MalformedVarint)
    } else if off >= b.len() {
        Err(DecodeError::UnexpectedEof)
    } else {
        let byte = *vstd::slice::slice_index_get(b, off);
        if byte < 0x40 {
            Ok((byte as i128, off + 1))
        } else if byte < 0x80 {
            Ok((byte as i128 - 128, off + 1))
        } else {
            match sleb_body(b, off + 1, max_bytes - 1) {
                Ok((v, o)) => {
                    proof {
                        lemma_sleb_rec_bounds(b@, off as int + 1, (max_bytes - 1) as nat);
                        lemma_pow128_le((max_bytes - 2) as nat, 8);
                        assert(pow128(8) == 0x100_0000_0000_0000) by {
                            reveal_with_fuel(pow128, 9);
                        }
                    }
                    Ok((byte as i128 - 0x80 + 128 * v, o))
                },
                Err(e) => Err(e),
            }
        }
    }
}

} // verus!
