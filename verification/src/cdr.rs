//! ROS 2 CDR (XCDR1, little-endian) framing of primitive values.
//!
//! Each primitive of size N is aligned to N against the payload start, the
//! alignment origin being the first byte after the 4-byte encapsulation
//! header. Strings: align 4, a u32 length *including* the NUL terminator, the
//! UTF-8 bytes, then the NUL.
use vstd::prelude::*;
use vstd::utf8::{valid_utf8, encode_utf8};
use vstd::string::StringSliceAdditionalSpecFns;
use crate::text::{cat, decimal, dec_text, hex_byte, hex_byte_text};

verus! {

/// The CDR little-endian encapsulation header.
pub open spec fn cdr_le_header() -> Seq<u8> {
    seq![0x00u8, 0x01u8, 0x00u8, 0x00u8]
}

/// A CDR payload could not be written or read.
#[derive(Debug, Clone, PartialEq, Eq)]
pub struct CdrError {
    pub message: String,
}

/// `p` rounded up to a multiple of `n`.
pub open spec fn aligned(p: int, n: int) -> int {
    if p % n == 0 { p } else { p + (n - p % n) }
}

/// `q` is not a multiple of `n`.
pub open spec fn off_grid(q: int, n: int) -> bool {
    q % n != 0
}

/// `k` zero bytes.
pub open spec fn zeros(k: int) -> Seq<u8> {
    Seq::new(k as nat, |i: int| 0u8)
}

/// Pad `b` with zeros to a multiple of `n`.
pub open spec fn padded(b: Seq<u8>, n: int) -> Seq<u8> {
    b + zeros(aligned(b.len() as int, n) - b.len())
}

/// Little-endian bytes of a 16-bit value.
pub open spec fn le16(v: u16) -> Seq<u8> {
    seq![(v % 256) as u8, (v / 256) as u8]
}

/// Little-endian bytes of a 32-bit value.
pub open spec fn le32(v: u32) -> Seq<u8> {
    seq![(v % 256) as u8, ((v / 256) % 256) as u8, ((v / 65536) % 256) as u8, (v / 16777216) as u8]
}

/// Little-endian bytes of a 64-bit value.
pub open spec fn le64(v: u64) -> Seq<u8> {
    le32((v % 4294967296) as u32) + le32((v / 4294967296) as u32)
}

/// The 16-bit value of two little-endian bytes.
pub open spec fn from_le16(b: Seq<u8>) -> u16 {
    (b[0] + 256 * b[1]) as u16
}

/// The 32-bit value of four little-endian bytes.
pub open spec fn from_le32(b: Seq<u8>) -> u32 {
    (b[0] + 256 * b[1] + 65536 * b[2] + 16777216 * b[3]) as u32
}

/// The 64-bit value of eight little-endian bytes.
pub open spec fn from_le64(b: Seq<u8>) -> u64 {
    (from_le32(b.subrange(0, 4)) + 4294967296 * from_le32(b.subrange(4, 8))) as u64
}

/// Accumulates a CDR payload body; alignment is measured against the body
/// length, i.e. the payload start.
pub struct CdrWriter {
    body: Vec<u8>,
}

impl Default for CdrWriter {
    /// An empty payload, as [`CdrWriter::new`] gives.
    fn default() -> (w: CdrWriter)
        ensures
            w.bytes() == Seq::<u8>::empty(),
    {
        CdrWriter::new()
    }
}

impl CdrWriter {
    /// The bytes written so far.
    pub closed spec fn bytes(&self) -> Seq<u8> {
        self.body@
    }

    /// An empty payload.
    pub fn new() -> (w: CdrWriter)
        ensures
            w.bytes() == Seq::<u8>::empty(),
    {
        CdrWriter { body: Vec::new() }
    }

    /// Pad with zeros to a multiple of `n`.
    fn align(&mut self, n: usize)
        requires
            n > 0,
        ensures
            final(self).bytes() == padded(old(self).bytes(), n as int),
    {
        let ghost b = self.body@;
        while self.body.len() % n != 0
            invariant
                n > 0,
                b.len() <= self.body@.len() <= aligned(b.len() as int, n as int),
                self.body@ == b + zeros(self.body@.len() - b.len()),
                forall|q: int| b.len() <= q < self.body@.len() ==> #[trigger] off_grid(q, n as int),
            decreases aligned(b.len() as int, n as int) - self.body@.len(),
        {
            proof {
                lemma_align_step(b.len() as int, self.body@.len() as int, n as int);
            }
            self.body.push(0);
            assert(self.body@ =~= b + zeros(self.body@.len() - b.len()));
        }
        proof {
            lemma_align_stop(b.len() as int, self.body@.len() as int, n as int);
        }
    }

    /// Append raw bytes.
    fn put(&mut self, bytes: &[u8])
        ensures
            final(self).bytes() == old(self).bytes() + bytes@,
    {
        let mut i: usize = 0;
        let ghost b = self.body@;
        while i < bytes.len()
            invariant
                i <= bytes@.len(),
                self.body@ == b + bytes@.subrange(0, i as int),
            decreases bytes@.len() - i,
        {
            self.body.push(bytes[i]);
            assert(self.body@ =~= b + bytes@.subrange(0, i + 1));
            i += 1;
        }
        assert(bytes@.subrange(0, i as int) =~= bytes@);
    }

    /// A unit writes nothing.
    pub fn write_unit(&mut self) -> (r: Result<(), CdrError>)
        ensures
            r is Ok,
            final(self).bytes() == old(self).bytes(),
    {
        Ok(())
    }

    /// A boolean is one byte, 1 or 0.
    pub fn write_bool(&mut self, v: bool) -> (r: Result<(), CdrError>)
        ensures
            r is Ok,
            final(self).bytes() == old(self).bytes().push(if v { 1u8 } else { 0u8 }),
    {
        self.body.push(if v { 1 } else { 0 });
        Ok(())
    }

    /// A byte, unaligned.
    pub fn write_u8(&mut self, v: u8) -> (r: Result<(), CdrError>)
        ensures
            r is Ok,
            final(self).bytes() == old(self).bytes().push(v),
    {
        self.body.push(v);
        Ok(())
    }

    /// A signed byte, as its two's-complement bits.
    pub fn write_i8(&mut self, v: i8) -> (r: Result<(), CdrError>)
        ensures
            r is Ok,
            final(self).bytes() == old(self).bytes().push(v as u8),
    {
        self.body.push(v as u8);
        Ok(())
    }

    /// A 16-bit value, aligned to 2.
    pub fn write_u16(&mut self, v: u16) -> (r: Result<(), CdrError>)
        ensures
            r is Ok,
            final(self).bytes() == padded(old(self).bytes(), 2) + le16(v),
    {
        self.align(2);
        let bytes = [(v % 256) as u8, (v / 256) as u8];
        self.put(&bytes);
        assert(bytes@ =~= le16(v));
        Ok(())
    }

    /// A signed 16-bit value, as its two's-complement bits.
    pub fn write_i16(&mut self, v: i16) -> (r: Result<(), CdrError>)
        ensures
            r is Ok,
            final(self).bytes() == padded(old(self).bytes(), 2) + le16(v as u16),
    {
        self.write_u16(v as u16)
    }

    /// A 32-bit value, aligned to 4.
    pub fn write_u32(&mut self, v: u32) -> (r: Result<(), CdrError>)
        ensures
            r is Ok,
            final(self).bytes() == padded(old(self).bytes(), 4) + le32(v),
    {
        self.align(4);
        let bytes = [(v % 256) as u8, ((v / 256) % 256) as u8, ((v / 65536) % 256) as u8, (v / 16777216) as u8];
        self.put(&bytes);
        assert(bytes@ =~= le32(v));
        Ok(())
    }

    /// A signed 32-bit value, as its two's-complement bits.
    pub fn write_i32(&mut self, v: i32) -> (r: Result<(), CdrError>)
        ensures
            r is Ok,
            final(self).bytes() == padded(old(self).bytes(), 4) + le32(v as u32),
    {
        self.write_u32(v as u32)
    }

    /// A 64-bit value, aligned to 8.
    pub fn write_u64(&mut self, v: u64) -> (r: Result<(), CdrError>)
        ensures
            r is Ok,
            final(self).bytes() == padded(old(self).bytes(), 8) + le64(v),
    {
        self.align(8);
        let lo = (v % 4294967296) as u32;
        let hi = (v / 4294967296) as u32;
        let bytes = [
            (lo % 256) as u8,
            ((lo / 256) % 256) as u8,
            ((lo / 65536) % 256) as u8,
            (lo / 16777216) as u8,
            (hi % 256) as u8,
            ((hi / 256) % 256) as u8,
            ((hi / 65536) % 256) as u8,
            (hi / 16777216) as u8,
        ];
        self.put(&bytes);
        assert(bytes@ =~= le64(v));
        Ok(())
    }

    /// A signed 64-bit value, as its two's-complement bits.
    pub fn write_i64(&mut self, v: i64) -> (r: Result<(), CdrError>)
        ensures
            r is Ok,
            final(self).bytes() == padded(old(self).bytes(), 8) + le64(v as u64),
    {
        self.write_u64(v as u64)
    }

    /// A string: aligned to 4, its UTF-8 length plus one as a u32, the bytes,
    /// then a NUL.
    pub fn write_string(&mut self, v: &str) -> (r: Result<(), CdrError>)
        ensures
            r is Ok,
            final(self).bytes() == padded(old(self).bytes(), 4) + le32(((v.spec_bytes().len() + 1) % 4294967296) as u32)
                + v.spec_bytes() + seq![0u8],
    {
        let bytes = v.as_bytes();
        let n = ((bytes.len() as u128 + 1) % 4294967296) as u32;
        self.write_u32(n);
        self.put(bytes);
        self.body.push(0);
        Ok(())
    }

    /// Struct framing writes nothing: CDR is positional.
    pub fn begin_struct(&mut self, id: u128, field_count: usize) -> (r: Result<(), CdrError>)
        ensures
            r is Ok,
            final(self).bytes() == old(self).bytes(),
    {
        Ok(())
    }

    /// Field framing writes nothing: CDR is positional.
    pub fn begin_field(&mut self, id: u128) -> (r: Result<(), CdrError>)
        ensures
            r is Ok,
            final(self).bytes() == old(self).bytes(),
    {
        Ok(())
    }

    /// The payload body written so far.
    pub fn into_bytes(self) -> (r: Vec<u8>)
        ensures
            r@ == self.bytes(),
    {
        self.body
    }
}

/// Padding makes progress towards the aligned length.
proof fn lemma_align_step(b: int, len: int, n: int)
    requires
        n > 0,
        0 <= b <= len <= aligned(b, n),
        len % n != 0,
    ensures
        len + 1 <= aligned(b, n),
{
    if b % n == 0 {
        assert(len == b);
    } else {
        let a = aligned(b, n);
        assert(a % n == 0) by {
            assert(a == b + (n - b % n));
            assert((b - b % n) % n == 0) by (nonlinear_arith)
                requires n > 0;
            assert(a == (b - b % n) + n);
            assert(((b - b % n) + n) % n == 0) by (nonlinear_arith)
                requires n > 0, (b - b % n) % n == 0;
        }
        assert(len != a);
    }
}

/// Padding stops exactly at the aligned length.
proof fn lemma_align_stop(b: int, len: int, n: int)
    requires
        n > 0,
        0 <= b <= len <= aligned(b, n),
        len % n == 0,
        forall|q: int| b <= q < len ==> #[trigger] off_grid(q, n),
    ensures
        len == aligned(b, n),
{
    if b % n == 0 {
        if len > b {
            assert(off_grid(b, n));
        }
    } else {
        // No multiple of n lies strictly between b and aligned(b, n).
        let a = aligned(b, n);
        if len < a {
            let k = b - b % n;
            assert(k % n == 0 && k <= b && k >= 0) by (nonlinear_arith)
                requires n > 0, k == b - b % n, b >= 0;
            assert(b < len < k + n);
            assert(b % n > 0);
            assert(0 < len - k < n);
            assert(len % n == len - k) by (nonlinear_arith)
                requires n > 0, k % n == 0, k <= len, len < k + n, k >= 0;
            assert(off_grid(len, n));
            assert(len % n == len - k) by (nonlinear_arith)
                requires n > 0, k % n == 0, k <= len, len < k + n, k >= 0;
        }
    }
}


/// A string slice of `bytes`, when they are valid UTF-8, else what is wrong
/// with them.
///
/// Calls `std::str::from_utf8`, whose contract here is trusted, not proved:
/// it succeeds exactly when `bytes` is valid UTF-8 (as `vstd::utf8` defines
/// it), and the string it returns is made of exactly those bytes. On failure
/// it gives std's rendering of the `Utf8Error`; what that text says is left
/// unsaid here.
#[verifier::external_body]
fn utf8_str(bytes: &[u8]) -> (r: Result<&str, String>)
    ensures
        r is Ok <==> valid_utf8(bytes@),
        r matches Ok(s) ==> s.spec_bytes() == bytes@,
{
    match std::str::from_utf8(bytes) {
        Ok(s) => Ok(s),
        Err(e) => Err(format!("{e}")),
    }
}

/// The text of a read past the end of a body.
pub open spec fn underrun_text(need: nat, pos: nat, have: nat) -> Seq<char> {
    "CDR buffer underrun: need "@ + dec_text(need) + " bytes at "@ + dec_text(pos) + ", have "@ + dec_text(have)
}

/// The error of a read that needed `need` bytes at position `pos` of a body
/// of `have` bytes.
fn underrun(need: usize, pos: usize, have: usize) -> (e: CdrError)
    ensures
        e.message@ == underrun_text(need as nat, pos as nat, have as nat),
{
    let a = cat("CDR buffer underrun: need ", decimal(need).as_str());
    let b = a.concat(" bytes at ");
    let c = b.concat(decimal(pos).as_str());
    let d = c.concat(", have ");
    let message = d.concat(decimal(have).as_str());
    CdrError { message }
}

/// Reads a CDR payload body; alignment is measured against the position in
/// the body (the bytes after the encapsulation header).
pub struct CdrReader<'a> {
    body: &'a [u8],
    pos: usize,
}

impl<'a> CdrReader<'a> {
    /// The payload being read.
    pub closed spec fn data(&self) -> Seq<u8> {
        self.body@
    }

    /// The read position.
    pub closed spec fn position(&self) -> int {
        self.pos as int
    }

    /// The position stays within the 8-aligned end of the payload, which fits
    /// the address space.
    pub closed spec fn wf(&self) -> bool {
        &&& self.pos <= aligned(self.body@.len() as int, 8)
        &&& self.body@.len() + 8 <= usize::MAX
    }

    /// A reader at the start of `body`.
    pub fn new(body: &'a [u8]) -> (r: CdrReader<'a>)
        requires
            body@.len() + 8 <= usize::MAX,
        ensures
            r.wf(),
            r.data() == body@,
            r.position() == 0,
    {
        CdrReader { body, pos: 0 }
    }

    /// Advance to a multiple of `n` (one of 1, 2, 4, 8).
    fn align(&mut self, n: usize)
        requires
            old(self).wf(),
            n == 1 || n == 2 || n == 4 || n == 8,
        ensures
            final(self).wf(),
            final(self).data() == old(self).data(),
            final(self).position() == aligned(old(self).position(), n as int),
    {
        let ghost p0 = self.pos as int;
        let ghost len = self.body@.len() as int;
        proof { lemma_aligned_bounds(p0, n as int, len); }
        while self.pos % n != 0
            invariant
                n == 1 || n == 2 || n == 4 || n == 8,
                0 <= p0 <= self.pos <= aligned(p0, n as int),
                aligned(p0, n as int) <= aligned(len, 8),
                self.body == old(self).body,
                self.body@.len() == len,
                len + 8 <= usize::MAX,
                forall|q: int| p0 <= q < self.pos ==> #[trigger] off_grid(q, n as int),
            decreases aligned(p0, n as int) - self.pos,
        {
            proof { lemma_align_step(p0, self.pos as int, n as int); }
            self.pos += 1;
        }
        proof { lemma_align_stop(p0, self.pos as int, n as int); }
    }

    /// Read `N` bytes at the `N`-aligned position: the position after, and
    /// whether they fit.
    fn take_aligned(&mut self, n: usize) -> (ok: bool)
        requires
            old(self).wf(),
            n == 1 || n == 2 || n == 4 || n == 8,
        ensures
            final(self).wf(),
            final(self).data() == old(self).data(),
            ok == (aligned(old(self).position(), n as int) + n <= old(self).data().len()),
            final(self).position() == aligned(old(self).position(), n as int) + if ok { n as int } else { 0 },
    {
        self.align(n);
        if self.pos > self.body.len() || self.body.len() - self.pos < n {
            false
        } else {
            self.pos = self.pos + n;
            proof { lemma_aligned_bounds(self.pos as int, 8, self.body@.len() as int); }
            true
        }
    }

    /// Nothing to read for a unit.
    pub fn read_unit(&mut self) -> (r: Result<(), CdrError>)
        ensures
            r is Ok,
            *final(self) == *old(self),
    {
        Ok(())
    }

    /// One byte.
    pub fn read_u8(&mut self) -> (r: Result<u8, CdrError>)
        requires
            old(self).wf(),
        ensures
            final(self).wf(),
            final(self).data() == old(self).data(),
            r is Ok <==> old(self).position() + 1 <= old(self).data().len(),
            final(self).position() == old(self).position() + if r is Ok { 1int } else { 0 },
            r matches Ok(v) ==> v == old(self).data()[old(self).position()],
    {
        let p = self.pos;
        proof { lemma_aligned_one(p as int); }
        if self.take_aligned(1) {
            Ok(self.body[p])
        } else {
            Err(underrun(1, self.pos, self.body.len()))
        }
    }

    /// One byte, nonzero meaning true.
    pub fn read_bool(&mut self) -> (r: Result<bool, CdrError>)
        requires
            old(self).wf(),
        ensures
            final(self).wf(),
            final(self).data() == old(self).data(),
            r is Ok <==> old(self).position() + 1 <= old(self).data().len(),
            final(self).position() == old(self).position() + if r is Ok { 1int } else { 0 },
            r matches Ok(v) ==> v == (old(self).data()[old(self).position()] != 0),
    {
        match self.read_u8() {
            Ok(b) => Ok(b != 0),
            Err(e) => Err(e),
        }
    }

    /// One byte, as a two's-complement signed value.
    pub fn read_i8(&mut self) -> (r: Result<i8, CdrError>)
        requires
            old(self).wf(),
        ensures
            final(self).wf(),
            final(self).data() == old(self).data(),
            r is Ok <==> old(self).position() + 1 <= old(self).data().len(),
            final(self).position() == old(self).position() + if r is Ok { 1int } else { 0 },
            r matches Ok(v) ==> v == old(self).data()[old(self).position()] as i8,
    {
        match self.read_u8() {
            Ok(b) => Ok(b as i8),
            Err(e) => Err(e),
        }
    }

    /// A 16-bit value at the next 2-aligned position.
    pub fn read_u16(&mut self) -> (r: Result<u16, CdrError>)
        requires
            old(self).wf(),
        ensures
            final(self).wf(),
            final(self).data() == old(self).data(),
            ({
                let p = aligned(old(self).position(), 2);
                &&& (r is Ok <==> p + 2 <= old(self).data().len())
                &&& final(self).position() == p + if r is Ok { 2int } else { 0 }
                &&& (r matches Ok(v) ==> v == from_le16(old(self).data().subrange(p, p + 2)))
            }),
    {
        if self.take_aligned(2) {
            let p = self.pos - 2;
            Ok((self.body[p] as u16 + 256 * self.body[p + 1] as u16))
        } else {
            Err(underrun(2, self.pos, self.body.len()))
        }
    }

    /// A signed 16-bit value, from its two's-complement bits.
    pub fn read_i16(&mut self) -> (r: Result<i16, CdrError>)
        requires
            old(self).wf(),
        ensures
            final(self).wf(),
            final(self).data() == old(self).data(),
            ({
                let p = aligned(old(self).position(), 2);
                &&& (r is Ok <==> p + 2 <= old(self).data().len())
                &&& final(self).position() == p + if r is Ok { 2int } else { 0 }
                &&& (r matches Ok(v) ==> v == from_le16(old(self).data().subrange(p, p + 2)) as i16)
            }),
    {
        match self.read_u16() {
            Ok(v) => Ok(v as i16),
            Err(e) => Err(e),
        }
    }

    /// A 32-bit value at the next 4-aligned position.
    pub fn read_u32(&mut self) -> (r: Result<u32, CdrError>)
        requires
            old(self).wf(),
        ensures
            final(self).wf(),
            final(self).data() == old(self).data(),
            ({
                let p = aligned(old(self).position(), 4);
                &&& (r is Ok <==> p + 4 <= old(self).data().len())
                &&& final(self).position() == p + if r is Ok { 4int } else { 0 }
                &&& (r matches Ok(v) ==> v == from_le32(old(self).data().subrange(p, p + 4)))
            }),
    {
        if self.take_aligned(4) {
            let p = self.pos - 4;
            let v = self.body[p] as u32 + 256 * self.body[p + 1] as u32 + 65536 * self.body[p + 2] as u32
                + 16777216 * self.body[p + 3] as u32;
            Ok(v)
        } else {
            Err(underrun(4, self.pos, self.body.len()))
        }
    }

    /// A signed 32-bit value, from its two's-complement bits.
    pub fn read_i32(&mut self) -> (r: Result<i32, CdrError>)
        requires
            old(self).wf(),
        ensures
            final(self).wf(),
            final(self).data() == old(self).data(),
            ({
                let p = aligned(old(self).position(), 4);
                &&& (r is Ok <==> p + 4 <= old(self).data().len())
                &&& final(self).position() == p + if r is Ok { 4int } else { 0 }
                &&& (r matches Ok(v) ==> v == from_le32(old(self).data().subrange(p, p + 4)) as i32)
            }),
    {
        match self.read_u32() {
            Ok(v) => Ok(v as i32),
            Err(e) => Err(e),
        }
    }

    /// A 64-bit value at the next 8-aligned position.
    pub fn read_u64(&mut self) -> (r: Result<u64, CdrError>)
        requires
            old(self).wf(),
        ensures
            final(self).wf(),
            final(self).data() == old(self).data(),
            ({
                let p = aligned(old(self).position(), 8);
                &&& (r is Ok <==> p + 8 <= old(self).data().len())
                &&& final(self).position() == p + if r is Ok { 8int } else { 0 }
                &&& (r matches Ok(v) ==> v == from_le64(old(self).data().subrange(p, p + 8)))
            }),
    {
        if self.take_aligned(8) {
            let p = self.pos - 8;
            let b = self.body;
            let lo = b[p] as u32 + 256 * b[p + 1] as u32 + 65536 * b[p + 2] as u32 + 16777216 * b[p + 3] as u32;
            let hi = b[p + 4] as u32 + 256 * b[p + 5] as u32 + 65536 * b[p + 6] as u32 + 16777216 * b[p + 7] as u32;
            let ghost s = b@.subrange(p as int, p + 8);
            assert(s.subrange(0, 4) =~= b@.subrange(p as int, p + 4));
            assert(s.subrange(4, 8) =~= b@.subrange(p + 4, p + 8));
            Ok(lo as u64 + 4294967296 * hi as u64)
        } else {
            Err(underrun(8, self.pos, self.body.len()))
        }
    }

    /// A signed 64-bit value, from its two's-complement bits.
    pub fn read_i64(&mut self) -> (r: Result<i64, CdrError>)
        requires
            old(self).wf(),
        ensures
            final(self).wf(),
            final(self).data() == old(self).data(),
            ({
                let p = aligned(old(self).position(), 8);
                &&& (r is Ok <==> p + 8 <= old(self).data().len())
                &&& final(self).position() == p + if r is Ok { 8int } else { 0 }
                &&& (r matches Ok(v) ==> v == from_le64(old(self).data().subrange(p, p + 8)) as i64)
            }),
    {
        match self.read_u64() {
            Ok(v) => Ok(v as i64),
            Err(e) => Err(e),
        }
    }

    /// A string: a u32 length at the next 4-aligned position (counting the
    /// NUL), then that many bytes. Fails on a buffer underrun, a zero length,
    /// or bytes before the NUL that are not UTF-8; the string is the bytes
    /// before the NUL.
    pub fn read_string(&mut self) -> (r: Result<String, CdrError>)
        requires
            old(self).wf(),
        ensures
            final(self).wf(),
            final(self).data() == old(self).data(),
            ({
                let d = old(self).data();
                let p = aligned(old(self).position(), 4);
                let q = p + 4;
                let n = from_le32(d.subrange(p, q)) as int;
                &&& (r is Ok <==> (q <= d.len() && n != 0 && q + n <= d.len() && valid_utf8(d.subrange(q, q + n - 1))))
                &&& (r matches Ok(s) ==> s@.len() >= 0 && encode_utf8(s@) == d.subrange(q, q + n - 1) && final(self).position() == q + n)
            }),
    {
        let len = match self.read_u32() {
            Ok(v) => v as usize,
            Err(e) => return Err(e),
        };
        if len == 0 {
            return Err(CdrError { message: String::from_str("CDR string length 0 (must include the NUL terminator)") });
        }
        let q = self.pos;
        if q > self.body.len() || self.body.len() - q < len {
            return Err(underrun(len, q, self.body.len()));
        }
        self.pos = q + len;
        proof { lemma_aligned_bounds(self.pos as int, 8, self.body@.len() as int); }
        let bytes = vstd::slice::slice_subrange(self.body, q, q + len - 1);
        match utf8_str(bytes) {
            Ok(s) => {
                let owned = s.to_owned();
                Ok(owned)
            },
            Err(why) => Err(CdrError { message: cat("invalid utf-8 in CDR string: ", why.as_str()) }),
        }
    }

    /// Struct framing reads nothing: CDR is positional.
    pub fn enter_struct(&mut self, expected_id: u128, field_count: usize) -> (r: Result<(), CdrError>)
        ensures
            r is Ok,
            *final(self) == *old(self),
    {
        Ok(())
    }

    /// Field framing reads nothing: CDR is positional.
    pub fn enter_field(&mut self, expected_id: u128) -> (r: Result<(), CdrError>)
        ensures
            r is Ok,
            *final(self) == *old(self),
    {
        Ok(())
    }
}

/// Alignment to 1 changes nothing.
proof fn lemma_aligned_one(p: int)
    ensures
        aligned(p, 1) == p,
{
    assert(p % 1 == 0);
}

/// Aligning to 1, 2, 4 or 8 stays within the 8-aligned end.
proof fn lemma_aligned_bounds(p: int, n: int, len: int)
    requires
        0 <= p <= aligned(len, 8),
        0 <= len,
        n == 1 || n == 2 || n == 4 || n == 8,
    ensures
        p <= aligned(p, n) <= aligned(len, 8),
        aligned(len, 8) <= len + 7,
{
    let a = aligned(len, 8);
    assert(a % 8 == 0 && len <= a <= len + 7) by (nonlinear_arith)
        requires a == (if len % 8 == 0 { len } else { len + (8 - len % 8) }), len >= 0;
    let b = aligned(p, n);
    assert(p <= b && b <= p + n - 1 && b % n == 0) by (nonlinear_arith)
        requires n > 0, p >= 0, b == (if p % n == 0 { p } else { p + (n - p % n) });
    if aligned(p, n) > a {
        // p <= a and a is a multiple of n, so rounding p up to n cannot pass a.
        assert(a % n == 0) by (nonlinear_arith)
            requires a % 8 == 0, n == 1 || n == 2 || n == 4 || n == 8;
        let k = p - p % n;
        assert(k % n == 0 && k <= p && p - k < n) by (nonlinear_arith)
            requires n > 0, k == p - p % n, p >= 0;
        assert(p % n != 0);
        assert(aligned(p, n) == k + n);
        assert(k < a);
        assert(a >= k + n) by (nonlinear_arith)
            requires a % n == 0, k % n == 0, k < a, n > 0;
    }
}

/// The payload framed with the CDR little-endian header.
pub fn frame(body: &[u8]) -> (r: Vec<u8>)
    ensures
        r@ == cdr_le_header() + body@,
{
    let mut out: Vec<u8> = Vec::new();
    out.push(0x00);
    out.push(0x01);
    out.push(0x00);
    out.push(0x00);
    let mut i: usize = 0;
    while i < body.len()
        invariant
            i <= body@.len(),
            out@ == cdr_le_header() + body@.subrange(0, i as int),
        decreases body@.len() - i,
    {
        out.push(body[i]);
        assert(out@ =~= cdr_le_header() + body@.subrange(0, i + 1));
        i += 1;
    }
    assert(body@.subrange(0, i as int) =~= body@);
    out
}

/// The payload body of a CDR message: the bytes after the 4-byte header.
/// Fails when the message is shorter than the header or its representation
/// is not little-endian CDR (`00 01`).
pub fn unframe(bytes: &[u8]) -> (r: Result<&[u8], CdrError>)
    ensures
        r is Ok <==> bytes@.len() >= 4 && bytes@[0] == 0 && bytes@[1] == 1,
        r matches Ok(b) ==> b@ == bytes@.subrange(4, bytes@.len() as int),
        r matches Err(e) ==> e.message@ == if bytes@.len() < 4 {
            "CDR payload shorter than the 4-byte encapsulation header"@
        } else {
            "unsupported CDR encapsulation "@ + hex_byte_text(bytes@[0]) + " "@ + hex_byte_text(bytes@[1]) + " (little-endian only)"@
        },
{
    if bytes.len() < 4 {
        return Err(CdrError { message: String::from_str("CDR payload shorter than the 4-byte encapsulation header") });
    }
    if bytes[0] != 0 || bytes[1] != 1 {
        let a = cat("unsupported CDR encapsulation ", hex_byte(bytes[0]).as_str());
        let b = a.concat(" ");
        let c = b.concat(hex_byte(bytes[1]).as_str());
        let message = c.concat(" (little-endian only)");
        return Err(CdrError { message });
    }
    Ok(vstd::slice::slice_subrange(bytes, 4, bytes.len()))
}


/// Little-endian bytes read back as the 16-bit value.
pub proof fn lemma_le16(v: u16)
    ensures
        le16(v).len() == 2,
        from_le16(le16(v)) == v,
{
    let b = le16(v);
    assert(b[0] as int + 256 * b[1] as int == v) by (nonlinear_arith)
        requires b[0] == (v % 256) as u8, b[1] == (v / 256) as u8;
}

/// Little-endian bytes read back as the 32-bit value.
pub proof fn lemma_le32(v: u32)
    ensures
        le32(v).len() == 4,
        from_le32(le32(v)) == v,
{
    let b = le32(v);
    assert(b[0] as int + 256 * b[1] as int + 65536 * b[2] as int + 16777216 * b[3] as int == v) by (nonlinear_arith)
        requires
            b[0] == (v % 256) as u8,
            b[1] == ((v / 256) % 256) as u8,
            b[2] == ((v / 65536) % 256) as u8,
            b[3] == (v / 16777216) as u8;
}

/// Little-endian bytes read back as the 64-bit value.
pub proof fn lemma_le64(v: u64)
    ensures
        le64(v).len() == 8,
        from_le64(le64(v)) == v,
{
    let lo = (v % 4294967296) as u32;
    let hi = (v / 4294967296) as u32;
    lemma_le32(lo);
    lemma_le32(hi);
    let b = le64(v);
    assert(b.subrange(0, 4) =~= le32(lo));
    assert(b.subrange(4, 8) =~= le32(hi));
    assert(lo + 4294967296 * hi == v) by (nonlinear_arith)
        requires lo == v % 4294967296, hi == v / 4294967296;
}

/// Where a writer at `b` put a 16-bit value (followed by anything), a reader
/// at `b`'s end finds it at the next 2-aligned position, and ends where the
/// writer ended.
pub proof fn lemma_u16_round_trip(b: Seq<u8>, v: u16, rest: Seq<u8>)
    ensures
        ({
            let w = padded(b, 2) + le16(v);
            let d = w + rest;
            let p = aligned(b.len() as int, 2);
            &&& p + 2 == w.len() && p + 2 <= d.len()
            &&& from_le16(d.subrange(p, p + 2)) == v
        }),
{
    lemma_le16(v);
    let w = padded(b, 2) + le16(v);
    let p = aligned(b.len() as int, 2);
    assert(p >= b.len());
    assert((w + rest).subrange(p, p + 2) =~= le16(v));
}

/// Where a writer at `b` put a 32-bit value (followed by anything), a reader
/// at `b`'s end finds it at the next 4-aligned position, and ends where the
/// writer ended.
pub proof fn lemma_u32_round_trip(b: Seq<u8>, v: u32, rest: Seq<u8>)
    ensures
        ({
            let w = padded(b, 4) + le32(v);
            let d = w + rest;
            let p = aligned(b.len() as int, 4);
            &&& p + 4 == w.len() && p + 4 <= d.len()
            &&& from_le32(d.subrange(p, p + 4)) == v
        }),
{
    lemma_le32(v);
    let w = padded(b, 4) + le32(v);
    let p = aligned(b.len() as int, 4);
    assert(p >= b.len());
    assert((w + rest).subrange(p, p + 4) =~= le32(v));
}

/// Where a writer at `b` put a 64-bit value (followed by anything), a reader
/// at `b`'s end finds it at the next 8-aligned position, and ends where the
/// writer ended.
pub proof fn lemma_u64_round_trip(b: Seq<u8>, v: u64, rest: Seq<u8>)
    ensures
        ({
            let w = padded(b, 8) + le64(v);
            let d = w + rest;
            let p = aligned(b.len() as int, 8);
            &&& p + 8 == w.len() && p + 8 <= d.len()
            &&& from_le64(d.subrange(p, p + 8)) == v
        }),
{
    lemma_le64(v);
    let w = padded(b, 8) + le64(v);
    let p = aligned(b.len() as int, 8);
    assert(p >= b.len());
    assert((w + rest).subrange(p, p + 8) =~= le64(v));
}

/// Signed values travel as their two's-complement bits and come back.
pub proof fn lemma_signed_round_trip(a: i16, b: i32, c: i64, d: i8)
    ensures
        (a as u16) as i16 == a,
        (b as u32) as i32 == b,
        (c as u64) as i64 == c,
        (d as u8) as i8 == d,
{
    assert((a as u16) as i16 == a) by (bit_vector);
    assert((b as u32) as i32 == b) by (bit_vector);
    assert((c as u64) as i64 == c) by (bit_vector);
    assert((d as u8) as i8 == d) by (bit_vector);
}

/// Where a writer at `b` put a string (followed by anything), a reader at
/// `b`'s end finds its length and its bytes, which are valid UTF-8 and decode
/// to nothing but the string, and ends where the writer ended.
pub proof fn lemma_string_round_trip(b: Seq<u8>, s: Seq<char>, rest: Seq<u8>)
    requires
        encode_utf8(s).len() + 1 < 4294967296,
    ensures
        ({
            let e = encode_utf8(s);
            let w = padded(b, 4) + le32(((e.len() + 1) % 4294967296) as u32) + e + seq![0u8];
            let d = w + rest;
            let p = aligned(b.len() as int, 4);
            let q = p + 4;
            let n = from_le32(d.subrange(p, q)) as int;
            &&& n == e.len() + 1
            &&& q + n == w.len() && q + n <= d.len()
            &&& d.subrange(q, q + n - 1) == e
            &&& valid_utf8(e)
            &&& forall|t: Seq<char>| encode_utf8(t) == e ==> t == s
        }),
{
    let e = encode_utf8(s);
    let len = ((e.len() + 1) % 4294967296) as u32;
    assert(len == e.len() + 1);
    lemma_u32_round_trip(b, len, e + seq![0u8] + rest);
    let w = padded(b, 4) + le32(len) + e + seq![0u8];
    let p = aligned(b.len() as int, 4);
    assert(w + rest =~= (padded(b, 4) + le32(len)) + (e + seq![0u8] + rest));
    assert((w + rest).subrange(p + 4, p + 4 + e.len()) =~= e);
    vstd::utf8::encode_utf8_valid_utf8(s);
    assert forall|t: Seq<char>| encode_utf8(t) == e implies t == s by {
        vstd::utf8::encode_utf8_decode_utf8(t);
        vstd::utf8::encode_utf8_decode_utf8(s);
    }
}

/// Booleans travel as one byte and come back.
pub proof fn lemma_bool_round_trip(v: bool)
    ensures
        ((if v { 1u8 } else { 0u8 }) != 0) == v,
{
}

} // verus!
