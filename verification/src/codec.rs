//! The framed binary mapping container.
//!
//! Big-endian throughout.  A `str16` is a `u16` byte length followed by
//! exactly that many bytes of UTF-8.  The stream is a magic header, a
//! `u32` version, a `str16` compression identifier, and then the class
//! groups, possibly wrapped in a compressed frame.

use vstd::prelude::*;
use vstd::string::StrSliceExecFns;
use vstd::string::StringExecFns;
use vstd::utf8::{valid_utf8, decode_utf8, encode_utf8};
use vstd::slice::slice_subrange;

use crate::names::{wf_class_chars, wf_member_chars, JavaClass, FieldData, FieldDataV,
    NameParseError};
use crate::descriptor::{valid_sig, MethodData, MethodDataV, MethodSignature,
    MethodDescriptorParseError};
use crate::store::{StoreV, insert_assoc, MappingsBuilder, MappingsSnapshot, SnapshotV};

verus! {

broadcast use vstd::utf8::encode_utf8_decode_utf8, vstd::utf8::encode_utf8_valid_utf8,
    vstd::string::group_string_axioms;

// ---------------------------------------------------------------------
// Big-endian primitives
// ---------------------------------------------------------------------
/// Two big-endian bytes of `x`.
pub open spec fn be16(x: int) -> Seq<u8> {
    seq![((x / 0x100) % 0x100) as u8, (x % 0x100) as u8]
}

/// Four big-endian bytes of `x`.
pub open spec fn be32(x: int) -> Seq<u8> {
    seq![
        ((x / 0x1000000) % 0x100) as u8,
        ((x / 0x10000) % 0x100) as u8,
        ((x / 0x100) % 0x100) as u8,
        (x % 0x100) as u8,
    ]
}

/// Eight big-endian bytes of `x`.
pub open spec fn be64(x: int) -> Seq<u8> {
    seq![
        ((x / 0x100000000000000) % 0x100) as u8,
        ((x / 0x1000000000000) % 0x100) as u8,
        ((x / 0x10000000000) % 0x100) as u8,
        ((x / 0x100000000) % 0x100) as u8,
        ((x / 0x1000000) % 0x100) as u8,
        ((x / 0x10000) % 0x100) as u8,
        ((x / 0x100) % 0x100) as u8,
        (x % 0x100) as u8,
    ]
}

/// The value two big-endian bytes hold.
pub open spec fn from_be16(b0: u8, b1: u8) -> int {
    b0 * 0x100 + b1
}

pub proof fn lemma_be16_roundtrip(x: int)
    requires
        0 <= x < 0x10000,
    ensures
        from_be16(be16(x)[0], be16(x)[1]) == x,
{
    assert(x / 0x100 < 0x100) by (nonlinear_arith)
        requires 0 <= x < 0x10000;
    assert(x == 0x100 * (x / 0x100) + x % 0x100) by (nonlinear_arith);
}

/// The value four big-endian bytes hold.
pub open spec fn from_be32(b0: u8, b1: u8, b2: u8, b3: u8) -> int {
    ((b0 * 0x100 + b1) * 0x100 + b2) * 0x100 + b3
}

pub proof fn lemma_be32_roundtrip(x: int)
    requires
        0 <= x < 0x100000000,
    ensures
        from_be32(be32(x)[0], be32(x)[1], be32(x)[2], be32(x)[3]) == x,
{
    let c0 = (x / 0x1000000) % 0x100;
    let c1 = (x / 0x10000) % 0x100;
    let c2 = (x / 0x100) % 0x100;
    let c3 = x % 0x100;
    assert(((c0 * 0x100 + c1) * 0x100 + c2) * 0x100 + c3 == x) by (nonlinear_arith)
        requires
            0 <= x < 0x100000000,
            c0 == (x / 0x1000000) % 0x100,
            c1 == (x / 0x10000) % 0x100,
            c2 == (x / 0x100) % 0x100,
            c3 == x % 0x100,
    ;
}

/// The value eight big-endian bytes hold.
pub open spec fn from_be64(b: Seq<u8>) -> int {
    ((((((b[0] * 0x100 + b[1]) * 0x100 + b[2]) * 0x100 + b[3]) * 0x100 + b[4]) * 0x100 + b[5])
        * 0x100 + b[6]) * 0x100 + b[7]
}

pub proof fn lemma_be64_roundtrip(x: int)
    requires
        0 <= x < 0x10000000000000000,
    ensures
        from_be64(be64(x)) == x,
{
    let y1 = x / 0x100;
    let y2 = x / 0x10000;
    let y3 = x / 0x1000000;
    let y4 = x / 0x100000000;
    let y5 = x / 0x10000000000;
    let y6 = x / 0x1000000000000;
    let y7 = x / 0x100000000000000;
    vstd::arithmetic::div_mod::lemma_div_denominator(x, 0x100, 0x100);
    vstd::arithmetic::div_mod::lemma_div_denominator(x, 0x10000, 0x100);
    vstd::arithmetic::div_mod::lemma_div_denominator(x, 0x1000000, 0x100);
    vstd::arithmetic::div_mod::lemma_div_denominator(x, 0x100000000, 0x100);
    vstd::arithmetic::div_mod::lemma_div_denominator(x, 0x10000000000, 0x100);
    vstd::arithmetic::div_mod::lemma_div_denominator(x, 0x1000000000000, 0x100);
    assert(y2 == y1 / 0x100);
    assert(y3 == y2 / 0x100);
    assert(y4 == y3 / 0x100);
    assert(y5 == y4 / 0x100);
    assert(y6 == y5 / 0x100);
    assert(y7 == y6 / 0x100);
    vstd::arithmetic::div_mod::lemma_fundamental_div_mod(x, 0x100);
    vstd::arithmetic::div_mod::lemma_fundamental_div_mod(y1, 0x100);
    vstd::arithmetic::div_mod::lemma_fundamental_div_mod(y2, 0x100);
    vstd::arithmetic::div_mod::lemma_fundamental_div_mod(y3, 0x100);
    vstd::arithmetic::div_mod::lemma_fundamental_div_mod(y4, 0x100);
    vstd::arithmetic::div_mod::lemma_fundamental_div_mod(y5, 0x100);
    vstd::arithmetic::div_mod::lemma_fundamental_div_mod(y6, 0x100);
    vstd::arithmetic::div_mod::lemma_fundamental_div_mod(y7, 0x100);
    assert(y7 < 0x100);
    assert(y7 % 0x100 == y7) by {
        vstd::arithmetic::div_mod::lemma_small_mod(y7 as nat, 0x100);
    }
}

/// A length-prefixed UTF-8 string.
pub open spec fn enc_str(s: Seq<char>) -> Seq<u8> {
    be16(encode_utf8(s).len() as int) + encode_utf8(s)
}

/// A string fits the `str16` frame when its UTF-8 form is at most
/// `0xFFFF` bytes.
pub open spec fn str16_fits(s: Seq<char>) -> bool {
    encode_utf8(s).len() <= 0xFFFF
}

// ---------------------------------------------------------------------
// Decode specs: each reads at a position and yields value and new
// position.
// ---------------------------------------------------------------------
pub open spec fn dec_u16(b: Seq<u8>, p: int) -> Option<(int, int)> {
    if 0 <= p && p + 2 <= b.len() {
        Some((from_be16(b[p], b[p + 1]), p + 2))
    } else {
        None
    }
}

pub open spec fn dec_u32(b: Seq<u8>, p: int) -> Option<(int, int)> {
    if 0 <= p && p + 4 <= b.len() {
        Some((from_be32(b[p], b[p + 1], b[p + 2], b[p + 3]), p + 4))
    } else {
        None
    }
}

pub open spec fn dec_u64(b: Seq<u8>, p: int) -> Option<(int, int)> {
    if 0 <= p && p + 8 <= b.len() {
        Some((from_be64(b.subrange(p, p + 8)), p + 8))
    } else {
        None
    }
}

/// Decode a `str16`; `None` on truncation, `Some(Err)` on bytes that
/// are not UTF-8.
pub open spec fn dec_str(b: Seq<u8>, p: int) -> Option<Result<(Seq<char>, int), ()>> {
    match dec_u16(b, p) {
        None => None,
        Some((n, p2)) => if p2 + n <= b.len() {
            if valid_utf8(b.subrange(p2, p2 + n)) {
                Some(Ok((decode_utf8(b.subrange(p2, p2 + n)), p2 + n)))
            } else {
                Some(Err(()))
            }
        } else {
            None
        },
    }
}

// ---------------------------------------------------------------------
// The frame is lossless at the primitive layer: a value or string the
// encoder writes reads back exactly, wherever in a stream it sits.
// These laws tie the writing and reading specs of the container to one
// another; the container-level round trip is exercised on whole stores
// by the tests.
// ---------------------------------------------------------------------
/// A `u32` written big-endian reads back as itself.
pub proof fn lemma_dec_u32_enc(b: Seq<u8>, p: int, x: int)
    requires
        0 <= x < 0x100000000,
        0 <= p,
        p + 4 <= b.len(),
        b.subrange(p, p + 4) == be32(x),
    ensures
        dec_u32(b, p) == Some((x, p + 4)),
{
    assert(b[p] == be32(x)[0]);
    assert(b[p + 1] == be32(x)[1]);
    assert(b[p + 2] == be32(x)[2]);
    assert(b[p + 3] == be32(x)[3]);
    lemma_be32_roundtrip(x);
}

/// A `u64` written big-endian reads back as itself.
pub proof fn lemma_dec_u64_enc(b: Seq<u8>, p: int, x: int)
    requires
        0 <= x < 0x10000000000000000,
        0 <= p,
        p + 8 <= b.len(),
        b.subrange(p, p + 8) == be64(x),
    ensures
        dec_u64(b, p) == Some((x, p + 8)),
{
    lemma_be64_roundtrip(x);
}

/// A `str16` written by the encoder reads back as the same characters.
pub proof fn lemma_dec_str_enc(b: Seq<u8>, p: int, s: Seq<char>)
    requires
        str16_fits(s),
        0 <= p,
        p + enc_str(s).len() <= b.len(),
        b.subrange(p, p + enc_str(s).len()) == enc_str(s),
    ensures
        dec_str(b, p) == Some(Ok::<(Seq<char>, int), ()>((s, p + enc_str(s).len()))),
{
    let u = encode_utf8(s);
    let n = u.len() as int;
    assert(b[p] == enc_str(s)[0]);
    assert(b[p + 1] == enc_str(s)[1]);
    assert(enc_str(s)[0] == be16(n)[0]);
    assert(enc_str(s)[1] == be16(n)[1]);
    lemma_be16_roundtrip(n);
    assert(dec_u16(b, p) == Some((n, p + 2)));
    assert(b.subrange(p + 2, p + 2 + n) =~= u) by {
        assert forall|i: int| 0 <= i < n implies b.subrange(p + 2, p + 2 + n)[i] == u[i] by {
            assert(b[p + 2 + i] == enc_str(s)[2 + i]);
            assert(enc_str(s)[2 + i] == u[i]);
        }
    }
    vstd::utf8::encode_utf8_valid_utf8(s);
    vstd::utf8::encode_utf8_decode_utf8(s);
}

// ---------------------------------------------------------------------
// Errors and compression formats
// ---------------------------------------------------------------------
/// The compression wrappers the container format recognizes.
#[derive(Copy, Clone, PartialEq, Eq, Structural, Debug)]
pub enum MappingsCompressionFormat {
    Lz4,
    Lzma2,
    Gzip,
    Uncompressed,
}

/// The identifier a compression format is written as.
pub open spec fn spec_compression_id(f: MappingsCompressionFormat) -> Seq<char> {
    match f {
        MappingsCompressionFormat::Lz4 => "lz4-frame"@,
        MappingsCompressionFormat::Lzma2 => "lzma2"@,
        MappingsCompressionFormat::Gzip => "gzip"@,
        MappingsCompressionFormat::Uncompressed => ""@,
    }
}

/// The format an identifier denotes, if it is recognized.
pub open spec fn spec_compression_of(s: Seq<char>) -> Option<MappingsCompressionFormat> {
    if s == "lz4-frame"@ {
        Some(MappingsCompressionFormat::Lz4)
    } else if s == "lzma2"@ {
        Some(MappingsCompressionFormat::Lzma2)
    } else if s == "gzip"@ {
        Some(MappingsCompressionFormat::Gzip)
    } else if s == ""@ {
        Some(MappingsCompressionFormat::Uncompressed)
    } else {
        None
    }
}

impl MappingsCompressionFormat {
    /// The identifier this format is written as.
    pub fn id(&self) -> (r: &'static str)
        ensures
            r@ == spec_compression_id(*self),
    {
        match *self {
            MappingsCompressionFormat::Lz4 => "lz4-frame",
            MappingsCompressionFormat::Lzma2 => "lzma2",
            MappingsCompressionFormat::Gzip => "gzip",
            MappingsCompressionFormat::Uncompressed => "",
        }
    }

    /// Recognize an identifier; anything else is outside the standard.
    pub fn parse(id: &str) -> (r: Result<MappingsCompressionFormat, BinaryMappingError>)
        ensures
            match spec_compression_of(id@) {
                Some(f) => r matches Ok(g) && g == f,
                None => r matches Err(BinaryMappingError::ForbiddenCompression(s)) && s@ == id@,
            },
    {
        let candidate = String::from_str(id);
        if candidate == String::from_str("lz4-frame") {
            Ok(MappingsCompressionFormat::Lz4)
        } else if candidate == String::from_str("lzma2") {
            Ok(MappingsCompressionFormat::Lzma2)
        } else if candidate == String::from_str("gzip") {
            Ok(MappingsCompressionFormat::Gzip)
        } else if candidate == String::from_str("") {
            Ok(MappingsCompressionFormat::Uncompressed)
        } else {
            Err(BinaryMappingError::ForbiddenCompression(candidate))
        }
    }
}

/// Failure of reading the binary container.
#[derive(Debug)]
pub enum BinaryMappingError {
    UnexpectedEof,
    InvalidUtf8,
    /// The identifier is not part of the format.
    ForbiddenCompression(String),
    /// Recognized, but this implementation cannot unwrap it.
    UnsupportedCompression(MappingsCompressionFormat),
    InvalidName(NameParseError),
    UnchangedMethod(MethodData),
    UnchangedField(FieldData),
    InvalidMethodDescriptor(MethodDescriptorParseError),
    UnexpectedHeader(Vec<u8>),
    UnexpectedVersion(u32),
    UnexpectedTrailing(Vec<u8>),
    /// The compressed payload would not decompress.
    CompressionFailure,
}

/// The kind of a binary decoding failure, for contracts.
pub enum BinErrKind {
    Eof,
    Utf8,
    Header,
    Version,
    Forbidden,
    Unsupported,
    BadName,
    BadDescriptor,
    UnchangedField(FieldDataV),
    UnchangedMethod(MethodDataV),
    Trailing,
    Decompress,
}

/// The kind a concrete error belongs to.
pub open spec fn bin_err_kind(e: BinaryMappingError) -> BinErrKind {
    match e {
        BinaryMappingError::UnexpectedEof => BinErrKind::Eof,
        BinaryMappingError::InvalidUtf8 => BinErrKind::Utf8,
        BinaryMappingError::ForbiddenCompression(_) => BinErrKind::Forbidden,
        BinaryMappingError::UnsupportedCompression(_) => BinErrKind::Unsupported,
        BinaryMappingError::InvalidName(_) => BinErrKind::BadName,
        BinaryMappingError::UnchangedMethod(m) => BinErrKind::UnchangedMethod(m@),
        BinaryMappingError::UnchangedField(f) => BinErrKind::UnchangedField(f@),
        BinaryMappingError::InvalidMethodDescriptor(_) => BinErrKind::BadDescriptor,
        BinaryMappingError::UnexpectedHeader(_) => BinErrKind::Header,
        BinaryMappingError::UnexpectedVersion(_) => BinErrKind::Version,
        BinaryMappingError::UnexpectedTrailing(_) => BinErrKind::Trailing,
        BinaryMappingError::CompressionFailure => BinErrKind::Decompress,
    }
}

// ---------------------------------------------------------------------
// Simple byte encoder and decoder
// ---------------------------------------------------------------------
/// Appends big-endian primitives to a byte buffer.
#[derive(Debug)]
pub struct SimpleEncoder(pub Vec<u8>);

impl SimpleEncoder {
    pub fn write_u16(&mut self, value: u16)
        ensures
            final(self).0@ == old(self).0@ + be16(value as int),
    {
        let ghost b0 = self.0@;
        self.0.push(((value / 0x100) % 0x100) as u8);
        self.0.push((value % 0x100) as u8);
        proof {
            assert(self.0@ =~= b0 + be16(value as int));
        }
    }

    pub fn write_u32(&mut self, value: u32)
        ensures
            final(self).0@ == old(self).0@ + be32(value as int),
    {
        let ghost b0 = self.0@;
        self.0.push(((value / 0x1000000) % 0x100) as u8);
        self.0.push(((value / 0x10000) % 0x100) as u8);
        self.0.push(((value / 0x100) % 0x100) as u8);
        self.0.push((value % 0x100) as u8);
        proof {
            assert(self.0@ =~= b0 + be32(value as int));
        }
    }

    pub fn write_u64(&mut self, value: u64)
        ensures
            final(self).0@ == old(self).0@ + be64(value as int),
    {
        let ghost b0 = self.0@;
        self.0.push(((value / 0x100000000000000) % 0x100) as u8);
        self.0.push(((value / 0x1000000000000) % 0x100) as u8);
        self.0.push(((value / 0x10000000000) % 0x100) as u8);
        self.0.push(((value / 0x100000000) % 0x100) as u8);
        self.0.push(((value / 0x1000000) % 0x100) as u8);
        self.0.push(((value / 0x10000) % 0x100) as u8);
        self.0.push(((value / 0x100) % 0x100) as u8);
        self.0.push((value % 0x100) as u8);
        proof {
            assert(self.0@ =~= b0 + be64(value as int));
        }
    }

    /// Write a `str16`: `u16` byte length, then the UTF-8 bytes.
    pub fn write_string(&mut self, value: &str)
        requires
            str16_fits(value@),
        ensures
            final(self).0@ == old(self).0@ + enc_str(value@),
    {
        let ghost start = self.0@;
        let bytes = value.as_bytes();
        let len = bytes.len();
        self.write_u16(len as u16);
        let ghost mid = self.0@;
        let mut i: usize = 0;
        while i < len
            invariant
                i <= len,
                len == bytes@.len(),
                bytes@ == encode_utf8(value@),
                self.0@ == mid + bytes@.take(i as int),
            decreases len - i,
        {
            let byte = bytes[i];
            self.0.push(byte);
            proof {
                assert(self.0@ =~= mid + bytes@.take(i + 1));
            }
            i = i + 1;
        }
        proof {
            assert(bytes@.take(len as int) =~= bytes@);
            assert(self.0@ =~= start + enc_str(value@));
        }
    }
}

/// Where the header that starts at `p` ends: one past the first zero
/// byte, or the end of the buffer.
pub open spec fn nullterm_end(b: Seq<u8>, p: int) -> int
    decreases b.len() - p,
{
    if p < 0 || p >= b.len() {
        b.len() as int
    } else if b[p] == 0 {
        p + 1
    } else {
        nullterm_end(b, p + 1)
    }
}

pub proof fn lemma_nullterm_end(b: Seq<u8>, p: int)
    requires
        0 <= p <= b.len(),
    ensures
        p <= nullterm_end(b, p) <= b.len(),
        p < b.len() ==> p < nullterm_end(b, p),
    decreases b.len() - p,
{
    if p < b.len() && b[p] != 0 {
        lemma_nullterm_end(b, p + 1);
    }
}

/// Reads big-endian primitives from an in-memory byte buffer.
#[derive(Debug)]
pub struct SimpleDecoder {
    pub data: Vec<u8>,
    pub pos: usize,
}

impl SimpleDecoder {
    /// The cursor is inside the buffer.
    pub open spec fn wf(&self) -> bool {
        self.pos <= self.data@.len()
    }

    pub fn new(data: Vec<u8>) -> (r: SimpleDecoder)
        ensures
            r.data@ == data@,
            r.pos == 0,
            r.wf(),
    {
        SimpleDecoder { data, pos: 0 }
    }

    /// The underlying buffer, cursor discarded.
    pub fn into_inner(self) -> (r: Vec<u8>)
        ensures
            r@ == self.data@,
    {
        self.data
    }

    /// How many bytes remain.
    pub fn remaining(&self) -> (r: usize)
        requires
            self.wf(),
        ensures
            r == self.data@.len() - self.pos,
    {
        self.data.len() - self.pos
    }

    pub fn read_u16(&mut self) -> (r: Result<u16, BinaryMappingError>)
        requires
            old(self).wf(),
        ensures
            final(self).data == old(self).data,
            final(self).wf(),
            match dec_u16(old(self).data@, old(self).pos as int) {
                Some((v, p2)) => r matches Ok(x) && x == v && final(self).pos == p2,
                None => r matches Err(BinaryMappingError::UnexpectedEof) && final(self).pos == old(
                    self,
                ).pos,
            },
    {
        if self.data.len() - self.pos < 2 {
            return Err(BinaryMappingError::UnexpectedEof);
        }
        let b0 = self.data[self.pos];
        let b1 = self.data[self.pos + 1];
        let v = (b0 as u16) * 0x100 + (b1 as u16);
        self.pos = self.pos + 2;
        Ok(v)
    }

    pub fn read_u32(&mut self) -> (r: Result<u32, BinaryMappingError>)
        requires
            old(self).wf(),
        ensures
            final(self).data == old(self).data,
            final(self).wf(),
            match dec_u32(old(self).data@, old(self).pos as int) {
                Some((v, p2)) => r matches Ok(x) && x == v && final(self).pos == p2,
                None => r matches Err(BinaryMappingError::UnexpectedEof) && final(self).pos == old(
                    self,
                ).pos,
            },
    {
        if self.data.len() - self.pos < 4 {
            return Err(BinaryMappingError::UnexpectedEof);
        }
        let b0 = self.data[self.pos];
        let b1 = self.data[self.pos + 1];
        let b2 = self.data[self.pos + 2];
        let b3 = self.data[self.pos + 3];
        let v = (((b0 as u32) * 0x100 + (b1 as u32)) * 0x100 + (b2 as u32)) * 0x100 + (b3 as u32);
        self.pos = self.pos + 4;
        Ok(v)
    }

    pub fn read_u64(&mut self) -> (r: Result<u64, BinaryMappingError>)
        requires
            old(self).wf(),
        ensures
            final(self).data == old(self).data,
            final(self).wf(),
            match dec_u64(old(self).data@, old(self).pos as int) {
                Some((v, p2)) => r matches Ok(x) && x == v && final(self).pos == p2,
                None => r matches Err(BinaryMappingError::UnexpectedEof) && final(self).pos == old(
                    self,
                ).pos,
            },
    {
        if self.data.len() - self.pos < 8 {
            return Err(BinaryMappingError::UnexpectedEof);
        }
        let n = self.data.len();
        let mut v: u64 = 0;
        let mut i: usize = 0;
        while i < 8
            invariant
                i <= 8,
                old(self) == self,
                self.wf(),
                n == self.data@.len(),
                self.pos + 8 <= n,
                v == partial_be(self.data@, self.pos as int, i as int),
                v < pow256(i as int),
            decreases 8 - i,
        {
            proof {
                reveal_with_fuel(pow256, 10);
                lemma_partial_be_pow(self.data@, self.pos as int, i + 1);
                lemma_pow256_mono(i + 1, 8);
            }
            let b = self.data[self.pos + i];
            v = v * 0x100 + (b as u64);
            i = i + 1;
        }
        proof {
            lemma_partial_be_is_from_be64(self.data@, self.pos as int);
        }
        self.pos = self.pos + 8;
        Ok(v)
    }

    /// Read a `str16`, validating the UTF-8.
    pub fn read_string(&mut self) -> (r: Result<String, BinaryMappingError>)
        requires
            old(self).wf(),
        ensures
            final(self).data == old(self).data,
            final(self).wf(),
            match dec_str(old(self).data@, old(self).pos as int) {
                None => r matches Err(BinaryMappingError::UnexpectedEof),
                Some(Err(_)) => r matches Err(BinaryMappingError::InvalidUtf8),
                Some(Ok((s, p2))) => r matches Ok(x) && x@ == s && final(self).pos == p2,
            },
    {
        let n = match self.read_u16() {
            Ok(n) => n,
            Err(e) => {
                return Err(e);
            },
        };
        let len = n as usize;
        if self.data.len() - self.pos < len {
            return Err(BinaryMappingError::UnexpectedEof);
        }
        let sub = slice_subrange(self.data.as_slice(), self.pos, self.pos + len);
        match bytes_to_string(sub) {
            Some(s) => {
                proof {
                    assert(encode_utf8(s@) == sub@);
                    assert(decode_utf8(encode_utf8(s@)) == s@);
                }
                self.pos = self.pos + len;
                Ok(s)
            },
            None => Err(BinaryMappingError::InvalidUtf8),
        }
    }

    /// Read exactly `byte_size` bytes as UTF-8 text.
    pub fn read_raw_string(&mut self, byte_size: usize) -> (r: Result<String, BinaryMappingError>)
        requires
            old(self).wf(),
        ensures
            final(self).data == old(self).data,
            final(self).wf(),
            r is Ok <==> old(self).pos + byte_size <= old(self).data@.len() && valid_utf8(
                old(self).data@.subrange(old(self).pos as int, old(self).pos + byte_size),
            ),
            r is Ok ==> final(self).pos == old(self).pos + byte_size,
            r matches Ok(s) ==> encode_utf8(s@) == old(self).data@.subrange(
                old(self).pos as int,
                old(self).pos + byte_size,
            ),
            old(self).pos + byte_size > old(self).data@.len() ==> r matches Err(
                BinaryMappingError::UnexpectedEof,
            ),
            (old(self).pos + byte_size <= old(self).data@.len() && !valid_utf8(
                old(self).data@.subrange(old(self).pos as int, old(self).pos + byte_size),
            )) ==> r matches Err(BinaryMappingError::InvalidUtf8),
    {
        if self.data.len() - self.pos < byte_size {
            return Err(BinaryMappingError::UnexpectedEof);
        }
        let sub = slice_subrange(self.data.as_slice(), self.pos, self.pos + byte_size);
        match bytes_to_string(sub) {
            Some(s) => {
                self.pos = self.pos + byte_size;
                Ok(s)
            },
            None => Err(BinaryMappingError::InvalidUtf8),
        }
    }

    /// Read a copy of the next `amount` bytes.
    pub fn read_bytes(&mut self, amount: usize) -> (r: Result<Vec<u8>, BinaryMappingError>)
        requires
            old(self).wf(),
        ensures
            final(self).data == old(self).data,
            final(self).wf(),
            r is Ok <==> old(self).pos + amount <= old(self).data@.len(),
            r matches Ok(v) ==> v@ == old(self).data@.subrange(
                old(self).pos as int,
                old(self).pos + amount,
            ) && final(self).pos == old(self).pos + amount,
            r is Err ==> final(self).pos == old(self).pos && (r matches Err(
                BinaryMappingError::UnexpectedEof,
            )),
    {
        if self.data.len() - self.pos < amount {
            return Err(BinaryMappingError::UnexpectedEof);
        }
        let n = self.data.len();
        let mut out: Vec<u8> = Vec::new();
        proof {
            assert(out@ =~= self.data@.subrange(self.pos as int, self.pos as int));
        }
        let mut i: usize = 0;
        while i < amount
            invariant
                i <= amount,
                old(self) == self,
                self.wf(),
                n == self.data@.len(),
                self.pos + amount <= n,
                out@ == self.data@.subrange(self.pos as int, self.pos + i),
            decreases amount - i,
        {
            let b = self.data[self.pos + i];
            out.push(b);
            proof {
                assert(out@ =~= self.data@.subrange(self.pos as int, self.pos + i + 1));
            }
            i = i + 1;
        }
        self.pos = self.pos + amount;
        Ok(out)
    }

    /// Read through the first zero byte, included, or to the end of the
    /// buffer.
    pub fn read_nullterm(&mut self) -> (r: Vec<u8>)
        requires
            old(self).wf(),
        ensures
            final(self).data == old(self).data,
            final(self).wf(),
            final(self).pos == nullterm_end(old(self).data@, old(self).pos as int),
            r@ == old(self).data@.subrange(old(self).pos as int, final(self).pos as int),
    {
        proof {
            lemma_nullterm_end(self.data@, self.pos as int);
        }
        let ghost target = nullterm_end(self.data@, self.pos as int);
        let start = self.pos;
        let mut out: Vec<u8> = Vec::new();
        proof {
            assert(out@ =~= self.data@.subrange(start as int, start as int));
        }
        loop
            invariant_except_break
                nullterm_end(self.data@, self.pos as int) == target,
            invariant
                start <= self.pos <= self.data@.len(),
                old(self).data == self.data,
                start == old(self).pos,
                target == nullterm_end(self.data@, start as int),
                out@ == self.data@.subrange(start as int, self.pos as int),
            ensures
                old(self).data == self.data,
                start == old(self).pos,
                self.pos == target,
                out@ == self.data@.subrange(start as int, self.pos as int),
            decreases self.data@.len() - self.pos,
        {
            proof {
                lemma_nullterm_end(self.data@, self.pos as int);
            }
            if self.pos == self.data.len() {
                proof {
                    assert(target == self.pos as int);
                }
                break;
            }
            let ghost oldpos = self.pos as int;
            let b = self.data[self.pos];
            out.push(b);
            self.pos = self.pos + 1;
            proof {
                assert(out@ =~= self.data@.subrange(start as int, self.pos as int));
                assert(nullterm_end(self.data@, oldpos) == target);
                assert(self.data@[oldpos] == b);
                if b == 0 {
                    assert(nullterm_end(self.data@, oldpos) == oldpos + 1);
                } else {
                    assert(nullterm_end(self.data@, oldpos) == nullterm_end(
                        self.data@,
                        oldpos + 1,
                    ));
                }
            }
            if b == 0 {
                break;
            }
        }
        out
    }
}

/// The big-endian value of the first `i` bytes at `p`.
pub open spec fn partial_be(b: Seq<u8>, p: int, i: int) -> int
    decreases i,
{
    if i <= 0 {
        0
    } else {
        partial_be(b, p, i - 1) * 0x100 + b[p + i - 1]
    }
}

pub proof fn lemma_pow256_mono(a: int, b: int)
    requires
        0 <= a <= b,
    ensures
        1 <= pow256(a) <= pow256(b),
    decreases b,
{
    if a < b {
        lemma_pow256_mono(a, b - 1);
    } else {
        lemma_pow256_small(a);
    }
}

pub proof fn lemma_pow256_small(a: int)
    ensures
        pow256(a) >= 1,
    decreases a,
{
    if a > 0 {
        lemma_pow256_small(a - 1);
    }
}

/// `0x100` to the `i`.
pub open spec fn pow256(i: int) -> int
    decreases i,
{
    if i <= 0 {
        1
    } else {
        0x100 * pow256(i - 1)
    }
}

pub proof fn lemma_partial_be_pow(b: Seq<u8>, p: int, i: int)
    requires
        0 <= i,
    ensures
        0 <= partial_be(b, p, i) < pow256(i),
    decreases i,
{
    if i > 0 {
        lemma_partial_be_pow(b, p, i - 1);
        assert(partial_be(b, p, i) == partial_be(b, p, i - 1) * 0x100 + b[p + i - 1]);
        assert(partial_be(b, p, i - 1) * 0x100 <= (pow256(i - 1) - 1) * 0x100)
            by (nonlinear_arith)
            requires
                partial_be(b, p, i - 1) <= pow256(i - 1) - 1,
        ;
        assert(partial_be(b, p, i - 1) * 0x100 >= 0) by (nonlinear_arith)
            requires
                partial_be(b, p, i - 1) >= 0,
        ;
    }
}

pub proof fn lemma_partial_be_is_from_be64(b: Seq<u8>, p: int)
    requires
        0 <= p,
        p + 8 <= b.len(),
    ensures
        partial_be(b, p, 8) == from_be64(b.subrange(p, p + 8)),
{
    reveal_with_fuel(partial_be, 10);
    let s = b.subrange(p, p + 8);
    assert(s[0] == b[p]);
    assert(s[1] == b[p + 1]);
    assert(s[2] == b[p + 2]);
    assert(s[3] == b[p + 3]);
    assert(s[4] == b[p + 4]);
    assert(s[5] == b[p + 5]);
    assert(s[6] == b[p + 6]);
    assert(s[7] == b[p + 7]);
}

// ---------------------------------------------------------------------
// Class groups
// ---------------------------------------------------------------------
/// The entries of one class, as the container frames them.
#[derive(Debug)]
pub struct ClassGroup {
    pub original: JavaClass,
    pub renamed: Option<JavaClass>,
    pub methods: Vec<(String, String, MethodSignature)>,
    pub fields: Vec<(String, String)>,
}

/// Ghost image of a [`ClassGroup`]: a method entry is original name,
/// revised name and original descriptor.
#[verifier::ext_equal]
pub struct GroupV {
    pub original: Seq<char>,
    pub renamed: Option<Seq<char>>,
    pub methods: Seq<(Seq<char>, Seq<char>, Seq<char>)>,
    pub fields: Seq<(Seq<char>, Seq<char>)>,
}

impl View for ClassGroup {
    type V = GroupV;

    open spec fn view(&self) -> GroupV {
        GroupV {
            original: self.original@,
            renamed: match self.renamed {
                Some(ref c) => Some(c@),
                None => None,
            },
            methods: self.methods@.map_values(
                |m: (String, String, MethodSignature)| (m.0@, m.1@, m.2@),
            ),
            fields: self.fields@.map_values(|f: (String, String)| (f.0@, f.1@)),
        }
    }
}

/// One group per class-table entry, in order, members still empty.
pub open spec fn groups_of_classes(cs: Seq<(Seq<char>, Seq<char>)>) -> Seq<GroupV> {
    cs.map_values(
        |p: (Seq<char>, Seq<char>)|
            GroupV { original: p.0, renamed: Some(p.1), methods: Seq::empty(), fields: Seq::empty() },
    )
}

/// The first group of this class, if any.
pub open spec fn find_group(gs: Seq<GroupV>, c: Seq<char>) -> Option<int>
    decreases gs.len(),
{
    if gs.len() == 0 {
        None
    } else if gs[0].original == c {
        Some(0)
    } else {
        match find_group(gs.drop_first(), c) {
            Some(i) => Some(i + 1),
            None => None,
        }
    }
}

/// Attach one changed field to its class's group, creating the group
/// at the end when the class is new.
pub open spec fn add_field_to_groups(
    gs: Seq<GroupV>,
    cls: Seq<char>,
    entry: (Seq<char>, Seq<char>),
) -> Seq<GroupV> {
    match find_group(gs, cls) {
        Some(i) => gs.update(
            i,
            GroupV {
                original: gs[i].original,
                renamed: gs[i].renamed,
                methods: gs[i].methods,
                fields: gs[i].fields.push(entry),
            },
        ),
        None => gs.push(
            GroupV { original: cls, renamed: None, methods: Seq::empty(), fields: seq![entry] },
        ),
    }
}

/// Attach one changed method to its class's group.
pub open spec fn add_method_to_groups(
    gs: Seq<GroupV>,
    cls: Seq<char>,
    entry: (Seq<char>, Seq<char>, Seq<char>),
) -> Seq<GroupV> {
    match find_group(gs, cls) {
        Some(i) => gs.update(
            i,
            GroupV {
                original: gs[i].original,
                renamed: gs[i].renamed,
                methods: gs[i].methods.push(entry),
                fields: gs[i].fields,
            },
        ),
        None => gs.push(
            GroupV { original: cls, renamed: None, methods: seq![entry], fields: Seq::empty() },
        ),
    }
}

/// Fold the snapshot's fields into the groups; an entry whose name did
/// not change is left out.
pub open spec fn add_fields_to_groups(gs: Seq<GroupV>, fs: Seq<(FieldDataV, FieldDataV)>) -> Seq<
    GroupV,
>
    decreases fs.len(),
{
    if fs.len() == 0 {
        gs
    } else {
        let g2 = if fs[0].0.name == fs[0].1.name {
            gs
        } else {
            add_field_to_groups(gs, fs[0].0.class, (fs[0].0.name, fs[0].1.name))
        };
        add_fields_to_groups(g2, fs.drop_first())
    }
}

/// Fold the snapshot's methods into the groups; an entry whose name
/// did not change is left out.
pub open spec fn add_methods_to_groups(gs: Seq<GroupV>, ms: Seq<(MethodDataV, MethodDataV)>) -> Seq<
    GroupV,
>
    decreases ms.len(),
{
    if ms.len() == 0 {
        gs
    } else {
        let g2 = if ms[0].0.name == ms[0].1.name {
            gs
        } else {
            add_method_to_groups(gs, ms[0].0.class, (ms[0].0.name, ms[0].1.name, ms[0].0.descriptor))
        };
        add_methods_to_groups(g2, ms.drop_first())
    }
}

/// The groups a snapshot is framed as: its classes in order, then its
/// changed fields, then its changed methods.
pub open spec fn build_groups(s: SnapshotV) -> Seq<GroupV> {
    add_methods_to_groups(add_fields_to_groups(groups_of_classes(s.classes), s.fields), s.methods)
}

pub proof fn lemma_add_fields_snoc(
    gs: Seq<GroupV>,
    fs: Seq<(FieldDataV, FieldDataV)>,
    x: (FieldDataV, FieldDataV),
)
    ensures
        add_fields_to_groups(gs, fs.push(x)) == (if x.0.name == x.1.name {
            add_fields_to_groups(gs, fs)
        } else {
            add_field_to_groups(add_fields_to_groups(gs, fs), x.0.class, (x.0.name, x.1.name))
        }),
    decreases fs.len(),
{
    if fs.len() == 0 {
        assert(fs.push(x)[0] == x);
        assert(fs.push(x)[0].0.name == x.0.name);
        assert(fs.push(x)[0].1.name == x.1.name);
        assert(fs.push(x)[0].0.class == x.0.class);
        assert(fs.push(x).drop_first() =~= Seq::<(FieldDataV, FieldDataV)>::empty());
        let g2 = if x.0.name == x.1.name {
            gs
        } else {
            add_field_to_groups(gs, x.0.class, (x.0.name, x.1.name))
        };
        assert(add_fields_to_groups(gs, fs.push(x)) == add_fields_to_groups(
            g2,
            fs.push(x).drop_first(),
        ));
        assert(add_fields_to_groups(g2, fs.push(x).drop_first()) == g2);
        assert(add_fields_to_groups(gs, fs) == gs);
    } else {
        assert(fs.push(x)[0] == fs[0]);
        assert(fs.push(x)[0].0.name == fs[0].0.name);
        assert(fs.push(x)[0].1.name == fs[0].1.name);
        assert(fs.push(x)[0].0.class == fs[0].0.class);
        assert(fs.push(x).drop_first() =~= fs.drop_first().push(x));
        let g2 = if fs[0].0.name == fs[0].1.name {
            gs
        } else {
            add_field_to_groups(gs, fs[0].0.class, (fs[0].0.name, fs[0].1.name))
        };
        lemma_add_fields_snoc(g2, fs.drop_first(), x);
        assert(add_fields_to_groups(gs, fs.push(x)) == add_fields_to_groups(
            g2,
            fs.drop_first().push(x),
        ));
        assert(add_fields_to_groups(gs, fs) == add_fields_to_groups(g2, fs.drop_first()));
    }
}

pub proof fn lemma_add_methods_snoc(
    gs: Seq<GroupV>,
    ms: Seq<(MethodDataV, MethodDataV)>,
    x: (MethodDataV, MethodDataV),
)
    ensures
        add_methods_to_groups(gs, ms.push(x)) == (if x.0.name == x.1.name {
            add_methods_to_groups(gs, ms)
        } else {
            add_method_to_groups(
                add_methods_to_groups(gs, ms),
                x.0.class,
                (x.0.name, x.1.name, x.0.descriptor),
            )
        }),
    decreases ms.len(),
{
    if ms.len() == 0 {
        assert(ms.push(x)[0] == x);
        assert(ms.push(x)[0].0.name == x.0.name);
        assert(ms.push(x)[0].1.name == x.1.name);
        assert(ms.push(x)[0].0.class == x.0.class);
        assert(ms.push(x)[0].0.descriptor == x.0.descriptor);
        assert(ms.push(x).drop_first() =~= Seq::<(MethodDataV, MethodDataV)>::empty());
        let g2 = if x.0.name == x.1.name {
            gs
        } else {
            add_method_to_groups(gs, x.0.class, (x.0.name, x.1.name, x.0.descriptor))
        };
        assert(add_methods_to_groups(gs, ms.push(x)) == add_methods_to_groups(
            g2,
            ms.push(x).drop_first(),
        ));
        assert(add_methods_to_groups(g2, ms.push(x).drop_first()) == g2);
        assert(add_methods_to_groups(gs, ms) == gs);
    } else {
        assert(ms.push(x)[0] == ms[0]);
        assert(ms.push(x)[0].0.name == ms[0].0.name);
        assert(ms.push(x)[0].1.name == ms[0].1.name);
        assert(ms.push(x)[0].0.class == ms[0].0.class);
        assert(ms.push(x)[0].0.descriptor == ms[0].0.descriptor);
        assert(ms.push(x).drop_first() =~= ms.drop_first().push(x));
        let g2 = if ms[0].0.name == ms[0].1.name {
            gs
        } else {
            add_method_to_groups(gs, ms[0].0.class, (ms[0].0.name, ms[0].1.name, ms[0].0.descriptor))
        };
        lemma_add_methods_snoc(g2, ms.drop_first(), x);
        assert(add_methods_to_groups(gs, ms.push(x)) == add_methods_to_groups(
            g2,
            ms.drop_first().push(x),
        ));
        assert(add_methods_to_groups(gs, ms) == add_methods_to_groups(g2, ms.drop_first()));
    }
}

fn find_group_index(groups: &Vec<ClassGroup>, key: &JavaClass) -> (r: Option<usize>)
    ensures
        r matches Some(i) ==> i < groups@.len() && groups@[i as int]@.original == key@ && (forall|
            j: int,
        |
            0 <= j < i ==> groups@[j]@.original != key@),
        r is None ==> forall|j: int| 0 <= j < groups@.len() ==> groups@[j]@.original != key@,
{
    let mut i: usize = 0;
    while i < groups.len()
        invariant
            i <= groups@.len(),
            forall|j: int| 0 <= j < i ==> groups@[j]@.original != key@,
        decreases groups@.len() - i,
    {
        if groups[i].original == *key {
            return Some(i);
        }
        i = i + 1;
    }
    None
}

pub proof fn lemma_find_group(gs: Seq<GroupV>, c: Seq<char>)
    ensures
        match find_group(gs, c) {
            Some(i) => 0 <= i < gs.len() && gs[i].original == c && (forall|j: int|
                0 <= j < i ==> gs[j].original != c),
            None => forall|j: int| 0 <= j < gs.len() ==> gs[j].original != c,
        },
    decreases gs.len(),
{
    if gs.len() > 0 && gs[0].original != c {
        lemma_find_group(gs.drop_first(), c);
        match find_group(gs.drop_first(), c) {
            Some(i0) => {
                assert(gs[i0 + 1] == gs.drop_first()[i0]);
                assert forall|j: int| 0 <= j < i0 + 1 implies gs[j].original != c by {
                    if j > 0 {
                        assert(gs[j] == gs.drop_first()[j - 1]);
                    }
                }
            },
            None => {
                assert forall|j: int| 0 <= j < gs.len() implies gs[j].original != c by {
                    if j > 0 {
                        assert(gs[j] == gs.drop_first()[j - 1]);
                    }
                }
            },
        }
    }
}

pub proof fn lemma_find_group_at(gs: Seq<GroupV>, c: Seq<char>, i: int)
    requires
        0 <= i < gs.len(),
        gs[i].original == c,
        forall|j: int| 0 <= j < i ==> gs[j].original != c,
    ensures
        find_group(gs, c) == Some(i),
{
    lemma_find_group(gs, c);
    match find_group(gs, c) {
        Some(k) => {
            if k < i {
                assert(gs[k].original != c);
            } else if k > i {
                assert(gs[i].original != c);
            }
        },
        None => {
            assert(gs[i].original != c);
        },
    }
}

impl MappingsSnapshot {
    /// Group the snapshot's entries by original class: the class table
    /// in order, then the changed fields and methods, each attached to
    /// its class or opening a new group at the end.
    pub fn build_groups(&self) -> (r: Vec<ClassGroup>)
        ensures
            r@.map_values(|g: ClassGroup| g@) == build_groups(self@),
    {
        let mut groups: Vec<ClassGroup> = Vec::new();
        let mut i: usize = 0;
        while i < self.classes.len()
            invariant
                i <= self.classes.len(),
                groups@.len() == i,
                forall|k: int|
                    0 <= k < i ==> (#[trigger] groups@[k]@) == groups_of_classes(
                        self@.classes,
                    )[k],
            decreases self.classes.len() - i,
        {
            groups.push(
                ClassGroup {
                    original: self.classes[i].0.clone(),
                    renamed: Some(self.classes[i].1.clone()),
                    methods: Vec::new(),
                    fields: Vec::new(),
                },
            );
            proof {
                assert(groups@[i as int]@ =~= groups_of_classes(self@.classes)[i as int]);
            }
            i = i + 1;
        }
        proof {
            assert(groups@.map_values(|g: ClassGroup| g@) =~= groups_of_classes(self@.classes));
        }
        let ghost gs0 = groups_of_classes(self@.classes);
        let mut i: usize = 0;
        while i < self.fields.len()
            invariant
                i <= self.fields.len(),
                groups@.map_values(|g: ClassGroup| g@) == add_fields_to_groups(
                    gs0,
                    self@.fields.take(i as int),
                ),
                gs0 == groups_of_classes(self@.classes),
            decreases self.fields.len() - i,
        {
            let ghost pre = groups@.map_values(|g: ClassGroup| g@);
            proof {
                assert(self@.fields.take(i + 1) =~= self@.fields.take(i as int).push(
                    self@.fields[i as int],
                ));
                lemma_add_fields_snoc(gs0, self@.fields.take(i as int), self@.fields[i as int]);
            }
            let orig = &self.fields[i].0;
            let renamed = &self.fields[i].1;
            if !(orig.name == renamed.name) {
                let entry = (orig.name.clone(), renamed.name.clone());
                match find_group_index(&groups, &orig.class) {
                    Some(gi) => {
                        proof {
                            lemma_find_group_at(pre, orig.class@, gi as int);
                        }
                        let ghost gnames = groups@;
                        groups[gi].fields.push(entry);
                        proof {
                            assert forall|k: int|
                                0 <= k < groups@.len() && k != gi as int implies #[trigger] groups@[
                                k]@ == pre[k] by {
                                assert(groups@[k] == gnames[k]);
                            }
                            assert(groups@[gi as int]@ =~= add_field_to_groups(
                                pre,
                                orig.class@,
                                (orig.name@, renamed.name@),
                            )[gi as int]);
                            assert(groups@.map_values(|g: ClassGroup| g@) =~= add_field_to_groups(
                                pre,
                                orig.class@,
                                (orig.name@, renamed.name@),
                            ));
                        }
                    },
                    None => {
                        proof {
                            lemma_find_group(pre, orig.class@);
                        }
                        let mut fields0: Vec<(String, String)> = Vec::new();
                        fields0.push(entry);
                        groups.push(
                            ClassGroup {
                                original: orig.class.clone(),
                                renamed: None,
                                methods: Vec::new(),
                                fields: fields0,
                            },
                        );
                        proof {
                            assert(groups@[pre.len() as int]@ =~= add_field_to_groups(
                                pre,
                                orig.class@,
                                (orig.name@, renamed.name@),
                            )[pre.len() as int]);
                            assert(groups@.map_values(|g: ClassGroup| g@) =~= add_field_to_groups(
                                pre,
                                orig.class@,
                                (orig.name@, renamed.name@),
                            ));
                        }
                    },
                }
            }
            i = i + 1;
        }
        proof {
            assert(self@.fields.take(self.fields.len() as int) =~= self@.fields);
        }
        let ghost gs1 = add_fields_to_groups(gs0, self@.fields);
        let mut i: usize = 0;
        while i < self.methods.len()
            invariant
                i <= self.methods.len(),
                groups@.map_values(|g: ClassGroup| g@) == add_methods_to_groups(
                    gs1,
                    self@.methods.take(i as int),
                ),
                gs1 == add_fields_to_groups(gs0, self@.fields),
                gs0 == groups_of_classes(self@.classes),
            decreases self.methods.len() - i,
        {
            let ghost pre = groups@.map_values(|g: ClassGroup| g@);
            proof {
                assert(self@.methods.take(i + 1) =~= self@.methods.take(i as int).push(
                    self@.methods[i as int],
                ));
                lemma_add_methods_snoc(gs1, self@.methods.take(i as int), self@.methods[i as int]);
            }
            let orig = &self.methods[i].0;
            let renamed = &self.methods[i].1;
            if !(orig.name == renamed.name) {
                let entry = (orig.name.clone(), renamed.name.clone(), orig.signature.clone());
                match find_group_index(&groups, &orig.class) {
                    Some(gi) => {
                        proof {
                            lemma_find_group_at(pre, orig.class@, gi as int);
                        }
                        let ghost gnames = groups@;
                        groups[gi].methods.push(entry);
                        proof {
                            assert forall|k: int|
                                0 <= k < groups@.len() && k != gi as int implies #[trigger] groups@[
                                k]@ == pre[k] by {
                                assert(groups@[k] == gnames[k]);
                            }
                            assert(groups@[gi as int]@ =~= add_method_to_groups(
                                pre,
                                orig.class@,
                                (orig.name@, renamed.name@, orig.signature@),
                            )[gi as int]);
                            assert(groups@.map_values(|g: ClassGroup| g@) =~= add_method_to_groups(
                                pre,
                                orig.class@,
                                (orig.name@, renamed.name@, orig.signature@),
                            ));
                        }
                    },
                    None => {
                        proof {
                            lemma_find_group(pre, orig.class@);
                        }
                        let mut methods0: Vec<(String, String, MethodSignature)> = Vec::new();
                        methods0.push(entry);
                        groups.push(
                            ClassGroup {
                                original: orig.class.clone(),
                                renamed: None,
                                methods: methods0,
                                fields: Vec::new(),
                            },
                        );
                        proof {
                            assert(groups@[pre.len() as int]@ =~= add_method_to_groups(
                                pre,
                                orig.class@,
                                (orig.name@, renamed.name@, orig.signature@),
                            )[pre.len() as int]);
                            assert(groups@.map_values(|g: ClassGroup| g@) =~= add_method_to_groups(
                                pre,
                                orig.class@,
                                (orig.name@, renamed.name@, orig.signature@),
                            ));
                        }
                    },
                }
            }
            i = i + 1;
        }
        proof {
            assert(self@.methods.take(self.methods.len() as int) =~= self@.methods);
        }
        groups
    }
}

// ---------------------------------------------------------------------
// Encoding
// ---------------------------------------------------------------------
/// The 25 bytes `SuperSrg binary mappings\0`.
pub open spec fn magic_bytes() -> Seq<u8> {
    seq![
        0x53u8, 0x75u8, 0x70u8, 0x65u8, 0x72u8, 0x53u8, 0x72u8, 0x67u8, 0x20u8, 0x62u8, 0x69u8,
        0x6eu8, 0x61u8, 0x72u8, 0x79u8, 0x20u8, 0x6du8, 0x61u8, 0x70u8, 0x70u8, 0x69u8, 0x6eu8,
        0x67u8, 0x73u8, 0x00u8,
    ]
}

/// The magic header as a buffer.
pub fn magic_vec() -> (r: Vec<u8>)
    ensures
        r@ == magic_bytes(),
{
    let mut v: Vec<u8> = Vec::new();
    v.push(0x53u8);
    v.push(0x75u8);
    v.push(0x70u8);
    v.push(0x65u8);
    v.push(0x72u8);
    v.push(0x53u8);
    v.push(0x72u8);
    v.push(0x67u8);
    v.push(0x20u8);
    v.push(0x62u8);
    v.push(0x69u8);
    v.push(0x6eu8);
    v.push(0x61u8);
    v.push(0x72u8);
    v.push(0x79u8);
    v.push(0x20u8);
    v.push(0x6du8);
    v.push(0x61u8);
    v.push(0x70u8);
    v.push(0x70u8);
    v.push(0x69u8);
    v.push(0x6eu8);
    v.push(0x67u8);
    v.push(0x73u8);
    v.push(0x00u8);
    proof {
        assert(v@ =~= magic_bytes());
    }
    v
}

/// One method entry: original name, revised name, original descriptor,
/// and an always-empty revised descriptor.
pub open spec fn enc_method_entry(m: (Seq<char>, Seq<char>, Seq<char>)) -> Seq<u8> {
    enc_str(m.0) + enc_str(m.1) + enc_str(m.2) + enc_str(Seq::empty())
}

pub open spec fn enc_methods(ms: Seq<(Seq<char>, Seq<char>, Seq<char>)>) -> Seq<u8>
    decreases ms.len(),
{
    if ms.len() == 0 {
        Seq::empty()
    } else {
        enc_method_entry(ms[0]) + enc_methods(ms.drop_first())
    }
}

/// One field entry: original name and revised name.
pub open spec fn enc_field_entry(f: (Seq<char>, Seq<char>)) -> Seq<u8> {
    enc_str(f.0) + enc_str(f.1)
}

pub open spec fn enc_fields(fs: Seq<(Seq<char>, Seq<char>)>) -> Seq<u8>
    decreases fs.len(),
{
    if fs.len() == 0 {
        Seq::empty()
    } else {
        enc_field_entry(fs[0]) + enc_fields(fs.drop_first())
    }
}

/// The renamed class name a group emits: empty when the group was
/// created only for its members.
pub open spec fn group_renamed_chars(g: GroupV) -> Seq<char> {
    match g.renamed {
        Some(n) => n,
        None => Seq::empty(),
    }
}

pub open spec fn enc_group(g: GroupV) -> Seq<u8> {
    enc_str(g.original) + enc_str(group_renamed_chars(g)) + be32(g.methods.len() as int)
        + enc_methods(g.methods) + be32(g.fields.len() as int) + enc_fields(g.fields)
}

pub open spec fn enc_groups(gs: Seq<GroupV>) -> Seq<u8>
    decreases gs.len(),
{
    if gs.len() == 0 {
        Seq::empty()
    } else {
        enc_group(gs[0]) + enc_groups(gs.drop_first())
    }
}

/// The body of the container: the group count, then the groups.
pub open spec fn spec_encode_body(gs: Seq<GroupV>) -> Seq<u8> {
    be64(gs.len() as int) + enc_groups(gs)
}

/// The envelope: magic, version, compression identifier, payload.
pub open spec fn spec_encode_envelope(id: Seq<char>, payload: Seq<u8>) -> Seq<u8> {
    magic_bytes() + be32(1) + enc_str(id) + payload
}

/// A group's strings and counts fit the frame's fixed-width fields.
pub open spec fn group_fits(g: GroupV) -> bool {
    &&& str16_fits(g.original)
    &&& str16_fits(group_renamed_chars(g))
    &&& g.methods.len() < 0x100000000
    &&& g.fields.len() < 0x100000000
    &&& (forall|i: int|
        0 <= i < g.methods.len() ==> str16_fits((#[trigger] g.methods[i]).0) && str16_fits(
            g.methods[i].1,
        ) && str16_fits(g.methods[i].2))
    &&& (forall|i: int|
        0 <= i < g.fields.len() ==> str16_fits((#[trigger] g.fields[i]).0) && str16_fits(
            g.fields[i].1,
        ))
}

pub open spec fn groups_fit(gs: Seq<GroupV>) -> bool {
    gs.len() < 0x10000000000000000 && (forall|i: int| 0 <= i < gs.len() ==> group_fits(
        #[trigger] gs[i],
    ))
}

pub proof fn lemma_enc_methods_snoc(ms: Seq<(Seq<char>, Seq<char>, Seq<char>)>, x: (Seq<char>, Seq<char>, Seq<char>))
    ensures
        enc_methods(ms.push(x)) == enc_methods(ms) + enc_method_entry(x),
    decreases ms.len(),
{
    if ms.len() == 0 {
        assert(ms.push(x)[0] == x);
        assert(ms.push(x).drop_first() =~= Seq::<(Seq<char>, Seq<char>, Seq<char>)>::empty());
        assert(enc_methods(ms.push(x)) == enc_method_entry(ms.push(x)[0]) + enc_methods(
            ms.push(x).drop_first(),
        ));
        assert(enc_method_entry(ms.push(x)[0]) == enc_method_entry(x));
        assert(enc_method_entry(x) + Seq::<u8>::empty() =~= enc_method_entry(x));
        assert(Seq::<u8>::empty() + enc_method_entry(x) =~= enc_method_entry(x));
    } else {
        assert(ms.push(x)[0] == ms[0]);
        assert(ms.push(x).drop_first() =~= ms.drop_first().push(x));
        lemma_enc_methods_snoc(ms.drop_first(), x);
        assert(enc_methods(ms.push(x)) == enc_method_entry(ms.push(x)[0]) + enc_methods(
            ms.push(x).drop_first(),
        ));
        assert(enc_method_entry(ms.push(x)[0]) == enc_method_entry(ms[0]));
        assert(enc_methods(ms) == enc_method_entry(ms[0]) + enc_methods(ms.drop_first()));
        assert((enc_method_entry(ms[0]) + enc_methods(ms.drop_first())) + enc_method_entry(x)
            =~= enc_method_entry(ms[0]) + (enc_methods(ms.drop_first()) + enc_method_entry(x)));
    }
}

pub proof fn lemma_enc_fields_snoc(fs: Seq<(Seq<char>, Seq<char>)>, x: (Seq<char>, Seq<char>))
    ensures
        enc_fields(fs.push(x)) == enc_fields(fs) + enc_field_entry(x),
    decreases fs.len(),
{
    if fs.len() == 0 {
        assert(fs.push(x)[0] == x);
        assert(fs.push(x).drop_first() =~= Seq::<(Seq<char>, Seq<char>)>::empty());
        assert(enc_fields(fs.push(x)) == enc_field_entry(fs.push(x)[0]) + enc_fields(
            fs.push(x).drop_first(),
        ));
        assert(enc_field_entry(fs.push(x)[0]) == enc_field_entry(x));
        assert(enc_field_entry(x) + Seq::<u8>::empty() =~= enc_field_entry(x));
        assert(Seq::<u8>::empty() + enc_field_entry(x) =~= enc_field_entry(x));
    } else {
        assert(fs.push(x)[0] == fs[0]);
        assert(fs.push(x).drop_first() =~= fs.drop_first().push(x));
        lemma_enc_fields_snoc(fs.drop_first(), x);
        assert(enc_fields(fs.push(x)) == enc_field_entry(fs.push(x)[0]) + enc_fields(
            fs.push(x).drop_first(),
        ));
        assert(enc_field_entry(fs.push(x)[0]) == enc_field_entry(fs[0]));
        assert(enc_fields(fs) == enc_field_entry(fs[0]) + enc_fields(fs.drop_first()));
        assert((enc_field_entry(fs[0]) + enc_fields(fs.drop_first())) + enc_field_entry(x)
            =~= enc_field_entry(fs[0]) + (enc_fields(fs.drop_first()) + enc_field_entry(x)));
    }
}

pub proof fn lemma_enc_groups_snoc(gs: Seq<GroupV>, x: GroupV)
    ensures
        enc_groups(gs.push(x)) == enc_groups(gs) + enc_group(x),
    decreases gs.len(),
{
    if gs.len() == 0 {
        assert(gs.push(x)[0] == x);
        assert(gs.push(x).drop_first() =~= Seq::<GroupV>::empty());
        assert(enc_groups(gs.push(x)) == enc_group(gs.push(x)[0]) + enc_groups(
            gs.push(x).drop_first(),
        ));
        assert(enc_group(gs.push(x)[0]) == enc_group(x));
        assert(enc_group(x) + Seq::<u8>::empty() =~= enc_group(x));
        assert(Seq::<u8>::empty() + enc_group(x) =~= enc_group(x));
    } else {
        assert(gs.push(x)[0] == gs[0]);
        assert(gs.push(x).drop_first() =~= gs.drop_first().push(x));
        lemma_enc_groups_snoc(gs.drop_first(), x);
        assert(enc_groups(gs.push(x)) == enc_group(gs.push(x)[0]) + enc_groups(
            gs.push(x).drop_first(),
        ));
        assert(enc_group(gs.push(x)[0]) == enc_group(gs[0]));
        assert(enc_groups(gs) == enc_group(gs[0]) + enc_groups(gs.drop_first()));
        assert((enc_group(gs[0]) + enc_groups(gs.drop_first())) + enc_group(x) =~= enc_group(
            gs[0],
        ) + (enc_groups(gs.drop_first()) + enc_group(x)));
    }
}

/// Write one group into the encoder.
#[verifier::rlimit(50)]
fn write_group(enc: &mut SimpleEncoder, g: &ClassGroup)
    requires
        group_fits(g@),
    ensures
        final(enc).0@ == old(enc).0@ + enc_group(g@),
{
    proof {
        reveal_strlit("");
        assert(""@ =~= Seq::<char>::empty());
        assert(encode_utf8(Seq::<char>::empty()) =~= Seq::<u8>::empty());
        assert(str16_fits(""@));
    }
    let ghost start = enc.0@;
    enc.write_string(g.original.internal_name());
    match g.renamed {
        Some(ref c) => {
            proof {
                assert(c@ == group_renamed_chars(g@));
            }
            enc.write_string(c.internal_name());
        },
        None => {
            enc.write_string("");
        },
    }
    proof {
        assert(enc.0@ =~= start + enc_str(g@.original) + enc_str(group_renamed_chars(g@)));
    }
    let ghost mid0 = enc.0@;
    enc.write_u32(g.methods.len() as u32);
    let ghost mid1 = enc.0@;
    let mut i: usize = 0;
    while i < g.methods.len()
        invariant
            i <= g.methods.len(),
            group_fits(g@),
            enc.0@ == mid1 + enc_methods(g@.methods.take(i as int)),
            mid1 == mid0 + be32(g@.methods.len() as int),
        decreases g.methods.len() - i,
    {
        let ghost before = enc.0@;
        proof {
            reveal_strlit("");
            assert(""@ =~= Seq::<char>::empty());
            assert(encode_utf8(Seq::<char>::empty()) =~= Seq::<u8>::empty());
            assert(str16_fits(""@));
            assert(g@.methods[i as int] == (g.methods@[i as int].0@, g.methods@[i as int].1@,
            g.methods@[i as int].2@));
            assert(str16_fits(g@.methods[i as int].0));
            assert(str16_fits(g@.methods[i as int].1));
            assert(str16_fits(g@.methods[i as int].2));
        }
        enc.write_string(g.methods[i].0.as_str());
        enc.write_string(g.methods[i].1.as_str());
        enc.write_string(g.methods[i].2.descriptor());
        enc.write_string("");
        proof {
            assert(enc.0@ =~= before + enc_method_entry(g@.methods[i as int]));
            assert(g@.methods.take(i + 1) =~= g@.methods.take(i as int).push(
                g@.methods[i as int],
            ));
            lemma_enc_methods_snoc(g@.methods.take(i as int), g@.methods[i as int]);
            assert(enc.0@ =~= mid1 + enc_methods(g@.methods.take(i + 1)));
        }
        i = i + 1;
    }
    proof {
        assert(g@.methods.take(g.methods.len() as int) =~= g@.methods);
    }
    let ghost mid2 = enc.0@;
    enc.write_u32(g.fields.len() as u32);
    let ghost mid3 = enc.0@;
    let mut i: usize = 0;
    while i < g.fields.len()
        invariant
            i <= g.fields.len(),
            group_fits(g@),
            enc.0@ == mid3 + enc_fields(g@.fields.take(i as int)),
            mid3 == mid2 + be32(g@.fields.len() as int),
        decreases g.fields.len() - i,
    {
        let ghost before = enc.0@;
        proof {
            assert(g@.fields[i as int] == (g.fields@[i as int].0@, g.fields@[i as int].1@));
            assert(str16_fits(g@.fields[i as int].0));
            assert(str16_fits(g@.fields[i as int].1));
        }
        enc.write_string(g.fields[i].0.as_str());
        enc.write_string(g.fields[i].1.as_str());
        proof {
            assert(enc.0@ =~= before + enc_field_entry(g@.fields[i as int]));
            assert(g@.fields.take(i + 1) =~= g@.fields.take(i as int).push(g@.fields[i as int]));
            lemma_enc_fields_snoc(g@.fields.take(i as int), g@.fields[i as int]);
            assert(enc.0@ =~= mid3 + enc_fields(g@.fields.take(i + 1)));
        }
        i = i + 1;
    }
    proof {
        assert(g@.fields.take(g.fields.len() as int) =~= g@.fields);
        assert(enc.0@ =~= start + enc_group(g@));
    }
}

/// The compression an encoder wraps the body in.
#[derive(Copy, Clone, Debug)]
pub enum MappingsCompressor {
    Lz4,
    Uncompressed,
}

/// Writes a snapshot as the framed binary container.
#[derive(Debug)]
pub struct MappingsEncoder {
    pub compressor: MappingsCompressor,
}

impl MappingsEncoder {
    /// An encoder with the default compression.
    pub fn new() -> (r: MappingsEncoder)
        ensures
            r.compressor is Lz4,
    {
        MappingsEncoder { compressor: MappingsCompressor::Lz4 }
    }

    /// An encoder that writes the body unwrapped.
    pub fn uncompressed() -> (r: MappingsEncoder)
        ensures
            r.compressor is Uncompressed,
    {
        MappingsEncoder { compressor: MappingsCompressor::Uncompressed }
    }

    /// Frame the snapshot: groups in order, members grouped under their
    /// original class, identity members left out, renamed method
    /// descriptors always left for the reader to derive.
    #[verifier::rlimit(50)]
    pub fn encode(&self, mappings: &MappingsSnapshot) -> (r: Result<Vec<u8>, BinaryMappingError>)
        requires
            groups_fit(build_groups(mappings@)),
        ensures
            self.compressor is Uncompressed ==> (r matches Ok(bytes) && bytes@
                == spec_encode_envelope(""@, spec_encode_body(build_groups(mappings@)))),
            self.compressor is Lz4 ==> (r matches Ok(bytes) && bytes@ == spec_encode_envelope(
                "lz4-frame"@,
                lz4_frame_of(spec_encode_body(build_groups(mappings@))),
            )),
    {
        let groups = mappings.build_groups();
        let ghost gs = build_groups(mappings@);
        let mut body = SimpleEncoder(Vec::new());
        body.write_u64(groups.len() as u64);
        let ghost body0 = body.0@;
        let mut i: usize = 0;
        while i < groups.len()
            invariant
                i <= groups.len(),
                groups@.map_values(|g: ClassGroup| g@) == gs,
                groups_fit(gs),
                body.0@ == body0 + enc_groups(gs.take(i as int)),
            decreases groups.len() - i,
        {
            proof {
                assert(groups@[i as int]@ == gs[i as int]);
                assert(group_fits(gs[i as int]));
            }
            write_group(&mut body, &groups[i]);
            proof {
                assert(gs.take(i + 1) =~= gs.take(i as int).push(gs[i as int]));
                lemma_enc_groups_snoc(gs.take(i as int), gs[i as int]);
                assert(body.0@ =~= body0 + enc_groups(gs.take(i + 1)));
            }
            i = i + 1;
        }
        proof {
            assert(gs.take(groups.len() as int) =~= gs);
            assert(body.0@ =~= spec_encode_body(gs));
        }
        let body_bytes = body.0;
        proof {
            reveal_strlit("");
            reveal_strlit("lz4-frame");
            assert(""@ =~= Seq::<char>::empty());
            assert(encode_utf8(Seq::<char>::empty()) =~= Seq::<u8>::empty());
            assert(str16_fits(""@));
            assert(("lz4-frame"@).len() == 9);
            assert(vstd::utf8::is_ascii_chars("lz4-frame"@));
            vstd::utf8::is_ascii_chars_encode_utf8("lz4-frame"@);
            assert(str16_fits("lz4-frame"@));
        }
        let mut out = SimpleEncoder(magic_vec());
        out.write_u32(1);
        match self.compressor {
            MappingsCompressor::Uncompressed => {
                out.write_string("");
                proof {
                    reveal_strlit("");
                    assert(""@ =~= Seq::<char>::empty());
                }
                let ghost head = out.0@;
                let mut result = out.0;
                let mut j: usize = 0;
                while j < body_bytes.len()
                    invariant
                        j <= body_bytes.len(),
                        result@ == head + body_bytes@.take(j as int),
                    decreases body_bytes.len() - j,
                {
                    let byte = body_bytes[j];
                    result.push(byte);
                    proof {
                        assert(result@ =~= head + body_bytes@.take(j + 1));
                    }
                    j = j + 1;
                }
                proof {
                    assert(body_bytes@.take(body_bytes.len() as int) =~= body_bytes@);
                    assert(result@ =~= spec_encode_envelope(""@, spec_encode_body(gs)));
                }
                Ok(result)
            },
            MappingsCompressor::Lz4 => {
                out.write_string("lz4-frame");
                match lz4_compress(&body_bytes) {
                    None => {
                        proof {
                            assert(false);
                        }
                        Err(BinaryMappingError::CompressionFailure)
                    },
                    Some(compressed) => {
                        let ghost head = out.0@;
                        let mut result = out.0;
                        let mut j: usize = 0;
                        while j < compressed.len()
                            invariant
                                j <= compressed.len(),
                                result@ == head + compressed@.take(j as int),
                            decreases compressed.len() - j,
                        {
                            let byte = compressed[j];
                            result.push(byte);
                            proof {
                                assert(result@ =~= head + compressed@.take(j + 1));
                            }
                            j = j + 1;
                        }
                        proof {
                            assert(compressed@.take(compressed.len() as int) =~= compressed@);
                            assert(result@ =~= spec_encode_envelope(
                                "lz4-frame"@,
                                lz4_frame_of(spec_encode_body(gs)),
                            ));
                        }
                        Ok(result)
                    },
                }
            },
        }
    }
}

// ---------------------------------------------------------------------
// The LZ4 frame, through the outside crate
// ---------------------------------------------------------------------
/// The LZ4 frame that `data` compresses to at the level this crate
/// uses; compression is a function of the bytes alone.
pub uninterp spec fn lz4_frame_of(data: Seq<u8>) -> Seq<u8>;

/// Relies on the lz4 crate's frame `Encoder` over an in-memory buffer:
/// the output is the LZ4 frame of the input.  Writing into a growable
/// buffer cannot fail, so compression always succeeds.
#[verifier::external_body]
fn lz4_compress(data: &Vec<u8>) -> (r: Option<Vec<u8>>)
    ensures
        r is Some,
        r matches Some(out) ==> out@ == lz4_frame_of(data@),
{
    let mut enc = match lz4::EncoderBuilder::new().level(1).build(Vec::new()) {
        Ok(e) => e,
        Err(_) => {
            return None;
        },
    };
    if std::io::Write::write_all(&mut enc, data.as_slice()).is_err() {
        return None;
    }
    let (out, result) = enc.finish();
    match result {
        Ok(()) => Some(out),
        Err(_) => None,
    }
}

/// Relies on the lz4 crate's frame `Decoder`: reading a frame to its
/// end yields exactly the bytes that were compressed into it.
#[verifier::external_body]
fn lz4_decompress(data: &Vec<u8>) -> (r: Option<Vec<u8>>)
    ensures
        r matches Some(out) ==> (forall|x: Seq<u8>| data@ == lz4_frame_of(x) ==> out@ == x),
        r is Some <== exists|x: Seq<u8>| data@ == lz4_frame_of(x),
{
    let mut dec = match lz4::Decoder::new(data.as_slice()) {
        Ok(d) => d,
        Err(_) => {
            return None;
        },
    };
    let mut out = Vec::new();
    if std::io::Read::read_to_end(&mut dec, &mut out).is_err() {
        return None;
    }
    match dec.finish().1 {
        Ok(()) => Some(out),
        Err(_) => None,
    }
}

// ---------------------------------------------------------------------
// Decoding
// ---------------------------------------------------------------------
/// Decode the field entries of one class, inserting each into the
/// accumulated store; a field whose name did not change is an error.
pub open spec fn sdec_fields(b: Seq<u8>, p: int, n: nat, cls: Seq<char>, acc: StoreV) -> Result<
    (StoreV, int),
    BinErrKind,
>
    decreases n,
{
    if n == 0 {
        Ok((acc, p))
    } else {
        match dec_str(b, p) {
            None => Err(BinErrKind::Eof),
            Some(Err(_)) => Err(BinErrKind::Utf8),
            Some(Ok((name, p1))) => {
                if name.len() == 0 {
                    Err(BinErrKind::BadName)
                } else {
                    match dec_str(b, p1) {
                        None => Err(BinErrKind::Eof),
                        Some(Err(_)) => Err(BinErrKind::Utf8),
                        Some(Ok((newname, p2))) => {
                            if newname.len() == 0 {
                                Err(BinErrKind::BadName)
                            } else if name == newname {
                                Err(BinErrKind::UnchangedField(FieldDataV { class: cls, name: name }))
                            } else {
                                sdec_fields(
                                    b,
                                    p2,
                                    (n - 1) as nat,
                                    cls,
                                    StoreV {
                                        classes: acc.classes,
                                        fields: insert_assoc(
                                            acc.fields,
                                            FieldDataV { class: cls, name: name },
                                            newname,
                                        ),
                                        methods: acc.methods,
                                    },
                                )
                            }
                        },
                    }
                }
            },
        }
    }
}

/// Decode the method entries of one class.  A method with an unchanged
/// name is accepted without insertion only when its revised descriptor
/// is present and different; the renamed name is otherwise recorded
/// against the original key.
pub open spec fn sdec_methods(b: Seq<u8>, p: int, n: nat, cls: Seq<char>, acc: StoreV) -> Result<
    (StoreV, int),
    BinErrKind,
>
    decreases n,
{
    if n == 0 {
        Ok((acc, p))
    } else {
        match dec_str(b, p) {
            None => Err(BinErrKind::Eof),
            Some(Err(_)) => Err(BinErrKind::Utf8),
            Some(Ok((name, p1))) => {
                if name.len() == 0 {
                    Err(BinErrKind::BadName)
                } else {
                    match dec_str(b, p1) {
                        None => Err(BinErrKind::Eof),
                        Some(Err(_)) => Err(BinErrKind::Utf8),
                        Some(Ok((rawrev, p2))) => {
                            let revised = if rawrev.len() == 0 {
                                name
                            } else {
                                rawrev
                            };
                            match dec_str(b, p2) {
                                None => Err(BinErrKind::Eof),
                                Some(Err(_)) => Err(BinErrKind::Utf8),
                                Some(Ok((desc, p3))) => {
                                    if !valid_sig(desc) {
                                        Err(BinErrKind::BadDescriptor)
                                    } else {
                                        match dec_str(b, p3) {
                                            None => Err(BinErrKind::Eof),
                                            Some(Err(_)) => Err(BinErrKind::Utf8),
                                            Some(Ok((rawdesc, p4))) => {
                                                if rawdesc.len() > 0 && !valid_sig(rawdesc) {
                                                    Err(BinErrKind::BadDescriptor)
                                                } else if name != revised {
                                                    sdec_methods(
                                                        b,
                                                        p4,
                                                        (n - 1) as nat,
                                                        cls,
                                                        StoreV {
                                                            classes: acc.classes,
                                                            fields: acc.fields,
                                                            methods: insert_assoc(
                                                                acc.methods,
                                                                MethodDataV {
                                                                    class: cls,
                                                                    name: name,
                                                                    descriptor: desc,
                                                                },
                                                                revised,
                                                            ),
                                                        },
                                                    )
                                                } else if rawdesc.len() > 0 && rawdesc != desc {
                                                    sdec_methods(b, p4, (n - 1) as nat, cls, acc)
                                                } else {
                                                    Err(
                                                        BinErrKind::UnchangedMethod(
                                                            MethodDataV {
                                                                class: cls,
                                                                name: name,
                                                                descriptor: desc,
                                                            },
                                                        ),
                                                    )
                                                }
                                            },
                                        }
                                    }
                                },
                            }
                        },
                    }
                }
            },
        }
    }
}

/// Decode one class group: its names, its methods, then its fields.
/// An identity class renaming is dropped.
pub open spec fn sdec_group(b: Seq<u8>, p: int, acc: StoreV) -> Result<(StoreV, int), BinErrKind> {
    match dec_str(b, p) {
        None => Err(BinErrKind::Eof),
        Some(Err(_)) => Err(BinErrKind::Utf8),
        Some(Ok((orig, p1))) => {
            if !wf_class_chars(orig) {
                Err(BinErrKind::BadName)
            } else {
                match dec_str(b, p1) {
                    None => Err(BinErrKind::Eof),
                    Some(Err(_)) => Err(BinErrKind::Utf8),
                    Some(Ok((rawrev, p2))) => {
                        if rawrev.len() > 0 && !wf_class_chars(rawrev) {
                            Err(BinErrKind::BadName)
                        } else {
                            let rc = if rawrev.len() == 0 {
                                orig
                            } else {
                                rawrev
                            };
                            let acc1 = if rc != orig {
                                StoreV {
                                    classes: insert_assoc(acc.classes, orig, rc),
                                    fields: acc.fields,
                                    methods: acc.methods,
                                }
                            } else {
                                acc
                            };
                            match dec_u32(b, p2) {
                                None => Err(BinErrKind::Eof),
                                Some((nm, p3)) => match sdec_methods(b, p3, nm as nat, orig, acc1) {
                                    Err(k) => Err(k),
                                    Ok((acc2, p4)) => match dec_u32(b, p4) {
                                        None => Err(BinErrKind::Eof),
                                        Some((nf, p5)) => sdec_fields(b, p5, nf as nat, orig, acc2),
                                    },
                                },
                            }
                        }
                    },
                }
            }
        },
    }
}

pub open spec fn sdec_groups(b: Seq<u8>, p: int, n: nat, acc: StoreV) -> Result<
    (StoreV, int),
    BinErrKind,
>
    decreases n,
{
    if n == 0 {
        Ok((acc, p))
    } else {
        match sdec_group(b, p, acc) {
            Err(k) => Err(k),
            Ok((acc1, p1)) => sdec_groups(b, p1, (n - 1) as nat, acc1),
        }
    }
}

/// Decode a whole body: the group count, the groups, and nothing after
/// them.
pub open spec fn spec_decode_body(b: Seq<u8>, acc: StoreV) -> Result<StoreV, BinErrKind> {
    match dec_u64(b, 0) {
        None => Err(BinErrKind::Eof),
        Some((n, p)) => match sdec_groups(b, p, n as nat, acc) {
            Err(k) => Err(k),
            Ok((s, p2)) => if p2 == b.len() {
                Ok(s)
            } else {
                Err(BinErrKind::Trailing)
            },
        },
    }
}

/// Take the envelope apart: magic, version, compression identifier;
/// the remaining bytes are the (possibly compressed) body.
pub open spec fn spec_envelope(b: Seq<u8>) -> Result<
    (MappingsCompressionFormat, Seq<u8>),
    BinErrKind,
> {
    let he = nullterm_end(b, 0);
    if b.subrange(0, he) != magic_bytes() {
        Err(BinErrKind::Header)
    } else {
        match dec_u32(b, he) {
            None => Err(BinErrKind::Eof),
            Some((v, p)) => if v != 1 {
                Err(BinErrKind::Version)
            } else {
                match dec_str(b, p) {
                    None => Err(BinErrKind::Eof),
                    Some(Err(_)) => Err(BinErrKind::Utf8),
                    Some(Ok((id, p2))) => match spec_compression_of(id) {
                        None => Err(BinErrKind::Forbidden),
                        Some(f) => Ok((f, b.skip(p2))),
                    },
                }
            },
        }
    }
}

/// Compare two byte buffers.
fn bytes_equal(a: &Vec<u8>, b: &Vec<u8>) -> (r: bool)
    ensures
        r == (a@ == b@),
{
    if a.len() != b.len() {
        proof {
            assert(a@ != b@);
        }
        return false;
    }
    let mut i: usize = 0;
    while i < a.len()
        invariant
            i <= a@.len(),
            a@.len() == b@.len(),
            forall|j: int| 0 <= j < i ==> a@[j] == b@[j],
        decreases a@.len() - i,
    {
        if a[i] != b[i] {
            proof {
                assert(a@ != b@);
            }
            return false;
        }
        i = i + 1;
    }
    proof {
        assert(a@ =~= b@);
    }
    true
}

/// Decode the field entries of one class into the builder.
fn decode_fields(
    d: &mut SimpleDecoder,
    n: u32,
    cls: &JavaClass,
    builder: &mut MappingsBuilder,
) -> (r: Result<(), BinaryMappingError>)
    requires
        old(d).wf(),
        old(builder).wf(),
        wf_class_chars(cls@),
    ensures
        final(d).data == old(d).data,
        final(d).wf(),
        final(builder).wf(),
        match sdec_fields(old(d).data@, old(d).pos as int, n as nat, cls@, old(builder)@) {
            Ok((s, p2)) => r is Ok && final(builder)@ == s && final(d).pos == p2,
            Err(k) => r matches Err(e) && bin_err_kind(e) == k,
        },
{
    let mut i: u32 = 0;
    while i < n
        invariant
            i <= n,
            d.data == old(d).data,
            d.wf(),
            builder.wf(),
            wf_class_chars(cls@),
            sdec_fields(old(d).data@, old(d).pos as int, n as nat, cls@, old(builder)@)
                == sdec_fields(d.data@, d.pos as int, (n - i) as nat, cls@, builder@),
        decreases n - i,
    {
        let name = match d.read_string() {
            Ok(s) => s,
            Err(e) => {
                return Err(e);
            },
        };
        if name.as_str().is_empty() {
            return Err(BinaryMappingError::InvalidName(NameParseError::EmptyMemberName));
        }
        let newname = match d.read_string() {
            Ok(s) => s,
            Err(e) => {
                return Err(e);
            },
        };
        if newname.as_str().is_empty() {
            return Err(BinaryMappingError::InvalidName(NameParseError::EmptyMemberName));
        }
        let key = FieldData { class: cls.clone(), name: name };
        if key.name == newname {
            return Err(BinaryMappingError::UnchangedField(key));
        }
        match builder.insert_field(key, newname) {
            Ok(()) => {},
            Err(_) => {
                proof {
                    assert(false);
                }
            },
        }
        i = i + 1;
    }
    Ok(())
}

/// Decode the method entries of one class into the builder.
fn decode_methods(
    d: &mut SimpleDecoder,
    n: u32,
    cls: &JavaClass,
    builder: &mut MappingsBuilder,
) -> (r: Result<(), BinaryMappingError>)
    requires
        old(d).wf(),
        old(builder).wf(),
        wf_class_chars(cls@),
    ensures
        final(d).data == old(d).data,
        final(d).wf(),
        final(builder).wf(),
        match sdec_methods(old(d).data@, old(d).pos as int, n as nat, cls@, old(builder)@) {
            Ok((s, p2)) => r is Ok && final(builder)@ == s && final(d).pos == p2,
            Err(k) => r matches Err(e) && bin_err_kind(e) == k,
        },
{
    let mut i: u32 = 0;
    while i < n
        invariant
            i <= n,
            d.data == old(d).data,
            d.wf(),
            builder.wf(),
            wf_class_chars(cls@),
            sdec_methods(old(d).data@, old(d).pos as int, n as nat, cls@, old(builder)@)
                == sdec_methods(d.data@, d.pos as int, (n - i) as nat, cls@, builder@),
        decreases n - i,
    {
        let name = match d.read_string() {
            Ok(s) => s,
            Err(e) => {
                return Err(e);
            },
        };
        if name.as_str().is_empty() {
            return Err(BinaryMappingError::InvalidName(NameParseError::EmptyMemberName));
        }
        let rawrev = match d.read_string() {
            Ok(s) => s,
            Err(e) => {
                return Err(e);
            },
        };
        let revised = if rawrev.as_str().is_empty() {
            name.clone()
        } else {
            rawrev
        };
        let desc = match d.read_string() {
            Ok(s) => s,
            Err(e) => {
                return Err(e);
            },
        };
        let signature = MethodSignature { descriptor: desc };
        if let Err(e) = signature.parse() {
            return Err(BinaryMappingError::InvalidMethodDescriptor(e));
        }
        let rawdesc = match d.read_string() {
            Ok(s) => s,
            Err(e) => {
                return Err(e);
            },
        };
        if !rawdesc.as_str().is_empty() {
            let revised_signature = MethodSignature { descriptor: rawdesc.clone() };
            if let Err(e) = revised_signature.parse() {
                return Err(BinaryMappingError::InvalidMethodDescriptor(e));
            }
        }
        if !(name == revised) {
            let key = MethodData { class: cls.clone(), name: name, signature: signature };
            match builder.insert_method(key, revised) {
                Ok(()) => {},
                Err(_) => {
                    proof {
                        assert(false);
                    }
                },
            }
        } else if !rawdesc.as_str().is_empty() && !(rawdesc == signature.descriptor) {
            // accepted: the descriptor changed even though the name did
            // not; nothing to record, the reader derives descriptors
        } else {
            let key = MethodData { class: cls.clone(), name: name, signature: signature };
            return Err(BinaryMappingError::UnchangedMethod(key));
        }
        i = i + 1;
    }
    Ok(())
}

/// Decode one class group into the builder.
fn decode_group(d: &mut SimpleDecoder, builder: &mut MappingsBuilder) -> (r: Result<
    (),
    BinaryMappingError,
>)
    requires
        old(d).wf(),
        old(builder).wf(),
    ensures
        final(d).data == old(d).data,
        final(d).wf(),
        final(builder).wf(),
        match sdec_group(old(d).data@, old(d).pos as int, old(builder)@) {
            Ok((s, p2)) => r is Ok && final(builder)@ == s && final(d).pos == p2,
            Err(k) => r matches Err(e) && bin_err_kind(e) == k,
        },
{
    let orig_str = match d.read_string() {
        Ok(s) => s,
        Err(e) => {
            return Err(e);
        },
    };
    let class = match JavaClass::parse_internal_name(orig_str.as_str()) {
        Ok(c) => c,
        Err(e) => {
            return Err(BinaryMappingError::InvalidName(e));
        },
    };
    let rawrev = match d.read_string() {
        Ok(s) => s,
        Err(e) => {
            return Err(e);
        },
    };
    let revised = if rawrev.as_str().is_empty() {
        class.clone()
    } else {
        match JavaClass::parse_internal_name(rawrev.as_str()) {
            Ok(c) => c,
            Err(e) => {
                return Err(BinaryMappingError::InvalidName(e));
            },
        }
    };
    if !(revised == class) {
        match builder.insert_class(class.clone(), revised) {
            Ok(()) => {},
            Err(_) => {
                proof {
                    assert(false);
                }
            },
        }
    }
    let nm = match d.read_u32() {
        Ok(v) => v,
        Err(e) => {
            return Err(e);
        },
    };
    if let Err(e) = decode_methods(d, nm, &class, builder) {
        return Err(e);
    }
    let nf = match d.read_u32() {
        Ok(v) => v,
        Err(e) => {
            return Err(e);
        },
    };
    decode_fields(d, nf, &class, builder)
}

/// Decode a whole body into the builder.
#[verifier::rlimit(100)]
fn decode_body(payload: Vec<u8>, builder: &mut MappingsBuilder) -> (r: Result<
    (),
    BinaryMappingError,
>)
    requires
        old(builder).wf(),
    ensures
        final(builder).wf(),
        match spec_decode_body(payload@, old(builder)@) {
            Ok(s) => r is Ok && final(builder)@ == s,
            Err(k) => r matches Err(e) && bin_err_kind(e) == k,
        },
{
    let mut d = SimpleDecoder::new(payload);
    proof {
        assert(d.data@ == payload@);
    }
    let n = match d.read_u64() {
        Ok(v) => v,
        Err(e) => {
            proof {
                assert(dec_u64(payload@, 0) is None);
            }
            return Err(e);
        },
    };
    proof {
        assert(dec_u64(payload@, 0) == Some((n as int, 8int)));
    }
    let mut i: u64 = 0;
    while i < n
        invariant
            i <= n,
            d.wf(),
            builder.wf(),
            d.data@ == payload@,
            dec_u64(d.data@, 0) == Some((n as int, 8int)),
            sdec_groups(d.data@, 8int, n as nat, old(builder)@) == sdec_groups(
                d.data@,
                d.pos as int,
                (n - i) as nat,
                builder@,
            ),
        decreases n - i,
    {
        if let Err(e) = decode_group(&mut d, builder) {
            return Err(e);
        }
        i = i + 1;
    }
    if d.remaining() != 0 {
        let trailing = match d.read_bytes(d.data.len() - d.pos) {
            Ok(v) => v,
            Err(_) => {
                proof {
                    assert(false);
                }
                Vec::new()
            },
        };
        return Err(BinaryMappingError::UnexpectedTrailing(trailing));
    }
    Ok(())
}

/// The store the field entries of one class decode to: each renaming
/// inserted in order under that class.
pub open spec fn store_add_fields(acc: StoreV, cls: Seq<char>, fs: Seq<(Seq<char>, Seq<char>)>) -> StoreV
    decreases fs.len(),
{
    if fs.len() == 0 {
        acc
    } else {
        store_add_fields(
            StoreV {
                classes: acc.classes,
                fields: insert_assoc(
                    acc.fields,
                    FieldDataV { class: cls, name: fs[0].0 },
                    fs[0].1,
                ),
                methods: acc.methods,
            },
            cls,
            fs.drop_first(),
        )
    }
}

/// Round trip of one class's field entries: decoding what the encoder
/// framed restores exactly those renamings, wherever in a stream the
/// frame sits.
pub proof fn lemma_sdec_fields_enc(
    b: Seq<u8>,
    p: int,
    fs: Seq<(Seq<char>, Seq<char>)>,
    cls: Seq<char>,
    acc: StoreV,
)
    requires
        0 <= p,
        p + enc_fields(fs).len() <= b.len(),
        b.subrange(p, p + enc_fields(fs).len()) == enc_fields(fs),
        forall|i: int|
            0 <= i < fs.len() ==> {
                &&& (#[trigger] fs[i]).0.len() > 0
                &&& fs[i].1.len() > 0
                &&& fs[i].0 != fs[i].1
                &&& str16_fits(fs[i].0)
                &&& str16_fits(fs[i].1)
            },
    ensures
        sdec_fields(b, p, fs.len() as nat, cls, acc) == Ok::<(StoreV, int), BinErrKind>(
            (store_add_fields(acc, cls, fs), p + enc_fields(fs).len()),
        ),
    decreases fs.len(),
{
    if fs.len() > 0 {
        let e0 = enc_str(fs[0].0);
        let e1 = enc_str(fs[0].1);
        let total = enc_fields(fs);
        assert(total == enc_field_entry(fs[0]) + enc_fields(fs.drop_first()));
        assert(enc_field_entry(fs[0]) == e0 + e1);
        assert forall|k: int| 0 <= k < total.len() implies b[p + k] == total[k] by {
            assert(b.subrange(p, p + total.len())[k] == b[p + k]);
        }
        assert(b.subrange(p, p + e0.len()) =~= e0) by {
            assert forall|k: int| 0 <= k < e0.len() implies b[p + k] == e0[k] by {
                assert(total[k] == (e0 + e1)[k]);
            }
        }
        lemma_dec_str_enc(b, p, fs[0].0);
        let p1 = p + e0.len();
        assert(b.subrange(p1, p1 + e1.len()) =~= e1) by {
            assert forall|k: int| 0 <= k < e1.len() implies b[p1 + k] == e1[k] by {
                assert(total[e0.len() + k] == (e0 + e1)[e0.len() + k]);
            }
        }
        lemma_dec_str_enc(b, p1, fs[0].1);
        let p2 = p1 + e1.len();
        let rest = enc_fields(fs.drop_first());
        assert(b.subrange(p2, p2 + rest.len()) =~= rest) by {
            assert forall|k: int| 0 <= k < rest.len() implies b[p2 + k] == rest[k] by {
                assert(total[(e0.len() + e1.len()) + k] == rest[k]);
            }
        }
        assert forall|i: int|
            0 <= i < fs.drop_first().len() implies {
            &&& (#[trigger] fs.drop_first()[i]).0.len() > 0
            &&& fs.drop_first()[i].1.len() > 0
            &&& fs.drop_first()[i].0 != fs.drop_first()[i].1
            &&& str16_fits(fs.drop_first()[i].0)
            &&& str16_fits(fs.drop_first()[i].1)
        } by {
            assert(fs.drop_first()[i] == fs[i + 1]);
        }
        let acc1 = StoreV {
            classes: acc.classes,
            fields: insert_assoc(acc.fields, FieldDataV { class: cls, name: fs[0].0 }, fs[0].1),
            methods: acc.methods,
        };
        lemma_sdec_fields_enc(b, p2, fs.drop_first(), cls, acc1);
    }
}

/// The store the method entries of one class decode to: each renaming
/// inserted in order under that class, keyed by its original
/// descriptor.
pub open spec fn store_add_methods(
    acc: StoreV,
    cls: Seq<char>,
    ms: Seq<(Seq<char>, Seq<char>, Seq<char>)>,
) -> StoreV
    decreases ms.len(),
{
    if ms.len() == 0 {
        acc
    } else {
        store_add_methods(
            StoreV {
                classes: acc.classes,
                fields: acc.fields,
                methods: insert_assoc(
                    acc.methods,
                    MethodDataV { class: cls, name: ms[0].0, descriptor: ms[0].2 },
                    ms[0].1,
                ),
            },
            cls,
            ms.drop_first(),
        )
    }
}

/// Round trip of one class's method entries: decoding what the encoder
/// framed restores exactly those renamings.  The encoder leaves every
/// renamed descriptor empty, so the reader keeps each entry.
#[verifier::rlimit(80)]
pub proof fn lemma_sdec_methods_enc(
    b: Seq<u8>,
    p: int,
    ms: Seq<(Seq<char>, Seq<char>, Seq<char>)>,
    cls: Seq<char>,
    acc: StoreV,
)
    requires
        0 <= p,
        p + enc_methods(ms).len() <= b.len(),
        b.subrange(p, p + enc_methods(ms).len()) == enc_methods(ms),
        forall|i: int|
            0 <= i < ms.len() ==> {
                &&& (#[trigger] ms[i]).0.len() > 0
                &&& ms[i].1.len() > 0
                &&& ms[i].0 != ms[i].1
                &&& valid_sig(ms[i].2)
                &&& str16_fits(ms[i].0)
                &&& str16_fits(ms[i].1)
                &&& str16_fits(ms[i].2)
            },
    ensures
        sdec_methods(b, p, ms.len() as nat, cls, acc) == Ok::<(StoreV, int), BinErrKind>(
            (store_add_methods(acc, cls, ms), p + enc_methods(ms).len()),
        ),
    decreases ms.len(),
{
    if ms.len() > 0 {
        let e0 = enc_str(ms[0].0);
        let e1 = enc_str(ms[0].1);
        let e2 = enc_str(ms[0].2);
        let e3 = enc_str(Seq::<char>::empty());
        let total = enc_methods(ms);
        assert(total == enc_method_entry(ms[0]) + enc_methods(ms.drop_first()));
        assert(enc_method_entry(ms[0]) == ((e0 + e1) + e2) + e3);
        assert forall|k: int| 0 <= k < total.len() implies b[p + k] == total[k] by {
            assert(b.subrange(p, p + total.len())[k] == b[p + k]);
        }
        assert(b.subrange(p, p + e0.len()) =~= e0) by {
            assert forall|k: int| 0 <= k < e0.len() implies b[p + k] == e0[k] by {
                assert(total[k] == (((e0 + e1) + e2) + e3)[k]);
            }
        }
        lemma_dec_str_enc(b, p, ms[0].0);
        let p1 = p + e0.len();
        assert(b.subrange(p1, p1 + e1.len()) =~= e1) by {
            assert forall|k: int| 0 <= k < e1.len() implies b[p1 + k] == e1[k] by {
                assert(total[e0.len() + k] == (((e0 + e1) + e2) + e3)[e0.len() + k]);
            }
        }
        lemma_dec_str_enc(b, p1, ms[0].1);
        let p2 = p1 + e1.len();
        assert(b.subrange(p2, p2 + e2.len()) =~= e2) by {
            assert forall|k: int| 0 <= k < e2.len() implies b[p2 + k] == e2[k] by {
                assert(total[(e0.len() + e1.len()) + k] == (((e0 + e1) + e2) + e3)[(e0.len()
                    + e1.len()) + k]);
            }
        }
        lemma_dec_str_enc(b, p2, ms[0].2);
        let p3 = p2 + e2.len();
        assert(b.subrange(p3, p3 + e3.len()) =~= e3) by {
            assert forall|k: int| 0 <= k < e3.len() implies b[p3 + k] == e3[k] by {
                assert(total[((e0.len() + e1.len()) + e2.len()) + k] == (((e0 + e1) + e2) + e3)[((
                e0.len() + e1.len()) + e2.len()) + k]);
            }
        }
        assert(encode_utf8(Seq::<char>::empty()) =~= Seq::<u8>::empty());
        assert(str16_fits(Seq::<char>::empty()));
        lemma_dec_str_enc(b, p3, Seq::<char>::empty());
        let p4 = p3 + e3.len();
        let rest = enc_methods(ms.drop_first());
        assert(b.subrange(p4, p4 + rest.len()) =~= rest) by {
            assert forall|k: int| 0 <= k < rest.len() implies b[p4 + k] == rest[k] by {
                assert(total[(((e0.len() + e1.len()) + e2.len()) + e3.len()) + k] == rest[k]);
            }
        }
        assert forall|i: int|
            0 <= i < ms.drop_first().len() implies {
            &&& (#[trigger] ms.drop_first()[i]).0.len() > 0
            &&& ms.drop_first()[i].1.len() > 0
            &&& ms.drop_first()[i].0 != ms.drop_first()[i].1
            &&& valid_sig(ms.drop_first()[i].2)
            &&& str16_fits(ms.drop_first()[i].0)
            &&& str16_fits(ms.drop_first()[i].1)
            &&& str16_fits(ms.drop_first()[i].2)
        } by {
            assert(ms.drop_first()[i] == ms[i + 1]);
        }
        let acc1 = StoreV {
            classes: acc.classes,
            fields: acc.fields,
            methods: insert_assoc(
                acc.methods,
                MethodDataV { class: cls, name: ms[0].0, descriptor: ms[0].2 },
                ms[0].1,
            ),
        };
        lemma_sdec_methods_enc(b, p4, ms.drop_first(), cls, acc1);
    }
}

/// Reads the framed binary container.
#[derive(Debug)]
pub struct MappingsDecoder {
    pub data: Vec<u8>,
}

impl MappingsDecoder {
    pub fn new(data: Vec<u8>) -> (r: MappingsDecoder)
        ensures
            r.data@ == data@,
    {
        MappingsDecoder { data }
    }

    /// Decode the container into the builder.  Only actual renamings
    /// are recorded; identity class lines are dropped, and identity
    /// member lines are rejected.
    pub fn decode(self, builder: &mut MappingsBuilder) -> (r: Result<(), BinaryMappingError>)
        requires
            old(builder).wf(),
        ensures
            final(builder).wf(),
            match spec_envelope(self.data@) {
                Err(k) => r matches Err(e) && bin_err_kind(e) == k,
                Ok((f, rest)) => match f {
                    MappingsCompressionFormat::Uncompressed => (match spec_decode_body(
                        rest,
                        old(builder)@,
                    ) {
                        Ok(s) => r is Ok && final(builder)@ == s,
                        Err(k) => r matches Err(e) && bin_err_kind(e) == k,
                    }),
                    MappingsCompressionFormat::Lz4 => (forall|x: Seq<u8>|
                        rest == lz4_frame_of(x) ==> (match spec_decode_body(x, old(builder)@) {
                            Ok(s) => r is Ok && final(builder)@ == s,
                            Err(k) => r matches Err(e) && bin_err_kind(e) == k,
                        })),
                    _ => r matches Err(BinaryMappingError::UnsupportedCompression(_)),
                },
            },
    {
        let mut d = SimpleDecoder::new(self.data);
        let header = d.read_nullterm();
        let magic = magic_vec();
        if !bytes_equal(&header, &magic) {
            return Err(BinaryMappingError::UnexpectedHeader(header));
        }
        let version = match d.read_u32() {
            Ok(v) => v,
            Err(e) => {
                return Err(e);
            },
        };
        if version != 1 {
            return Err(BinaryMappingError::UnexpectedVersion(version));
        }
        let id = match d.read_string() {
            Ok(s) => s,
            Err(e) => {
                return Err(e);
            },
        };
        let format = match MappingsCompressionFormat::parse(id.as_str()) {
            Ok(f) => f,
            Err(e) => {
                return Err(e);
            },
        };
        let rest = match d.read_bytes(d.data.len() - d.pos) {
            Ok(v) => v,
            Err(_) => {
                proof {
                    assert(false);
                }
                Vec::new()
            },
        };
        proof {
            match spec_envelope(d.data@) {
                Ok((f2, r2)) => {
                    assert(rest@ =~= r2);
                },
                Err(_) => {},
            }
        }
        match format {
            MappingsCompressionFormat::Uncompressed => decode_body(rest, builder),
            MappingsCompressionFormat::Lz4 => {
                match lz4_decompress(&rest) {
                    Some(body) => decode_body(body, builder),
                    None => Err(BinaryMappingError::CompressionFailure),
                }
            },
            f => Err(BinaryMappingError::UnsupportedCompression(f)),
        }
    }
}

/// Relies on std's `str::from_utf8`: succeeds exactly on valid UTF-8
/// and yields the characters those bytes encode.
#[verifier::external_body]
fn bytes_to_string(b: &[u8]) -> (r: Option<String>)
    ensures
        r is Some <==> valid_utf8(b@),
        r matches Some(s) ==> encode_utf8(s@) == b@,
{
    match core::str::from_utf8(b) {
        Ok(s) => Some(s.to_owned()),
        Err(_) => None,
    }
}

} // verus!
