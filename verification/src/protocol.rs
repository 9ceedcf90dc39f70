//! Wire format of the frames.
//!
//! **Header frame** (the first frame):
//! ```text
//! [magic: 4 bytes "QRDV"]
//! [version: 1 byte]
//! [flags: 1 byte]          // bit 0 = encrypted, bit 1 = compressed
//! [total_frames: 4 bytes LE]
//! [original_size: 8 bytes LE]
//! [checksum: 4 bytes LE]   // CRC32 of the original (unencrypted, uncompressed) data
//! [filename_len: 2 bytes LE]
//! [filename: N bytes, UTF-8]
//! [salt: 16 bytes]         // only if encrypted
//! [nonce: 12 bytes]        // only if encrypted
//! ```
//!
//! **Data frame** (every later frame):
//! ```text
//! [frame_index: 4 bytes LE]
//! [chunk_crc: 4 bytes LE]  // CRC32 of this chunk's data
//! [data: remaining bytes]
//! ```

use vstd::prelude::*;
use vstd::utf8::{decode_utf8, encode_utf8, valid_utf8};
use crate::bytes::{
    copy_range, le16_bytes, le16_value, le32_bytes, le32_value, le64_bytes, le64_value,
    lemma_le16_from_bytes, lemma_le16_roundtrip, lemma_le32_from_bytes, lemma_le32_roundtrip,
    lemma_le64_from_bytes, lemma_le64_roundtrip, push_all, push_u16_le,
    push_u32_le, push_u64_le, read_u16_le, read_u32_le, read_u64_le,
};

verus! {

broadcast use vstd::utf8::group_utf8_lib;

/// The four magic bytes `"QRDV"` that open every header frame.
pub const MAGIC: [u8; 4] = [0x51, 0x52, 0x44, 0x56];

/// The format version written and accepted.
pub const VERSION: u8 = 1;

/// Flag bit: the payload is encrypted.
pub const FLAG_ENCRYPTED: u8 = 0x01;

/// Flag bit: the payload is compressed.
pub const FLAG_COMPRESSED: u8 = 0x02;

/// The magic bytes as a sequence.
pub open spec fn magic_bytes() -> Seq<u8> {
    seq![0x51u8, 0x52u8, 0x44u8, 0x56u8]
}

/// A field of a frame that the input ended in the middle of.
#[derive(Debug, Clone, Copy, PartialEq, Eq, Structural)]
pub enum Field {
    Magic,
    Version,
    Flags,
    TotalFrames,
    OriginalSize,
    Checksum,
    FilenameLength,
    Filename,
    Salt,
    Nonce,
    FrameIndex,
    ChunkCrc,
}

/// Why a frame could not be written or read.
#[derive(Debug, Clone, Copy, PartialEq, Eq, Structural)]
pub enum ProtocolError {
    /// The input ended inside this field.
    Truncated(Field),
    /// The first four bytes are not `"QRDV"`.
    InvalidMagic,
    /// The version byte is not [`VERSION`].
    UnsupportedVersion(u8),
    /// The filename bytes are not valid UTF-8.
    InvalidFilename,
    /// The encrypted flag is set but the salt or the nonce is missing.
    MissingSaltOrNonce,
    /// The filename is longer than the 16-bit length field can say (65535
    /// bytes of UTF-8).
    FilenameTooLong,
}

/// Metadata carried by the header frame.
#[derive(Debug, Clone)]
pub struct Header {
    pub flags: u8,
    pub total_frames: u32,
    pub original_size: u64,
    pub checksum: u32,
    pub filename: String,
    pub salt: Option<[u8; 16]>,
    pub nonce: Option<[u8; 12]>,
}

/// The mathematical content of a [`Header`].
pub ghost struct HeaderView {
    pub flags: u8,
    pub total_frames: u32,
    pub original_size: u64,
    pub checksum: u32,
    pub filename: Seq<char>,
    pub salt: Option<Seq<u8>>,
    pub nonce: Option<Seq<u8>>,
}

/// The contents of an optional byte array.
pub open spec fn opt_bytes<const N: usize>(o: Option<[u8; N]>) -> Option<Seq<u8>> {
    match o {
        Some(a) => Some(a@),
        None => None,
    }
}

impl View for Header {
    type V = HeaderView;

    open spec fn view(&self) -> HeaderView {
        HeaderView {
            flags: self.flags,
            total_frames: self.total_frames,
            original_size: self.original_size,
            checksum: self.checksum,
            filename: self.filename@,
            salt: opt_bytes(self.salt),
            nonce: opt_bytes(self.nonce),
        }
    }
}

/// Whether `flags` has the encrypted bit.
pub open spec fn flags_encrypted(flags: u8) -> bool {
    flags & FLAG_ENCRYPTED != 0
}

/// Whether `flags` has the compressed bit.
pub open spec fn flags_compressed(flags: u8) -> bool {
    flags & FLAG_COMPRESSED != 0
}

/// The salt and nonce bytes that follow the filename: present only when encrypted.
pub open spec fn header_key_material(h: HeaderView) -> Seq<u8> {
    if flags_encrypted(h.flags) {
        h.salt.unwrap() + h.nonce.unwrap()
    } else {
        Seq::empty()
    }
}

/// The fixed 24 bytes that open a header's encoding: magic, version, flags,
/// frame count, size, checksum and the filename's byte length.  Only names
/// shorter than 2^16 bytes are ever written (see [`spec_serialize_header`]);
/// the reduction modulo 2^16 keeps this function total.
pub open spec fn header_prefix(h: HeaderView) -> Seq<u8> {
    magic_bytes() + seq![VERSION, h.flags] + le32_bytes(h.total_frames) + le64_bytes(
        h.original_size,
    ) + le32_bytes(h.checksum) + le16_bytes((encode_utf8(h.filename).len() % 0x1_0000) as u16)
}

/// The encoding of a header: the fixed prefix, the UTF-8 filename, then the
/// salt and nonce when encrypted.
pub open spec fn header_bytes(h: HeaderView) -> Seq<u8> {
    header_prefix(h) + encode_utf8(h.filename) + header_key_material(h)
}

/// What serialising a header gives.
pub open spec fn spec_serialize_header(h: HeaderView) -> Result<Seq<u8>, ProtocolError> {
    if encode_utf8(h.filename).len() >= 0x1_0000 {
        Err(ProtocolError::FilenameTooLong)
    } else if flags_encrypted(h.flags) && (h.salt is None || h.nonce is None) {
        Err(ProtocolError::MissingSaltOrNonce)
    } else {
        Ok(header_bytes(h))
    }
}

/// The header read from the front of `b`, once the filename is known to be
/// `b[24..24 + n]` and present.
pub open spec fn parse_header_tail(b: Seq<u8>, n: int) -> Result<HeaderView, ProtocolError> {
    let name = b.subrange(24, 24 + n);
    let flags = b[5];
    let after = 24 + n;
    if !valid_utf8(name) {
        Err(ProtocolError::InvalidFilename)
    } else if flags_encrypted(flags) && b.len() < after + 16 {
        Err(ProtocolError::Truncated(Field::Salt))
    } else if flags_encrypted(flags) && b.len() < after + 28 {
        Err(ProtocolError::Truncated(Field::Nonce))
    } else {
        Ok(
            HeaderView {
                flags,
                total_frames: le32_value(b.subrange(6, 10)),
                original_size: le64_value(b.subrange(10, 18)),
                checksum: le32_value(b.subrange(18, 22)),
                filename: decode_utf8(name),
                salt: if flags_encrypted(flags) {
                    Some(b.subrange(after, after + 16))
                } else {
                    None
                },
                nonce: if flags_encrypted(flags) {
                    Some(b.subrange(after + 16, after + 28))
                } else {
                    None
                },
            },
        )
    }
}

/// What deserialising a header from `b` gives.  Bytes after the header are ignored.
pub open spec fn spec_parse_header(b: Seq<u8>) -> Result<HeaderView, ProtocolError> {
    if b.len() < 4 {
        Err(ProtocolError::Truncated(Field::Magic))
    } else if b.subrange(0, 4) != magic_bytes() {
        Err(ProtocolError::InvalidMagic)
    } else if b.len() < 5 {
        Err(ProtocolError::Truncated(Field::Version))
    } else if b[4] != VERSION {
        Err(ProtocolError::UnsupportedVersion(b[4]))
    } else if b.len() < 6 {
        Err(ProtocolError::Truncated(Field::Flags))
    } else if b.len() < 10 {
        Err(ProtocolError::Truncated(Field::TotalFrames))
    } else if b.len() < 18 {
        Err(ProtocolError::Truncated(Field::OriginalSize))
    } else if b.len() < 22 {
        Err(ProtocolError::Truncated(Field::Checksum))
    } else if b.len() < 24 {
        Err(ProtocolError::Truncated(Field::FilenameLength))
    } else if b.len() < 24 + le16_value(b.subrange(22, 24)) {
        Err(ProtocolError::Truncated(Field::Filename))
    } else {
        parse_header_tail(b, le16_value(b.subrange(22, 24)) as int)
    }
}

/// The error of `String::from_utf8`, carried through opaque.
#[verifier::external_type_specification]
#[verifier::external_body]
pub struct ExFromUtf8Error(std::string::FromUtf8Error);

/// `String::from_utf8`: the bytes become a string exactly when they are valid
/// UTF-8, and the string's characters are then their UTF-8 decoding.
#[verifier::external_body]
fn string_from_utf8(bytes: Vec<u8>) -> (r: Result<String, std::string::FromUtf8Error>)
    ensures
        r is Ok <==> valid_utf8(bytes@),
        r matches Ok(s) ==> s@ == decode_utf8(bytes@),
{
    String::from_utf8(bytes)
}

/// Copies `b[start..start + N]` into an array.
fn copy_array<const N: usize>(b: &[u8], start: usize) -> (r: [u8; N])
    requires
        start + N <= b.len(),
    ensures
        r@ == b@.subrange(start as int, start + N),
{
    let mut r = [0u8; N];
    let mut i: usize = 0;
    while i < N
        invariant
            start + N <= b.len(),
            i <= N,
            r@.len() == N,
            forall|j: int| 0 <= j < i ==> r@[j] == b@[start + j],
        decreases N - i,
    {
        r[i] = b[start + i];
        i = i + 1;
    }
    assert(r@ =~= b@.subrange(start as int, start + N));
    r
}

impl Header {
    /// Whether the payload is encrypted.
    pub fn is_encrypted(&self) -> (r: bool)
        ensures
            r == flags_encrypted(self.flags),
    {
        self.flags & FLAG_ENCRYPTED != 0
    }

    /// Whether the payload is compressed.
    pub fn is_compressed(&self) -> (r: bool)
        ensures
            r == flags_compressed(self.flags),
    {
        self.flags & FLAG_COMPRESSED != 0
    }

    /// The header frame's bytes.  Fails when the filename does not fit the
    /// 16-bit length field, or when the encrypted flag is set but the salt or
    /// the nonce is missing.
    pub fn serialize(&self) -> (r: Result<Vec<u8>, ProtocolError>)
        ensures
            match spec_serialize_header(self@) {
                Ok(b) => r matches Ok(v) && v@ == b,
                Err(e) => r == Err::<Vec<u8>, ProtocolError>(e),
            },
    {
        let mut buf: Vec<u8> = Vec::new();
        push_all(&mut buf, &MAGIC);
        buf.push(VERSION);
        buf.push(self.flags);
        push_u32_le(&mut buf, self.total_frames);
        push_u64_le(&mut buf, self.original_size);
        push_u32_le(&mut buf, self.checksum);
        let name = self.filename.as_str().as_bytes();
        if name.len() >= 0x1_0000 {
            return Err(ProtocolError::FilenameTooLong);
        }
        push_u16_le(&mut buf, name.len() as u16);
        push_all(&mut buf, name);
        proof {
            let h = self@;
            assert(MAGIC@ =~= magic_bytes());
            assert(buf@ =~= header_prefix(h) + encode_utf8(h.filename));
        }
        if self.is_encrypted() {
            match (&self.salt, &self.nonce) {
                (Some(salt), Some(nonce)) => {
                    push_all(&mut buf, salt);
                    push_all(&mut buf, nonce);
                },
                _ => {
                    return Err(ProtocolError::MissingSaltOrNonce);
                },
            }
        }
        proof {
            assert(buf@ =~= header_bytes(self@));
        }
        Ok(buf)
    }

    /// Reads a header from the front of `data`.
    pub fn deserialize(data: &[u8]) -> (r: Result<Header, ProtocolError>)
        ensures
            match spec_parse_header(data@) {
                Ok(v) => r matches Ok(h) && h@ == v,
                Err(e) => r == Err::<Header, ProtocolError>(e),
            },
    {
        let len = data.len();
        if len < 4 {
            return Err(ProtocolError::Truncated(Field::Magic));
        }
        if !(data[0] == MAGIC[0] && data[1] == MAGIC[1] && data[2] == MAGIC[2] && data[3]
            == MAGIC[3]) {
            proof {
                if data@.subrange(0, 4) == magic_bytes() {
                    assert(data@[0] == data@.subrange(0, 4)[0]);
                    assert(data@[1] == data@.subrange(0, 4)[1]);
                    assert(data@[2] == data@.subrange(0, 4)[2]);
                    assert(data@[3] == data@.subrange(0, 4)[3]);
                }
            }
            return Err(ProtocolError::InvalidMagic);
        }
        assert(data@.subrange(0, 4) =~= magic_bytes());
        if len < 5 {
            return Err(ProtocolError::Truncated(Field::Version));
        }
        let version = data[4];
        if version != VERSION {
            return Err(ProtocolError::UnsupportedVersion(version));
        }
        if len < 6 {
            return Err(ProtocolError::Truncated(Field::Flags));
        }
        let flags = data[5];
        if len < 10 {
            return Err(ProtocolError::Truncated(Field::TotalFrames));
        }
        let total_frames = read_u32_le(data, 6);
        if len < 18 {
            return Err(ProtocolError::Truncated(Field::OriginalSize));
        }
        let original_size = read_u64_le(data, 10);
        if len < 22 {
            return Err(ProtocolError::Truncated(Field::Checksum));
        }
        let checksum = read_u32_le(data, 18);
        if len < 24 {
            return Err(ProtocolError::Truncated(Field::FilenameLength));
        }
        let name_len = read_u16_le(data, 22) as usize;
        if len - 24 < name_len {
            return Err(ProtocolError::Truncated(Field::Filename));
        }
        let after = 24 + name_len;
        let name_bytes = copy_range(data, 24, after);
        let filename = match string_from_utf8(name_bytes) {
            Ok(s) => s,
            Err(_) => {
                return Err(ProtocolError::InvalidFilename);
            },
        };
        let (salt, nonce) = if flags & FLAG_ENCRYPTED != 0 {
            if len - after < 16 {
                return Err(ProtocolError::Truncated(Field::Salt));
            }
            let salt: [u8; 16] = copy_array(data, after);
            if len - after < 28 {
                return Err(ProtocolError::Truncated(Field::Nonce));
            }
            let nonce: [u8; 12] = copy_array(data, after + 16);
            (Some(salt), Some(nonce))
        } else {
            (None, None)
        };
        let h = Header { flags, total_frames, original_size, checksum, filename, salt, nonce };
        assert(h@ == spec_parse_header(data@).unwrap());
        Ok(h)
    }
}

/// A well-formed header: it has a salt and a nonce exactly when its encrypted
/// flag is set, and its filename fits the 16-bit length field.
pub open spec fn header_well_formed(h: HeaderView) -> bool {
    &&& encode_utf8(h.filename).len() < 0x1_0000
    &&& (h.salt is Some) == flags_encrypted(h.flags)
    &&& (h.nonce is Some) == flags_encrypted(h.flags)
    &&& (h.salt matches Some(s) ==> s.len() == 16)
    &&& (h.nonce matches Some(n) ==> n.len() == 12)
}

/// The fields of the fixed prefix, at their offsets.
proof fn lemma_header_prefix_fields(v: HeaderView)
    ensures
        header_prefix(v).len() == 24,
        header_prefix(v).subrange(0, 4) == magic_bytes(),
        header_prefix(v)[4] == VERSION,
        header_prefix(v)[5] == v.flags,
        le32_value(header_prefix(v).subrange(6, 10)) == v.total_frames,
        le64_value(header_prefix(v).subrange(10, 18)) == v.original_size,
        le32_value(header_prefix(v).subrange(18, 22)) == v.checksum,
        le16_value(header_prefix(v).subrange(22, 24)) == encode_utf8(v.filename).len()
            % 0x1_0000,
{
    let pre = header_prefix(v);
    let len16 = (encode_utf8(v.filename).len() % 0x1_0000) as u16;
    lemma_le16_roundtrip(len16);
    lemma_le32_roundtrip(v.total_frames);
    lemma_le64_roundtrip(v.original_size);
    lemma_le32_roundtrip(v.checksum);
    assert(pre.subrange(0, 4) =~= magic_bytes());
    assert(pre.subrange(6, 10) =~= le32_bytes(v.total_frames));
    assert(pre.subrange(10, 18) =~= le64_bytes(v.original_size));
    assert(pre.subrange(18, 22) =~= le32_bytes(v.checksum));
    assert(pre.subrange(22, 24) =~= le16_bytes(len16));
}

/// A subrange inside the first part of a concatenation is a subrange of that part.
proof fn lemma_subrange_left(a: Seq<u8>, b: Seq<u8>, i: int, j: int)
    requires
        0 <= i <= j <= a.len(),
    ensures
        (a + b).subrange(i, j) == a.subrange(i, j),
{
    assert((a + b).subrange(i, j) =~= a.subrange(i, j));
}

/// A subrange inside the second part of a concatenation is a subrange of that part.
proof fn lemma_subrange_right(a: Seq<u8>, b: Seq<u8>, i: int, j: int)
    requires
        0 <= i <= j <= b.len(),
    ensures
        (a + b).subrange(a.len() + i, a.len() + j) == b.subrange(i, j),
{
    assert((a + b).subrange(a.len() + i, a.len() + j) =~= b.subrange(i, j));
}

/// A header's fields, read back from its own encoding followed by any bytes,
/// are the fields that were written: serialising a well-formed header succeeds
/// and deserialising the result (with or without trailing bytes) gives it back.
pub proof fn lemma_header_roundtrip(v: HeaderView, rest: Seq<u8>)
    requires
        header_well_formed(v),
    ensures
        spec_serialize_header(v) matches Ok(b) && spec_parse_header(b + rest) == Ok::<
            HeaderView,
            ProtocolError,
        >(v),
{
    assert(spec_serialize_header(v) == Ok::<Seq<u8>, ProtocolError>(header_bytes(v)));
    lemma_header_parse_written(v, rest);
}

/// Parsing the encoding of a well-formed header, followed by any bytes, gives
/// the header back.
proof fn lemma_header_parse_written(v: HeaderView, rest: Seq<u8>)
    requires
        header_well_formed(v),
    ensures
        spec_parse_header(header_bytes(v) + rest) == Ok::<HeaderView, ProtocolError>(v),
{
    let pre = header_prefix(v);
    let name = encode_utf8(v.filename);
    let km = header_key_material(v);
    let n = name.len() as int;
    let tail = name + (km + rest);
    let all = header_bytes(v) + rest;
    assert(all =~= pre + tail);
    lemma_header_prefix_fields(v);
    lemma_subrange_left(pre, tail, 0, 4);
    lemma_subrange_left(pre, tail, 22, 24);
    assert(all[4] == pre[4]);
    assert(n % 0x1_0000 == n);
    assert(le16_value(all.subrange(22, 24)) == n);
    assert(spec_parse_header(all) == parse_header_tail(all, n));
    lemma_header_tail_written(v, rest);
}

/// The part of parsing after the filename length gives back a well-formed
/// header from its encoding followed by any bytes.
proof fn lemma_header_tail_written(v: HeaderView, rest: Seq<u8>)
    requires
        header_well_formed(v),
    ensures
        parse_header_tail(header_bytes(v) + rest, encode_utf8(v.filename).len() as int) == Ok::<
            HeaderView,
            ProtocolError,
        >(v),
{
    let pre = header_prefix(v);
    let name = encode_utf8(v.filename);
    let km = header_key_material(v);
    let n = name.len() as int;
    let tail = name + (km + rest);
    let all = header_bytes(v) + rest;
    assert(all =~= pre + tail);
    lemma_header_prefix_fields(v);
    lemma_subrange_left(pre, tail, 6, 10);
    lemma_subrange_left(pre, tail, 10, 18);
    lemma_subrange_left(pre, tail, 18, 22);
    assert(all[5] == pre[5]);
    lemma_subrange_right(pre, tail, 0, n);
    lemma_subrange_left(name, km + rest, 0, n);
    assert(name.subrange(0, n) =~= name);
    assert(all.subrange(24, 24 + n) == name);
    if flags_encrypted(v.flags) {
        let s = v.salt.unwrap();
        let o = v.nonce.unwrap();
        assert(km == s + o);
        lemma_subrange_right(pre, tail, n, n + 28);
        lemma_subrange_right(name, km + rest, 0, 28);
        lemma_subrange_left(km, rest, 0, 28);
        assert(km.subrange(0, 28) =~= km);
        assert(all.subrange(24 + n, 24 + n + 28) == s + o);
        assert(all.subrange(24 + n, 24 + n + 16) =~= (s + o).subrange(0, 16));
        assert(all.subrange(24 + n + 16, 24 + n + 28) =~= (s + o).subrange(16, 28));
        assert((s + o).subrange(0, 16) =~= s);
        assert((s + o).subrange(16, 28) =~= o);
    }
    let parsed = parse_header_tail(all, n).unwrap();
    assert(parsed.salt == v.salt);
    assert(parsed.nonce == v.nonce);
    assert(parsed == v);
}

/// Adjacent subranges join into one.
proof fn lemma_subranges_join(b: Seq<u8>, i: int, j: int, k: int)
    requires
        0 <= i <= j <= k <= b.len(),
    ensures
        b.subrange(i, j) + b.subrange(j, k) == b.subrange(i, k),
{
    assert(b.subrange(i, j) + b.subrange(j, k) =~= b.subrange(i, k));
}

/// The fixed prefix of a header whose fields were read from `b` is `b[0..24]`.
proof fn lemma_prefix_from_bytes(b: Seq<u8>, v: HeaderView)
    requires
        b.len() >= 24,
        b.subrange(0, 4) == magic_bytes(),
        b[4] == VERSION,
        b[5] == v.flags,
        v.total_frames == le32_value(b.subrange(6, 10)),
        v.original_size == le64_value(b.subrange(10, 18)),
        v.checksum == le32_value(b.subrange(18, 22)),
        encode_utf8(v.filename).len() == le16_value(b.subrange(22, 24)),
    ensures
        header_prefix(v) == b.subrange(0, 24),
{
    lemma_le16_from_bytes(b.subrange(22, 24));
    lemma_le32_from_bytes(b.subrange(6, 10));
    lemma_le64_from_bytes(b.subrange(10, 18));
    lemma_le32_from_bytes(b.subrange(18, 22));
    assert(seq![VERSION, v.flags] =~= b.subrange(4, 6));
    assert(header_prefix(v) =~= b.subrange(0, 4) + b.subrange(4, 6) + b.subrange(6, 10)
        + b.subrange(10, 18) + b.subrange(18, 22) + b.subrange(22, 24));
    assert(b.subrange(0, 4) + b.subrange(4, 6) + b.subrange(6, 10) + b.subrange(10, 18)
        + b.subrange(18, 22) + b.subrange(22, 24) =~= b.subrange(0, 24));
}

/// The serialisation of a header read from `b`, once the parser has got past
/// the filename length `n`, is the leading part of `b`.
proof fn lemma_header_tail_serialize(b: Seq<u8>, n: int)
    requires
        b.len() >= 24 + n,
        0 <= n < 0x1_0000,
        n == le16_value(b.subrange(22, 24)),
        b.subrange(0, 4) == magic_bytes(),
        b[4] == VERSION,
        parse_header_tail(b, n) is Ok,
    ensures
        ({
            let v = parse_header_tail(b, n)->Ok_0;
            &&& spec_serialize_header(v) is Ok
            &&& header_bytes(v) == b.subrange(0, header_bytes(v).len() as int)
        }),
{
    let v = parse_header_tail(b, n)->Ok_0;
    let name = b.subrange(24, 24 + n);
    assert(encode_utf8(v.filename) == name);
    lemma_prefix_from_bytes(b, v);
    let km = header_key_material(v);
    let e = 24 + n + km.len();
    assert(km =~= b.subrange(24 + n, e));
    lemma_subranges_join(b, 0, 24, 24 + n);
    lemma_subranges_join(b, 0, 24 + n, e);
}

/// Whatever header is read from some bytes, serialising it again reproduces
/// exactly the bytes that were read, the leading part of the input.
pub proof fn lemma_header_parse_serialize(b: Seq<u8>)
    ensures
        spec_parse_header(b) matches Ok(v) ==> (spec_serialize_header(v) matches Ok(s) && s
            == b.subrange(0, s.len() as int)),
{
    if spec_parse_header(b) is Ok {
        let n = le16_value(b.subrange(22, 24)) as int;
        assert(spec_parse_header(b) == parse_header_tail(b, n));
        lemma_header_tail_serialize(b, n);
    }
}

/// Where each field of a well-formed header lands in its encoding: the magic
/// `"QRDV"`, the version and the flags in bytes 0..6, the frame count in bytes
/// 6..10 and the checksum in bytes 18..22 (least significant byte first), the
/// size in bytes 10..18, the filename's byte length in bytes 22..24, the
/// filename from byte 24, and, when encrypted, the 16-byte salt right after
/// the filename followed by the 12-byte nonce, which ends the encoding.
pub proof fn lemma_header_layout(h: HeaderView)
    requires
        header_well_formed(h),
    ensures
        spec_serialize_header(h) matches Ok(b) && {
            let name = encode_utf8(h.filename);
            let n = name.len() as int;
            &&& b.subrange(0, 4) == seq![0x51u8, 0x52u8, 0x44u8, 0x56u8]
            &&& b[4] == VERSION
            &&& b[5] == h.flags
            &&& b[6] + 0x100 * b[7] + 0x1_0000 * b[8] + 0x100_0000 * b[9] == h.total_frames
            &&& b.subrange(10, 18) == le64_bytes(h.original_size)
            &&& b[18] + 0x100 * b[19] + 0x1_0000 * b[20] + 0x100_0000 * b[21] == h.checksum
            &&& b[22] + 0x100 * b[23] == n
            &&& b.subrange(24, 24 + n) == name
            &&& if flags_encrypted(h.flags) {
                &&& b.len() == 24 + n + 28
                &&& b.subrange(24 + n, 24 + n + 16) == h.salt.unwrap()
                &&& b.subrange(24 + n + 16, 24 + n + 28) == h.nonce.unwrap()
            } else {
                b.len() == 24 + n
            }
        },
{
    let pre = header_prefix(h);
    let name = encode_utf8(h.filename);
    let km = header_key_material(h);
    let n = name.len() as int;
    let b = header_bytes(h);
    assert(spec_serialize_header(h) == Ok::<Seq<u8>, ProtocolError>(b));
    lemma_header_prefix_fields(h);
    assert(b =~= pre + (name + km));
    lemma_subrange_left(pre, name + km, 0, 4);
    lemma_subrange_left(pre, name + km, 6, 10);
    lemma_subrange_left(pre, name + km, 10, 18);
    lemma_subrange_left(pre, name + km, 18, 22);
    lemma_subrange_left(pre, name + km, 22, 24);
    lemma_le64_roundtrip(h.original_size);
    assert(pre.subrange(10, 18) =~= le64_bytes(h.original_size));
    assert(b[4] == pre[4] && b[5] == pre[5]);
    assert(b[6] == pre.subrange(6, 10)[0] && b[7] == pre.subrange(6, 10)[1]);
    assert(b[8] == pre.subrange(6, 10)[2] && b[9] == pre.subrange(6, 10)[3]);
    assert(b[18] == pre.subrange(18, 22)[0] && b[19] == pre.subrange(18, 22)[1]);
    assert(b[20] == pre.subrange(18, 22)[2] && b[21] == pre.subrange(18, 22)[3]);
    assert(b[22] == pre.subrange(22, 24)[0] && b[23] == pre.subrange(22, 24)[1]);
    assert(n % 0x1_0000 == n);
    lemma_subrange_right(pre, name + km, 0, n);
    lemma_subrange_left(name, km, 0, n);
    assert(name.subrange(0, n) =~= name);
    if flags_encrypted(h.flags) {
        let s = h.salt.unwrap();
        let o = h.nonce.unwrap();
        assert(km == s + o);
        lemma_subrange_right(pre, name + km, n, n + 16);
        lemma_subrange_right(name, km, 0, 16);
        assert(km.subrange(0, 16) =~= s);
        lemma_subrange_right(pre, name + km, n + 16, n + 28);
        lemma_subrange_right(name, km, 16, 28);
        assert(km.subrange(16, 28) =~= o);
    }
}

/// Where parsing takes each field of a header from: the flags from byte 5,
/// the frame count from bytes 6..10, the filename's byte length from bytes
/// 22..24 and the filename from byte 24 on, and, when the flags say
/// encrypted, the salt from the 16 bytes right after the filename and the
/// nonce from the 12 bytes after the salt.
pub proof fn lemma_parsed_header_layout(b: Seq<u8>)
    ensures
        spec_parse_header(b) matches Ok(h) ==> {
            let name = encode_utf8(h.filename);
            let n = name.len() as int;
            &&& b.len() >= 24 + n
            &&& b.subrange(0, 4) == seq![0x51u8, 0x52u8, 0x44u8, 0x56u8]
            &&& b[4] == VERSION
            &&& h.flags == b[5]
            &&& h.total_frames == b[6] + 0x100 * b[7] + 0x1_0000 * b[8] + 0x100_0000 * b[9]
            &&& h.checksum == b[18] + 0x100 * b[19] + 0x1_0000 * b[20] + 0x100_0000 * b[21]
            &&& b[22] + 0x100 * b[23] == n
            &&& b.subrange(24, 24 + n) == name
            &&& if flags_encrypted(b[5]) {
                &&& b.len() >= 24 + n + 28
                &&& h.salt == Some(b.subrange(24 + n, 24 + n + 16))
                &&& h.nonce == Some(b.subrange(24 + n + 16, 24 + n + 28))
            } else {
                h.salt is None && h.nonce is None
            }
        },
{
    if spec_parse_header(b) is Ok {
        let n = le16_value(b.subrange(22, 24)) as int;
        assert(spec_parse_header(b) == parse_header_tail(b, n));
        let name = b.subrange(24, 24 + n);
        assert(valid_utf8(name));
        assert(encode_utf8(decode_utf8(name)) == name);
    }
}

/// One data frame: an index, the CRC32 of the chunk, and the chunk.
#[derive(Debug, Clone)]
pub struct DataFrame {
    pub frame_index: u32,
    pub chunk_crc: u32,
    pub data: Vec<u8>,
}

/// The mathematical content of a [`DataFrame`].
pub ghost struct DataFrameView {
    pub frame_index: u32,
    pub chunk_crc: u32,
    pub data: Seq<u8>,
}

impl View for DataFrame {
    type V = DataFrameView;

    open spec fn view(&self) -> DataFrameView {
        DataFrameView { frame_index: self.frame_index, chunk_crc: self.chunk_crc, data: self.data@ }
    }
}

/// The encoding of a data frame.
pub open spec fn data_frame_bytes(f: DataFrameView) -> Seq<u8> {
    le32_bytes(f.frame_index) + le32_bytes(f.chunk_crc) + f.data
}

/// What deserialising a data frame from `b` gives: all bytes after the two
/// numbers are the chunk.
pub open spec fn spec_parse_data_frame(b: Seq<u8>) -> Result<DataFrameView, ProtocolError> {
    if b.len() < 4 {
        Err(ProtocolError::Truncated(Field::FrameIndex))
    } else if b.len() < 8 {
        Err(ProtocolError::Truncated(Field::ChunkCrc))
    } else {
        Ok(
            DataFrameView {
                frame_index: le32_value(b.subrange(0, 4)),
                chunk_crc: le32_value(b.subrange(4, 8)),
                data: b.subrange(8, b.len() as int),
            },
        )
    }
}

/// Where each field of a data frame lands in its encoding: the frame index in
/// bytes 0..4 and the chunk's CRC32 in bytes 4..8, least significant byte
/// first, then the chunk.
pub proof fn lemma_data_frame_layout(f: DataFrameView)
    ensures
        ({
            let b = data_frame_bytes(f);
            &&& b.len() == 8 + f.data.len()
            &&& b[0] + 0x100 * b[1] + 0x1_0000 * b[2] + 0x100_0000 * b[3] == f.frame_index
            &&& b[4] + 0x100 * b[5] + 0x1_0000 * b[6] + 0x100_0000 * b[7] == f.chunk_crc
            &&& b.subrange(8, b.len() as int) == f.data
        }),
{
    let b = data_frame_bytes(f);
    lemma_le32_roundtrip(f.frame_index);
    lemma_le32_roundtrip(f.chunk_crc);
    assert(b.subrange(8, b.len() as int) =~= f.data);
    assert(b[0] == le32_bytes(f.frame_index)[0] && b[3] == le32_bytes(f.frame_index)[3]);
    assert(b[1] == le32_bytes(f.frame_index)[1] && b[2] == le32_bytes(f.frame_index)[2]);
    assert(b[4] == le32_bytes(f.chunk_crc)[0] && b[5] == le32_bytes(f.chunk_crc)[1]);
    assert(b[6] == le32_bytes(f.chunk_crc)[2] && b[7] == le32_bytes(f.chunk_crc)[3]);
}

/// Where parsing takes each field of a data frame from: the index from bytes
/// 0..4, the CRC32 from bytes 4..8 (least significant byte first) and the
/// chunk from everything after; any input of at least 8 bytes parses.
pub proof fn lemma_parsed_data_frame_layout(b: Seq<u8>)
    ensures
        spec_parse_data_frame(b) is Ok <==> b.len() >= 8,
        spec_parse_data_frame(b) matches Ok(f) ==> {
            &&& f.frame_index == b[0] + 0x100 * b[1] + 0x1_0000 * b[2] + 0x100_0000 * b[3]
            &&& f.chunk_crc == b[4] + 0x100 * b[5] + 0x1_0000 * b[6] + 0x100_0000 * b[7]
            &&& f.data == b.subrange(8, b.len() as int)
        },
{
}

impl DataFrame {
    /// The data frame's bytes.  This always succeeds.
    pub fn serialize(&self) -> (r: Result<Vec<u8>, ProtocolError>)
        ensures
            r matches Ok(v) && v@ == data_frame_bytes(self@),
    {
        let mut buf: Vec<u8> = Vec::new();
        push_u32_le(&mut buf, self.frame_index);
        push_u32_le(&mut buf, self.chunk_crc);
        push_all(&mut buf, self.data.as_slice());
        proof {
            assert(buf@ =~= data_frame_bytes(self@));
        }
        Ok(buf)
    }

    /// Reads a data frame from `data`.
    pub fn deserialize(data: &[u8]) -> (r: Result<DataFrame, ProtocolError>)
        ensures
            match spec_parse_data_frame(data@) {
                Ok(v) => r matches Ok(f) && f@ == v,
                Err(e) => r == Err::<DataFrame, ProtocolError>(e),
            },
    {
        if data.len() < 4 {
            return Err(ProtocolError::Truncated(Field::FrameIndex));
        }
        let frame_index = read_u32_le(data, 0);
        if data.len() < 8 {
            return Err(ProtocolError::Truncated(Field::ChunkCrc));
        }
        let chunk_crc = read_u32_le(data, 4);
        let payload = copy_range(data, 8, data.len());
        Ok(DataFrame { frame_index, chunk_crc, data: payload })
    }
}

/// Reading back a serialised data frame gives the same frame.
pub proof fn lemma_data_frame_roundtrip(f: DataFrameView)
    ensures
        spec_parse_data_frame(data_frame_bytes(f)) == Ok::<DataFrameView, ProtocolError>(f),
{
    let b = data_frame_bytes(f);
    lemma_le32_roundtrip(f.frame_index);
    lemma_le32_roundtrip(f.chunk_crc);
    assert(b.subrange(0, 4) =~= le32_bytes(f.frame_index));
    assert(b.subrange(4, 8) =~= le32_bytes(f.chunk_crc));
    assert(b.subrange(8, b.len() as int) =~= f.data);
}

/// Serialising a data frame that was read from some bytes gives those bytes.
pub proof fn lemma_data_frame_parse_serialize(b: Seq<u8>)
    ensures
        spec_parse_data_frame(b) matches Ok(f) ==> data_frame_bytes(f) == b,
{
    if b.len() >= 8 {
        lemma_le32_from_bytes(b.subrange(0, 4));
        lemma_le32_from_bytes(b.subrange(4, 8));
        assert(data_frame_bytes(spec_parse_data_frame(b).unwrap()) =~= b);
    }
}

} // verus!
