//! Turning a file into frame payloads: checksum, compress, optionally
//! encrypt, split into chunks, and serialise a header frame and one data frame
//! per chunk.

use vstd::prelude::*;
use vstd::utf8::encode_utf8;
use crate::checksum::{crc32, crc32_hash};
use crate::compress::{compress_data, deflate_best, inflate};
use crate::crypto::{
    aes256gcm_seal, argon2id_key, encrypt, spec_decrypt, CryptoError, MAX_PASSWORD_LEN,
    MAX_PLAINTEXT_LEN,
};
use crate::cli::EcLevel;
use crate::decode::{
    frame_reads, frame_step, key_bytes, spec_collect, spec_concat, spec_decode_scans,
    spec_decode_stream, spec_missing, spec_recover, spec_stream_header, RecoveryError,
};
use crate::protocol::{
    data_frame_bytes, flags_compressed, flags_encrypted, header_bytes, header_key_material,
    header_prefix,
    lemma_data_frame_roundtrip,
    lemma_header_roundtrip, DataFrame, DataFrameView, Header, HeaderView, FLAG_COMPRESSED,
    FLAG_ENCRYPTED,
};
use crate::qr::{
    base64_encode, render_frames, scan_view, spec_generate_qr, spec_read_qr, GrayFrame,
    QrFrameError, QrScanFailure,
};

verus! {

/// Bytes of a data frame besides its chunk: the index and the CRC.
pub const DATA_FRAME_OVERHEAD: usize = 8;

/// How many chunks of `cs` bytes cover `len` bytes.
pub open spec fn num_chunks(len: int, cs: int) -> int {
    (len + cs - 1) / cs
}

/// Chunk `i` of `payload`: bytes `i * cs` up to `(i + 1) * cs` or the end.
pub open spec fn chunk_of(payload: Seq<u8>, cs: int, i: int) -> Seq<u8> {
    let end = if (i + 1) * cs < payload.len() {
        (i + 1) * cs
    } else {
        payload.len() as int
    };
    payload.subrange(i * cs, end)
}

/// Data frame `i` (0-based) of `payload`: index `i + 1`, the chunk and its CRC32.
pub open spec fn spec_data_frame(payload: Seq<u8>, cs: int, i: int) -> DataFrameView {
    DataFrameView {
        frame_index: (i + 1) as u32,
        chunk_crc: crc32(chunk_of(payload, cs, i)),
        data: chunk_of(payload, cs, i),
    }
}

/// Facts about the chunk count: it is the quotient rounded up, and chunk `i`
/// for `i` below it starts inside the payload.
proof fn lemma_num_chunks(len: int, cs: int)
    requires
        len >= 0,
        cs > 0,
    ensures
        num_chunks(len, cs) == len / cs + if len % cs != 0 {
            1int
        } else {
            0int
        },
        num_chunks(len, cs) >= 0,
        num_chunks(len, cs) * cs >= len,
        forall|i: int| 0 <= i < num_chunks(len, cs) ==> #[trigger] (i * cs) < len,
{
    let n = num_chunks(len, cs);
    assert(n == len / cs + if len % cs != 0 {
        1int
    } else {
        0int
    }) by (nonlinear_arith)
        requires
            len >= 0,
            cs > 0,
            n == (len + cs - 1) / cs,
    ;
    assert(n >= 0 && n * cs >= len) by (nonlinear_arith)
        requires
            len >= 0,
            cs > 0,
            n == (len + cs - 1) / cs,
    ;
    assert forall|i: int| 0 <= i < n implies #[trigger] (i * cs) < len by {
        assert(i * cs < len) by (nonlinear_arith)
            requires
                len >= 0,
                cs > 0,
                n == (len + cs - 1) / cs,
                0 <= i < n,
        ;
    }
}

/// Each chunk is non-empty and at most `cs` bytes long.
proof fn lemma_chunk_len(p: Seq<u8>, cs: int, i: int)
    requires
        cs > 0,
        0 <= i < num_chunks(p.len() as int, cs),
    ensures
        0 < chunk_of(p, cs, i).len() <= cs,
{
    lemma_num_chunks(p.len() as int, cs);
    assert(i * cs < p.len());
    assert((i + 1) * cs == i * cs + cs) by (nonlinear_arith);
    assert(0 <= i * cs) by (nonlinear_arith)
        requires
            0 <= i,
            cs > 0,
    ;
}

/// Splits `payload` into chunks of `chunk_size` bytes (the last may be
/// shorter) and makes data frame `i + 1` of chunk `i`.
pub fn chunk_payload(payload: &[u8], chunk_size: usize) -> (r: Vec<DataFrame>)
    requires
        chunk_size > 0,
        num_chunks(payload@.len() as int, chunk_size as int) < u32::MAX,
    ensures
        r@.len() == num_chunks(payload@.len() as int, chunk_size as int),
        forall|i: int|
            0 <= i < r@.len() ==> (#[trigger] r@[i])@ == spec_data_frame(
                payload@,
                chunk_size as int,
                i,
            ),
{
    let len = payload.len();
    proof {
        lemma_num_chunks(len as int, chunk_size as int);
    }
    let num = len / chunk_size + if len % chunk_size != 0 {
        1
    } else {
        0
    };
    let mut frames: Vec<DataFrame> = Vec::new();
    let mut i: usize = 0;
    while i < num
        invariant
            i <= num,
            num == num_chunks(len as int, chunk_size as int),
            num < u32::MAX,
            len == payload@.len(),
            chunk_size > 0,
            forall|k: int| 0 <= k < num ==> #[trigger] (k * chunk_size) < len,
            frames@.len() == i,
            forall|k: int|
                0 <= k < i ==> (#[trigger] frames@[k])@ == spec_data_frame(
                    payload@,
                    chunk_size as int,
                    k,
                ),
        decreases num - i,
    {
        assert(i * chunk_size < len);
        let start = i * chunk_size;
        let end = if len - start > chunk_size {
            start + chunk_size
        } else {
            len
        };
        assert((i + 1) * chunk_size == i * chunk_size + chunk_size) by (nonlinear_arith);
        let chunk = crate::bytes::copy_range(payload, start, end);
        let chunk_crc = crc32_hash(chunk.as_slice());
        let frame = DataFrame { frame_index: (i + 1) as u32, chunk_crc, data: chunk };
        assert(frame@ == spec_data_frame(payload@, chunk_size as int, i as int));
        frames.push(frame);
        i = i + 1;
    }
    frames
}

/// The chunks of a payload, joined, give the payload back.
pub proof fn lemma_concat_chunks(p: Seq<u8>, cs: int, k: int)
    requires
        cs > 0,
        0 <= k <= num_chunks(p.len() as int, cs),
    ensures
        spec_concat(Seq::new(k as nat, |j: int| Some(chunk_of(p, cs, j)))) == p.subrange(
            0,
            if k * cs < p.len() {
                k * cs
            } else {
                p.len() as int
            },
        ),
    decreases k,
{
    lemma_num_chunks(p.len() as int, cs);
    let s = Seq::new(k as nat, |j: int| Some(chunk_of(p, cs, j)));
    if k == 0 {
        assert(s.len() == 0);
        assert(spec_concat(s) == Seq::<u8>::empty());
        assert(k * cs == 0) by (nonlinear_arith)
            requires
                k == 0,
        ;
        assert(p.subrange(0, 0) =~= Seq::<u8>::empty());
        assert(spec_concat(s) =~= p.subrange(
            0,
            if k * cs < p.len() {
                k * cs
            } else {
                p.len() as int
            },
        ));
    } else {
        lemma_concat_chunks(p, cs, k - 1);
        let prev = Seq::new((k - 1) as nat, |j: int| Some(chunk_of(p, cs, j)));
        assert(s.drop_last() =~= prev);
        assert((k - 1) * cs < p.len());
        assert(k * cs == (k - 1) * cs + cs) by (nonlinear_arith);
        assert(spec_concat(s) == spec_concat(prev) + chunk_of(p, cs, k - 1));
        assert(spec_concat(s) =~= p.subrange(
            0,
            if k * cs < p.len() {
                k * cs
            } else {
                p.len() as int
            },
        ));
    }
}

/// The bytes of data frame `k` (0-based) of `p`.
pub open spec fn stream_frame(p: Seq<u8>, cs: int, k: int) -> Seq<u8> {
    data_frame_bytes(spec_data_frame(p, cs, k))
}

/// Whether data frame `j` of `p` is among the first `m` reads.
pub open spec fn seen_in(reads: Seq<Result<Seq<u8>, QrFrameError>>, m: int, p: Seq<u8>, cs: int, j: int) -> bool {
    exists|i: int| 0 <= i < m && reads[i] == Ok::<Seq<u8>, QrFrameError>(stream_frame(p, cs, j))
}

/// Whether every read is unreadable or one of the data frames of `p`.
pub open spec fn reads_of_stream(reads: Seq<Result<Seq<u8>, QrFrameError>>, p: Seq<u8>, cs: int) -> bool {
    forall|i: int|
        0 <= i < reads.len() ==> (#[trigger] reads[i] is Err || exists|k: int|
            0 <= k < num_chunks(p.len() as int, cs) && reads[i] == Ok::<Seq<u8>, QrFrameError>(
                stream_frame(p, cs, k),
            ))
}

/// Distinct data frames of a stream have distinct bytes (their indices differ).
proof fn lemma_stream_frame_injective(p: Seq<u8>, cs: int, j: int, k: int)
    requires
        num_chunks(p.len() as int, cs) < u32::MAX,
        0 <= j < num_chunks(p.len() as int, cs),
        0 <= k < num_chunks(p.len() as int, cs),
        stream_frame(p, cs, j) == stream_frame(p, cs, k),
    ensures
        j == k,
{
    lemma_data_frame_roundtrip(spec_data_frame(p, cs, j));
    lemma_data_frame_roundtrip(spec_data_frame(p, cs, k));
}

/// Collecting reads that are data frames of `p` (or unreadable), in any
/// order and with repeats, fills exactly the slots of the frames seen, each
/// with its own chunk.
proof fn lemma_collect_stream(p: Seq<u8>, cs: int, reads: Seq<Result<Seq<u8>, QrFrameError>>, m: int)
    requires
        cs > 0,
        num_chunks(p.len() as int, cs) < u32::MAX,
        0 <= m <= reads.len(),
        reads_of_stream(reads, p, cs),
    ensures
        spec_collect(reads.take(m), num_chunks(p.len() as int, cs)).0 == Seq::new(
            num_chunks(p.len() as int, cs) as nat,
            |j: int|
                if seen_in(reads, m, p, cs, j) {
                    Some(chunk_of(p, cs, j))
                } else {
                    None::<Seq<u8>>
                },
        ),
    decreases m,
{
    let n = num_chunks(p.len() as int, cs);
    let target = Seq::new(
        n as nat,
        |j: int|
            if seen_in(reads, m, p, cs, j) {
                Some(chunk_of(p, cs, j))
            } else {
                None::<Seq<u8>>
            },
    );
    if m == 0 {
        assert(reads.take(0).len() == 0);
        assert(spec_collect(reads.take(0), n).0 =~= target);
    } else {
        lemma_collect_stream(p, cs, reads, m - 1);
        assert(reads.take(m).drop_last() =~= reads.take(m - 1));
        assert(reads.take(m).last() == reads[m - 1]);
        let prev = spec_collect(reads.take(m - 1), n);
        assert(spec_collect(reads.take(m), n) == frame_step(prev.0, prev.1, m - 1, reads[m - 1], n));
        let r = reads[m - 1];
        if r is Err {
            assert forall|j: int| 0 <= j < n implies seen_in(reads, m, p, cs, j) == seen_in(
                reads,
                m - 1,
                p,
                cs,
                j,
            ) by {
                if seen_in(reads, m, p, cs, j) {
                    let i = choose|i: int|
                        0 <= i < m && reads[i] == Ok::<Seq<u8>, QrFrameError>(
                            stream_frame(p, cs, j),
                        );
                    assert(i != m - 1);
                }
            }
            assert(spec_collect(reads.take(m), n).0 =~= target);
        } else {
            let k = choose|k: int|
                0 <= k < n && r == Ok::<Seq<u8>, QrFrameError>(stream_frame(p, cs, k));
            let f = spec_data_frame(p, cs, k);
            lemma_data_frame_roundtrip(f);
            assert(f.frame_index == k + 1);
            assert forall|j: int| 0 <= j < n && j != k implies seen_in(reads, m, p, cs, j)
                == seen_in(reads, m - 1, p, cs, j) by {
                if seen_in(reads, m, p, cs, j) {
                    let i = choose|i: int|
                        0 <= i < m && reads[i] == Ok::<Seq<u8>, QrFrameError>(
                            stream_frame(p, cs, j),
                        );
                    if i == m - 1 {
                        lemma_stream_frame_injective(p, cs, j, k);
                    }
                }
            }
            assert(seen_in(reads, m, p, cs, k));
            assert(spec_collect(reads.take(m), n).0 =~= target);
        }
    }
}

/// No slot is empty, so nothing is missing.
proof fn lemma_missing_none(chunks: Seq<Option<Seq<u8>>>)
    requires
        forall|j: int| 0 <= j < chunks.len() ==> (#[trigger] chunks[j]) is Some,
    ensures
        spec_missing(chunks) == Seq::<usize>::empty(),
    decreases chunks.len(),
{
    if chunks.len() > 0 {
        lemma_missing_none(chunks.drop_last());
    }
}

/// Why a file could not be encoded.
#[derive(Debug, Clone, Copy, PartialEq, Eq, Structural)]
pub enum EncodeError {
    /// The file name is longer than the header's 16-bit length field can say
    /// (65535 bytes of UTF-8).
    FilenameTooLong,
    /// Key derivation or encryption failed.
    Crypto(CryptoError),
    /// The payload needs more data frames than a 32-bit frame count can hold.
    TooManyFrames,
}

/// A file turned into frame payloads.  `frames[0]` is the header frame and
/// `frames[i]` for `i >= 1` is data frame `i`.
pub struct EncodedFile {
    pub header: Header,
    pub frames: Vec<Vec<u8>>,
    pub compressed_size: usize,
    pub payload_size: usize,
    pub chunk_size: usize,
}

/// The payload that is split into frames: the compressed file, encrypted when
/// a key is given.
pub open spec fn spec_payload(raw: Seq<u8>, key: Option<Seq<u8>>, salt: Seq<u8>, nonce: Seq<u8>) -> Seq<
    u8,
> {
    match key {
        Some(pw) => aes256gcm_seal(argon2id_key(pw, salt), nonce, deflate_best(raw)),
        None => deflate_best(raw),
    }
}

/// The payload that is split into frames is the DEFLATE stream of the file
/// at the best level, sealed with AES-256-GCM under the Argon2id key of the
/// password and the salt exactly as given (and the given nonce) when a key is
/// given.
pub proof fn lemma_payload_is_sealed_stream(raw: Seq<u8>, key: Option<Seq<u8>>, salt: Seq<u8>, nonce: Seq<u8>)
    ensures
        key matches Some(pw) ==> spec_payload(raw, key, salt, nonce) == aes256gcm_seal(
            argon2id_key(pw, salt),
            nonce,
            deflate_best(raw),
        ),
        key is None ==> spec_payload(raw, key, salt, nonce) == deflate_best(raw),
{
}

/// The header of an encoded file.
pub open spec fn spec_encoded_header(
    raw: Seq<u8>,
    filename: Seq<char>,
    key: Option<Seq<u8>>,
    salt: Seq<u8>,
    nonce: Seq<u8>,
    num_data_frames: int,
) -> HeaderView {
    HeaderView {
        flags: if key is Some {
            FLAG_COMPRESSED | FLAG_ENCRYPTED
        } else {
            FLAG_COMPRESSED
        },
        total_frames: (num_data_frames + 1) as u32,
        original_size: raw.len() as u64,
        checksum: crc32(raw),
        filename,
        salt: if key is Some {
            Some(salt)
        } else {
            None
        },
        nonce: if key is Some {
            Some(nonce)
        } else {
            None
        },
    }
}

/// The header of an encoded file carries the file's size and CRC32, the
/// total frame count (the data frames plus the header frame itself), the file
/// name, the compressed flag, and, exactly when a key is given, the encrypted
/// flag with the salt and nonce as given.
pub proof fn lemma_encoded_header_fields(
    raw: Seq<u8>,
    filename: Seq<char>,
    key: Option<Seq<u8>>,
    salt: Seq<u8>,
    nonce: Seq<u8>,
    num_data_frames: int,
)
    requires
        raw.len() <= u64::MAX,
        0 <= num_data_frames < u32::MAX,
    ensures
        ({
            let h = spec_encoded_header(raw, filename, key, salt, nonce, num_data_frames);
            &&& h.original_size == raw.len()
            &&& h.checksum == crc32(raw)
            &&& h.total_frames == num_data_frames + 1
            &&& h.filename == filename
            &&& h.flags & FLAG_COMPRESSED != 0
            &&& (h.flags & FLAG_ENCRYPTED != 0) == (key is Some)
            &&& h.salt == (if key is Some { Some(salt) } else { None::<Seq<u8>> })
            &&& h.nonce == (if key is Some { Some(nonce) } else { None::<Seq<u8>> })
        }),
{
    assert((FLAG_COMPRESSED | FLAG_ENCRYPTED) & FLAG_ENCRYPTED != 0) by (bit_vector);
    assert((FLAG_COMPRESSED | FLAG_ENCRYPTED) & FLAG_COMPRESSED != 0) by (bit_vector);
    assert(FLAG_COMPRESSED & FLAG_ENCRYPTED == 0) by (bit_vector);
    assert(FLAG_COMPRESSED & FLAG_COMPRESSED != 0) by (bit_vector);
}

/// Data frame `i` of a payload cut into chunks of `cs` bytes carries index
/// `i + 1`, the payload's bytes from `i * cs` on (`cs` of them, or up to the
/// end for the last chunk), and the CRC32 of those bytes.
pub proof fn lemma_data_frame_chunk(p: Seq<u8>, cs: int, i: int)
    requires
        cs > 0,
        0 <= i < num_chunks(p.len() as int, cs),
        num_chunks(p.len() as int, cs) < u32::MAX,
    ensures
        ({
            let f = spec_data_frame(p, cs, i);
            &&& f.frame_index == i + 1
            &&& f.chunk_crc == crc32(f.data)
            &&& i * cs < p.len()
            &&& f.data.len() > 0
            &&& (i + 1) * cs <= p.len() ==> f.data == p.subrange(i * cs, (i + 1) * cs)
            &&& (i + 1) * cs > p.len() ==> f.data == p.subrange(i * cs, p.len() as int)
        }),
{
    lemma_num_chunks(p.len() as int, cs);
    assert(i * cs < p.len());
    assert(0 <= i * cs && (i + 1) * cs == i * cs + cs) by (nonlinear_arith)
        requires
            0 <= i,
            cs > 0,
    ;
}

/// The data frame payloads of a list of frame payloads, each read correctly.
pub open spec fn delivered_frames(frames: Seq<Vec<u8>>) -> Seq<Result<Seq<u8>, QrFrameError>> {
    Seq::new((frames.len() - 1) as nat, |i: int| Ok(frames[i + 1]@))
}

/// Whether every read is unreadable or one of the data frames `frames[1..]`,
/// and every one of them is read at least once.
pub open spec fn frame_reads_valid(reads: Seq<Result<Seq<u8>, QrFrameError>>, frames: Seq<Vec<u8>>) -> bool {
    &&& forall|i: int|
        0 <= i < reads.len() ==> (#[trigger] reads[i] is Err || exists|k: int|
            1 <= k < frames.len() && reads[i] == Ok::<Seq<u8>, QrFrameError>(frames[k]@))
    &&& forall|k: int|
        1 <= k < frames.len() ==> reads.contains(
            Ok::<Seq<u8>, QrFrameError>((#[trigger] frames[k])@),
        )
}

/// The error with which encoding stops, if any: the file name must fit the
/// header's 16-bit length field, Argon2 refuses a password longer than
/// `0xFFFF_FFFF` bytes, AES-GCM refuses a plaintext longer than 2^36 bytes,
/// and the frame count must fit in 32 bits.
pub open spec fn spec_encode_error(
    raw: Seq<u8>,
    filename: Seq<char>,
    key: Option<Seq<u8>>,
    salt: Seq<u8>,
    nonce: Seq<u8>,
    max_capacity: int,
) -> Option<EncodeError> {
    if encode_utf8(filename).len() >= 0x1_0000 {
        Some(EncodeError::FilenameTooLong)
    } else if key is Some && key.unwrap().len() > MAX_PASSWORD_LEN {
        Some(EncodeError::Crypto(CryptoError::KeyDerivation))
    } else if key is Some && deflate_best(raw).len() > MAX_PLAINTEXT_LEN {
        Some(EncodeError::Crypto(CryptoError::Encryption))
    } else if num_chunks(
        spec_payload(raw, key, salt, nonce).len() as int,
        max_capacity - DATA_FRAME_OVERHEAD,
    ) >= u32::MAX {
        Some(EncodeError::TooManyFrames)
    } else {
        None
    }
}

/// Encodes a file into frame payloads.  `salt` and `nonce` are used only when
/// a key is given; each data frame carries at most `max_capacity - 8` bytes of
/// payload.
///
/// It fails exactly where [`spec_encode_error`] says.  When it succeeds,
/// decoding the frame payloads with the same key gives the file back: all of
/// them in order, and also in any order, with repeats, and with unreadable
/// frames among them.
pub fn encode_file(
    raw: &[u8],
    filename: String,
    key: Option<&str>,
    salt: [u8; 16],
    nonce: [u8; 12],
    max_capacity: usize,
) -> (r: Result<EncodedFile, EncodeError>)
    requires
        max_capacity > DATA_FRAME_OVERHEAD,
    ensures
        r matches Ok(e) ==> {
            let p = spec_payload(raw@, key_bytes(key), salt@, nonce@);
            let cs = max_capacity - DATA_FRAME_OVERHEAD;
            let num = num_chunks(p.len() as int, cs);
            &&& e.chunk_size == cs
            &&& e.compressed_size == deflate_best(raw@).len()
            &&& e.payload_size == p.len()
            &&& num < u32::MAX
            &&& e.header@ == spec_encoded_header(raw@, filename@, key_bytes(key), salt@, nonce@, num)
            &&& e.header@.total_frames == num + 1
            &&& e.frames@.len() == num + 1
            &&& e.frames@[0]@ == header_bytes(e.header@)
            &&& forall|i: int|
                1 <= i < e.frames@.len() ==> (#[trigger] e.frames@[i])@.len() <= max_capacity
            &&& forall|i: int|
                0 <= i < num ==> (#[trigger] e.frames@[i + 1])@ == data_frame_bytes(
                    spec_data_frame(p, cs, i),
                )
            &&& spec_decode_stream(
                e.frames@[0]@,
                delivered_frames(e.frames@),
                key_bytes(key),
            ) == Ok::<Seq<u8>, crate::decode::RecoveryError>(raw@)
            &&& forall|reads: Seq<Result<Seq<u8>, QrFrameError>>|
                #[trigger] frame_reads_valid(reads, e.frames@) ==> spec_decode_stream(
                    e.frames@[0]@,
                    reads,
                    key_bytes(key),
                ) == Ok::<Seq<u8>, crate::decode::RecoveryError>(raw@)
        },
        match spec_encode_error(raw@, filename@, key_bytes(key), salt@, nonce@, max_capacity as int) {
            Some(e) => r == Err::<EncodedFile, EncodeError>(e),
            None => r is Ok,
        },
{
    if filename.as_str().as_bytes().len() >= 0x1_0000 {
        return Err(EncodeError::FilenameTooLong);
    }
    let checksum = crc32_hash(raw);
    let original_size = raw.len() as u64;
    let compressed = compress_data(raw).unwrap();
    let compressed_size = compressed.len();
    let mut flags: u8 = FLAG_COMPRESSED;
    let mut header_salt: Option<[u8; 16]> = None;
    let mut header_nonce: Option<[u8; 12]> = None;
    let payload = match key {
        Some(k) => {
            let encrypted = match encrypt(compressed.as_slice(), k, &salt, &nonce) {
                Ok(c) => c,
                Err(e) => {
                    return Err(EncodeError::Crypto(e));
                },
            };
            header_salt = Some(salt);
            header_nonce = Some(nonce);
            flags = flags | FLAG_ENCRYPTED;
            encrypted
        },
        None => compressed,
    };
    let ghost p = payload@;
    assert(p == spec_payload(raw@, key_bytes(key), salt@, nonce@));
    let chunk_size = max_capacity - DATA_FRAME_OVERHEAD;
    let len = payload.len();
    proof {
        lemma_num_chunks(len as int, chunk_size as int);
    }
    let whole_chunks = len / chunk_size;
    if whole_chunks >= 0xFFFF_FFFF {
        return Err(EncodeError::TooManyFrames);
    }
    let num_data_frames = whole_chunks + if len % chunk_size != 0 {
        1
    } else {
        0
    };
    if num_data_frames >= 0xFFFF_FFFF {
        return Err(EncodeError::TooManyFrames);
    }
    let total_frames = num_data_frames as u32 + 1;
    let header = Header {
        flags,
        total_frames,
        original_size,
        checksum,
        filename,
        salt: header_salt,
        nonce: header_nonce,
    };
    assert(header@ == spec_encoded_header(
        raw@,
        filename@,
        key_bytes(key),
        salt@,
        nonce@,
        num_data_frames as int,
    ));
    proof {
        if key is Some {
            assert((FLAG_COMPRESSED | FLAG_ENCRYPTED) & FLAG_ENCRYPTED != 0) by (bit_vector);
            assert((FLAG_COMPRESSED | FLAG_ENCRYPTED) & FLAG_COMPRESSED != 0) by (bit_vector);
        } else {
            assert(FLAG_COMPRESSED & FLAG_ENCRYPTED == 0) by (bit_vector);
            assert(FLAG_COMPRESSED & FLAG_COMPRESSED != 0) by (bit_vector);
        }
    }
    let header_frame = header.serialize().unwrap();
    let data_frames = chunk_payload(payload.as_slice(), chunk_size);
    let mut frames: Vec<Vec<u8>> = Vec::new();
    frames.push(header_frame);
    let mut i: usize = 0;
    while i < data_frames.len()
        invariant
            i <= data_frames@.len(),
            data_frames@.len() == num_data_frames,
            forall|k: int|
                0 <= k < data_frames@.len() ==> (#[trigger] data_frames@[k])@ == spec_data_frame(
                    p,
                    chunk_size as int,
                    k,
                ),
            frames@.len() == i + 1,
            frames@[0]@ == header_bytes(header@),
            forall|k: int|
                0 <= k < i ==> (#[trigger] frames@[k + 1])@ == data_frame_bytes(
                    spec_data_frame(p, chunk_size as int, k),
                ),
        decreases data_frames@.len() - i,
    {
        frames.push(data_frames[i].serialize().unwrap());
        i = i + 1;
    }
    assert forall|k: int| 1 <= k < frames@.len() implies (#[trigger] frames@[k])@.len()
        <= max_capacity by {
        lemma_chunk_len(p, chunk_size as int, k - 1);
        assert(frames@[(k - 1) + 1]@ == data_frame_bytes(
            spec_data_frame(p, chunk_size as int, k - 1),
        ));
    }
    let encoded = EncodedFile {
        header,
        frames,
        compressed_size,
        payload_size: len,
        chunk_size,
    };
    proof {
        lemma_encoded_file_decodes(
            raw@,
            key_bytes(key),
            salt@,
            nonce@,
            p,
            chunk_size as int,
            header@,
            encoded.frames@,
        );
    }
    Ok(encoded)
}

/// Reads that bring every data frame of `p` at least once (and otherwise only
/// its data frames or unreadable frames) fill every slot with its chunk.
proof fn lemma_reads_fill_slots(
    p: Seq<u8>,
    cs: int,
    frames: Seq<Vec<u8>>,
    reads: Seq<Result<Seq<u8>, QrFrameError>>,
)
    requires
        cs > 0,
        num_chunks(p.len() as int, cs) < u32::MAX,
        frames.len() == num_chunks(p.len() as int, cs) + 1,
        forall|i: int|
            0 <= i < num_chunks(p.len() as int, cs) ==> (#[trigger] frames[i + 1])@
                == data_frame_bytes(spec_data_frame(p, cs, i)),
        frame_reads_valid(reads, frames),
    ensures
        spec_collect(reads, num_chunks(p.len() as int, cs)).0 == Seq::new(
            num_chunks(p.len() as int, cs) as nat,
            |j: int| Some(chunk_of(p, cs, j)),
        ),
{
    let n = num_chunks(p.len() as int, cs);
    assert(reads_of_stream(reads, p, cs)) by {
        assert forall|i: int| 0 <= i < reads.len() implies (#[trigger] reads[i] is Err || exists|
            k: int,
        | 0 <= k < n && reads[i] == Ok::<Seq<u8>, QrFrameError>(stream_frame(p, cs, k))) by {
            if reads[i] is Ok {
                let k = choose|k: int|
                    1 <= k < frames.len() && reads[i] == Ok::<Seq<u8>, QrFrameError>(frames[k]@);
                assert(frames[(k - 1) + 1]@ == stream_frame(p, cs, k - 1));
            }
        }
    }
    lemma_collect_stream(p, cs, reads, reads.len() as int);
    assert(reads.take(reads.len() as int) =~= reads);
    assert forall|j: int| 0 <= j < n implies seen_in(reads, reads.len() as int, p, cs, j) by {
        assert(frames[j + 1]@ == stream_frame(p, cs, j));
        let i = choose|i: int|
            0 <= i < reads.len() && reads[i] == Ok::<Seq<u8>, QrFrameError>(frames[j + 1]@);
        assert(0 <= i < reads.len() && reads[i] == Ok::<Seq<u8>, QrFrameError>(
            stream_frame(p, cs, j),
        ));
    }
    assert(spec_collect(reads, n).0 =~= Seq::new(n as nat, |j: int| Some(chunk_of(p, cs, j))));
}

/// The decoding half of the roundtrip: given the facts that encoding
/// established about its output, reads that bring every data frame at least
/// once (in any order, with repeats and unreadable frames in between) decode
/// to the encoded file.
proof fn lemma_encoded_stream_decodes(
    raw: Seq<u8>,
    key: Option<Seq<u8>>,
    salt: Seq<u8>,
    nonce: Seq<u8>,
    p: Seq<u8>,
    cs: int,
    h: HeaderView,
    frames: Seq<Vec<u8>>,
    reads: Seq<Result<Seq<u8>, QrFrameError>>,
)
    requires
        cs > 0,
        p.len() <= usize::MAX,
        num_chunks(p.len() as int, cs) < u32::MAX,
        h == spec_encoded_header(raw, h.filename, key, salt, nonce, num_chunks(p.len() as int, cs)),
        encode_utf8(h.filename).len() < 0x1_0000,
        salt.len() == 16,
        nonce.len() == 12,
        raw.len() <= u64::MAX,
        key is None ==> p == deflate_best(raw),
        key matches Some(pw) ==> spec_decrypt(p, pw, salt, nonce) == Ok::<Seq<u8>, CryptoError>(
            deflate_best(raw),
        ),
        inflate(deflate_best(raw)) == Some(raw),
        frames.len() == num_chunks(p.len() as int, cs) + 1,
        frames[0]@ == header_bytes(h),
        forall|i: int|
            0 <= i < num_chunks(p.len() as int, cs) ==> (#[trigger] frames[i + 1])@
                == data_frame_bytes(spec_data_frame(p, cs, i)),
        key is Some ==> flags_encrypted(h.flags),
        key is None ==> !flags_encrypted(h.flags),
        flags_compressed(h.flags),
        frame_reads_valid(reads, frames),
    ensures
        spec_decode_stream(frames[0]@, reads, key) == Ok::<
            Seq<u8>,
            crate::decode::RecoveryError,
        >(raw),
{
    let n = num_chunks(p.len() as int, cs);
    lemma_num_chunks(p.len() as int, cs);
    // The header frame reads back as the header.
    assert(spec_stream_header(frames[0]@, key) == Ok::<HeaderView, crate::decode::RecoveryError>(h))
        by {
        assert(header_bytes(h) + Seq::<u8>::empty() =~= header_bytes(h));
        lemma_header_roundtrip(h, Seq::<u8>::empty());
    }
    assert(h.total_frames - 1 == n);
    // Every slot holds its chunk, and the chunks join to the payload.
    lemma_reads_fill_slots(p, cs, frames, reads);
    let chunks = spec_collect(reads, n).0;
    assert(spec_missing(chunks).len() == 0) by {
        lemma_missing_none(chunks);
    }
    assert(spec_concat(chunks) == p) by {
        lemma_concat_chunks(p, cs, n);
        assert(p.subrange(0, p.len() as int) =~= p);
    }
    // Decrypting, decompressing and checking give the file back.
    assert(spec_recover(h, p, key) == Ok::<Seq<u8>, crate::decode::RecoveryError>(raw));
}

/// Reading every data frame once, in order, is a valid way to read the frames.
proof fn lemma_delivered_valid(frames: Seq<Vec<u8>>)
    requires
        frames.len() >= 1,
    ensures
        frame_reads_valid(delivered_frames(frames), frames),
{
    let d = delivered_frames(frames);
    assert(d.len() == frames.len() - 1);
    assert forall|k: int| 1 <= k < frames.len() implies d.contains(
        Ok::<Seq<u8>, QrFrameError>((#[trigger] frames[k])@),
    ) by {
        assert(0 <= k - 1 < d.len() && d[k - 1] == Ok::<Seq<u8>, QrFrameError>(frames[k]@));
    }
    assert forall|i: int| 0 <= i < d.len() implies (#[trigger] d[i] is Err || exists|k: int|
        1 <= k < frames.len() && d[i] == Ok::<Seq<u8>, QrFrameError>(frames[k]@)) by {
        assert(1 <= i + 1 < frames.len() && d[i] == Ok::<Seq<u8>, QrFrameError>(frames[i + 1]@));
    }
}

/// Both forms of the roundtrip for an encoded file: its frames decode to the
/// encoded file when all read in order, and when read in any order, with repeats
/// and unreadable frames, as long as each is read at least once.
proof fn lemma_encoded_file_decodes(
    raw: Seq<u8>,
    key: Option<Seq<u8>>,
    salt: Seq<u8>,
    nonce: Seq<u8>,
    p: Seq<u8>,
    cs: int,
    h: HeaderView,
    frames: Seq<Vec<u8>>,
)
    requires
        cs > 0,
        p.len() <= usize::MAX,
        num_chunks(p.len() as int, cs) < u32::MAX,
        h == spec_encoded_header(raw, h.filename, key, salt, nonce, num_chunks(p.len() as int, cs)),
        encode_utf8(h.filename).len() < 0x1_0000,
        salt.len() == 16,
        nonce.len() == 12,
        raw.len() <= u64::MAX,
        key is None ==> p == deflate_best(raw),
        key matches Some(pw) ==> spec_decrypt(p, pw, salt, nonce) == Ok::<Seq<u8>, CryptoError>(
            deflate_best(raw),
        ),
        inflate(deflate_best(raw)) == Some(raw),
        frames.len() == num_chunks(p.len() as int, cs) + 1,
        frames[0]@ == header_bytes(h),
        forall|i: int|
            0 <= i < num_chunks(p.len() as int, cs) ==> (#[trigger] frames[i + 1])@
                == data_frame_bytes(spec_data_frame(p, cs, i)),
        key is Some ==> flags_encrypted(h.flags),
        key is None ==> !flags_encrypted(h.flags),
        flags_compressed(h.flags),
    ensures
        spec_decode_stream(frames[0]@, delivered_frames(frames), key) == Ok::<
            Seq<u8>,
            crate::decode::RecoveryError,
        >(raw),
        forall|reads: Seq<Result<Seq<u8>, QrFrameError>>|
            #[trigger] frame_reads_valid(reads, frames) ==> spec_decode_stream(
                frames[0]@,
                reads,
                key,
            ) == Ok::<Seq<u8>, crate::decode::RecoveryError>(raw),
{
    assert forall|reads: Seq<Result<Seq<u8>, QrFrameError>>|
        #[trigger] frame_reads_valid(reads, frames) implies spec_decode_stream(
        frames[0]@,
        reads,
        key,
    ) == Ok::<Seq<u8>, crate::decode::RecoveryError>(raw) by {
        lemma_encoded_stream_decodes(raw, key, salt, nonce, p, cs, h, frames, reads);
    }
    let d = delivered_frames(frames);
    lemma_delivered_valid(frames);
    lemma_encoded_stream_decodes(raw, key, salt, nonce, p, cs, h, frames, d);
}

/// Why a file could not be turned into QR frames.
#[derive(Debug, Clone, Copy, PartialEq, Eq, Structural)]
pub enum FramesError {
    /// The file could not be encoded into frame payloads.
    Encode(EncodeError),
    /// The payload of frame `position` (0 is the header frame) could not be
    /// drawn as a QR code.
    Qr { position: usize, error: QrFrameError },
}

/// The frame payloads of an encoding that succeeds: the header frame, then
/// the data frames in order.
#[verifier::opaque]
pub open spec fn spec_frame_payloads(
    raw: Seq<u8>,
    filename: Seq<char>,
    key: Option<Seq<u8>>,
    salt: Seq<u8>,
    nonce: Seq<u8>,
    max_capacity: int,
) -> Seq<Seq<u8>> {
    let p = spec_payload(raw, key, salt, nonce);
    let cs = max_capacity - DATA_FRAME_OVERHEAD;
    let num = num_chunks(p.len() as int, cs);
    Seq::new(
        (num + 1) as nat,
        |i: int|
            if i == 0 {
                header_bytes(spec_encoded_header(raw, filename, key, salt, nonce, num))
            } else {
                data_frame_bytes(spec_data_frame(p, cs, i - 1))
            },
    )
}

/// Scans that read back from every frame the text drawn in it decode as the
/// frame payloads themselves do.
proof fn lemma_faithful_scans_decode(
    raw: Seq<u8>,
    key: Option<Seq<u8>>,
    fp: Seq<Seq<u8>>,
    frames: Seq<Vec<u8>>,
)
    requires
        fp.len() >= 1,
        frames.len() == fp.len(),
        forall|i: int| 0 <= i < fp.len() ==> (#[trigger] frames[i])@ == fp[i],
        forall|i: int|
            0 <= i < fp.len() ==> spec_read_qr(Ok(base64_encode(#[trigger] fp[i]))) == Ok::<
                Seq<u8>,
                QrFrameError,
            >(fp[i]),
        spec_decode_stream(frames[0]@, delivered_frames(frames), key) == Ok::<
            Seq<u8>,
            RecoveryError,
        >(raw),
    ensures
        forall|scans: Seq<Result<Vec<u8>, QrScanFailure>>|
            scans.len() == fp.len() && (forall|i: int|
                0 <= i < fp.len() ==> scan_view(#[trigger] scans[i]) == Ok::<
                    Seq<u8>,
                    QrScanFailure,
                >(base64_encode(fp[i]))) ==> #[trigger] spec_decode_scans(scans, key) == Ok::<
                Seq<u8>,
                RecoveryError,
            >(raw),
{
    assert forall|scans: Seq<Result<Vec<u8>, QrScanFailure>>|
        scans.len() == fp.len() && (forall|i: int|
            0 <= i < fp.len() ==> scan_view(#[trigger] scans[i]) == Ok::<
                Seq<u8>,
                QrScanFailure,
            >(base64_encode(fp[i]))) implies #[trigger] spec_decode_scans(scans, key) == Ok::<
        Seq<u8>,
        RecoveryError,
    >(raw) by {
        assert(scan_view(scans[0]) == Ok::<Seq<u8>, QrScanFailure>(base64_encode(fp[0])));
        assert(spec_read_qr(Ok(base64_encode(fp[0]))) == Ok::<Seq<u8>, QrFrameError>(fp[0]));
        assert(frame_reads(scans) =~= delivered_frames(frames)) by {
            assert forall|i: int| 0 <= i < frame_reads(scans).len() implies frame_reads(scans)[i]
                == delivered_frames(frames)[i] by {
                assert(scan_view(scans[i + 1]) == Ok::<Seq<u8>, QrScanFailure>(
                    base64_encode(fp[i + 1]),
                ));
                assert(spec_read_qr(Ok(base64_encode(fp[i + 1]))) == Ok::<Seq<u8>, QrFrameError>(
                    fp[i + 1],
                ));
                assert(frames[i + 1]@ == fp[i + 1]);
            }
        }
    }
}

/// The frames of a successful encoding are the payloads that
/// [`spec_frame_payloads`] lists, and each is short enough for its base64
/// text to have a length that fits in `usize`.
proof fn lemma_encoded_frames_payloads(
    raw: Seq<u8>,
    filename: Seq<char>,
    key: Option<Seq<u8>>,
    salt: Seq<u8>,
    nonce: Seq<u8>,
    max_capacity: int,
    header: HeaderView,
    frames: Seq<Vec<u8>>,
)
    requires
        max_capacity > DATA_FRAME_OVERHEAD,
        (max_capacity + 2) / 3 * 4 <= usize::MAX,
        encode_utf8(filename).len() < 0x1_0000,
        salt.len() == 16,
        nonce.len() == 12,
        ({
            let p = spec_payload(raw, key, salt, nonce);
            let cs = max_capacity - DATA_FRAME_OVERHEAD;
            let num = num_chunks(p.len() as int, cs);
            &&& header == spec_encoded_header(raw, filename, key, salt, nonce, num)
            &&& frames.len() == num + 1
            &&& frames[0]@ == header_bytes(header)
            &&& forall|i: int| 1 <= i < frames.len() ==> (#[trigger] frames[i])@.len() <= max_capacity
            &&& forall|i: int|
                0 <= i < num ==> (#[trigger] frames[i + 1])@ == data_frame_bytes(
                    spec_data_frame(p, cs, i),
                )
        }),
    ensures
        frames.len() == spec_frame_payloads(raw, filename, key, salt, nonce, max_capacity).len(),
        forall|i: int|
            0 <= i < frames.len() ==> (#[trigger] frames[i])@ == spec_frame_payloads(
                raw,
                filename,
                key,
                salt,
                nonce,
                max_capacity,
            )[i],
        forall|i: int| 0 <= i < frames.len() ==> ((#[trigger] frames[i])@.len() + 2) / 3 * 4 <= usize::MAX,
{
    reveal(spec_frame_payloads);
    let fp = spec_frame_payloads(raw, filename, key, salt, nonce, max_capacity);
    assert forall|i: int| 0 <= i < frames.len() implies (#[trigger] frames[i])@ == fp[i] by {
        if i > 0 {
            assert(frames[(i - 1) + 1] == frames[i]);
        }
    }
    assert(frames[0]@.len() <= encode_utf8(filename).len() + 52) by {
        if key is Some {
            assert((FLAG_COMPRESSED | FLAG_ENCRYPTED) & FLAG_ENCRYPTED != 0) by (bit_vector);
            assert(header_key_material(header) == salt + nonce);
        } else {
            assert(FLAG_COMPRESSED & FLAG_ENCRYPTED == 0) by (bit_vector);
            assert(header_key_material(header) == Seq::<u8>::empty());
        }
        assert(header_prefix(header).len() == 24);
    }
    assert forall|i: int| 0 <= i < frames.len() implies ((#[trigger] frames[i])@.len() + 2) / 3 * 4
        <= usize::MAX by {
        let len: int = frames[i]@.len() as int;
        let bound: int = if i == 0 {
            encode_utf8(filename).len() as int + 52
        } else {
            max_capacity
        };
        assert(len <= bound);
        vstd::arithmetic::div_mod::lemma_div_is_ordered(len + 2, bound + 2, 3);
        if i == 0 {
            vstd::arithmetic::div_mod::lemma_div_is_ordered(bound + 2, 0x1_0000int + 54, 3);
        }
    }
}

/// Encodes a file into frame payloads and draws each as a QR frame of
/// `width` by `height` pixels at level `ec_level`.
///
/// It fails exactly where encoding fails or where a frame payload cannot be
/// drawn (the first such frame is reported).  When it succeeds, a scanner
/// that reads back from every frame the text drawn in it lets decoding
/// recover the file.
pub fn encode_to_qr_frames(
    raw: &[u8],
    filename: String,
    key: Option<&str>,
    salt: [u8; 16],
    nonce: [u8; 12],
    max_capacity: usize,
    ec_level: EcLevel,
    width: u32,
    height: u32,
) -> (r: Result<(EncodedFile, Vec<GrayFrame>), FramesError>)
    requires
        max_capacity > DATA_FRAME_OVERHEAD,
        (max_capacity + 2) / 3 * 4 <= usize::MAX,
        width * height <= usize::MAX,
    ensures
        match spec_encode_error(raw@, filename@, key_bytes(key), salt@, nonce@, max_capacity as int) {
            Some(e) => r == Err::<(EncodedFile, Vec<GrayFrame>), FramesError>(FramesError::Encode(e)),
            None => match r {
                Ok((e, imgs)) => {
                    &&& e.frames@.len() == spec_frame_payloads(
                        raw@,
                        filename@,
                        key_bytes(key),
                        salt@,
                        nonce@,
                        max_capacity as int,
                    ).len()
                    &&& forall|i: int|
                        0 <= i < e.frames@.len() ==> (#[trigger] e.frames@[i])@
                            == spec_frame_payloads(
                            raw@,
                            filename@,
                            key_bytes(key),
                            salt@,
                            nonce@,
                            max_capacity as int,
                        )[i]
                    &&& imgs@.len() == e.frames@.len()
                    &&& forall|i: int|
                        0 <= i < imgs@.len() ==> {
                            &&& (#[trigger] imgs@[i]).width == width
                            &&& imgs@[i].height == height
                            &&& imgs@[i].wf()
                            &&& spec_generate_qr(e.frames@[i]@, ec_level, width, height) == Ok::<
                                Seq<u8>,
                                QrFrameError,
                            >(imgs@[i].pixels@)
                        }
                    &&& forall|scans: Seq<Result<Vec<u8>, QrScanFailure>>|
                        scans.len() == e.frames@.len() && (forall|i: int|
                            0 <= i < e.frames@.len() ==> scan_view(#[trigger] scans[i]) == Ok::<
                                Seq<u8>,
                                QrScanFailure,
                            >(base64_encode(e.frames@[i]@))) ==> #[trigger] spec_decode_scans(
                            scans,
                            key_bytes(key),
                        ) == Ok::<Seq<u8>, RecoveryError>(raw@)
                },
                Err(FramesError::Qr { position, error }) => {
                    &&& position < spec_frame_payloads(
                        raw@,
                        filename@,
                        key_bytes(key),
                        salt@,
                        nonce@,
                        max_capacity as int,
                    ).len()
                    &&& spec_generate_qr(
                        spec_frame_payloads(
                            raw@,
                            filename@,
                            key_bytes(key),
                            salt@,
                            nonce@,
                            max_capacity as int,
                        )[position as int],
                        ec_level,
                        width,
                        height,
                    ) == Err::<Seq<u8>, QrFrameError>(error)
                    &&& forall|i: int|
                        0 <= i < position ==> (#[trigger] spec_generate_qr(
                            spec_frame_payloads(
                                raw@,
                                filename@,
                                key_bytes(key),
                                salt@,
                                nonce@,
                                max_capacity as int,
                            )[i],
                            ec_level,
                            width,
                            height,
                        )) is Ok
                },
                Err(FramesError::Encode(_)) => false,
            },
        },
{
    let encoded = match encode_file(raw, filename, key, salt, nonce, max_capacity) {
        Ok(e) => e,
        Err(e) => {
            return Err(FramesError::Encode(e));
        },
    };
    let ghost fp = spec_frame_payloads(
        raw@,
        filename@,
        key_bytes(key),
        salt@,
        nonce@,
        max_capacity as int,
    );
    proof {
        lemma_encoded_frames_payloads(
            raw@,
            filename@,
            key_bytes(key),
            salt@,
            nonce@,
            max_capacity as int,
            encoded.header@,
            encoded.frames@,
        );
    }
    let frames = match render_frames(&encoded.frames, ec_level, width, height) {
        Ok(f) => f,
        Err((position, error)) => {
            proof {
                assert(encoded.frames@[position as int]@ == fp[position as int]);
                assert forall|i: int| 0 <= i < position implies (#[trigger] spec_generate_qr(
                    fp[i],
                    ec_level,
                    width,
                    height,
                )) is Ok by {
                    assert(encoded.frames@[i]@ == fp[i]);
                    assert(spec_generate_qr(encoded.frames@[i]@, ec_level, width, height) is Ok);
                }
            }
            return Err(FramesError::Qr { position, error });
        },
    };
    proof {
        assert forall|i: int| 0 <= i < fp.len() implies spec_read_qr(
            Ok(base64_encode(#[trigger] fp[i])),
        ) == Ok::<Seq<u8>, QrFrameError>(fp[i]) by {
            assert(frames@[i].wf());
            assert(encoded.frames@[i]@ == fp[i]);
        }
        lemma_faithful_scans_decode(raw@, key_bytes(key), fp, encoded.frames@);
    }
    Ok((encoded, frames))
}

} // verus!
