//! Recovering a file from its frames: read the header, collect and check the
//! data frames, reassemble, decrypt, decompress and verify.

use vstd::prelude::*;
use vstd::utf8::encode_utf8;
use crate::checksum::{crc32, crc32_hash};
use crate::compress::{decompress_data, inflate};
use crate::crypto::{decrypt, spec_decrypt, CryptoError};
use crate::protocol::{
    flags_compressed, flags_encrypted, spec_parse_data_frame, spec_parse_header, DataFrame,
    DataFrameView, Header, HeaderView, ProtocolError,
};
use crate::qr::{decode_qr_image, scan_view, spec_read_qr, QrFrameError, QrScanFailure};

verus! {

/// Something wrong with one data frame; the frame is skipped.  `position`
/// counts data frames from 0 (the frame after the header frame is 0).
#[derive(Debug, Clone, Copy, PartialEq, Eq, Structural)]
pub enum FrameIssue {
    /// The frame's QR code could not be read.
    Unreadable { position: usize, error: QrFrameError },
    /// The frame's payload is not a data frame.
    Malformed { position: usize, error: ProtocolError },
    /// The frame's index is 0 or beyond the number of data frames.
    InvalidIndex { position: usize, index: u32 },
    /// The chunk does not match its CRC32.
    CrcMismatch { position: usize, index: u32, expected: u32, actual: u32 },
}

/// Why a file could not be recovered.
#[derive(Debug, Clone, Copy, PartialEq, Eq, Structural)]
pub enum RecoveryError {
    /// The video has no frames.
    NoFrames,
    /// The header frame's QR code could not be read.
    HeaderUnreadable(QrFrameError),
    /// The header frame's payload is not a header.
    HeaderInvalid(ProtocolError),
    /// The header counts no frames at all, not even itself.
    ZeroFrameCount,
    /// The data is encrypted and no key was given.
    KeyRequired,
    /// Some data frames are missing (their indices are listed separately).
    MissingFrames,
    /// Decryption failed: wrong key or corrupted data.
    Decrypt(CryptoError),
    /// Decompression failed: the data may be corrupted.
    Decompress,
    /// The CRC32 of the recovered data is not the one in the header.
    ChecksumMismatch { expected: u32, actual: u32 },
    /// The size of the recovered data is not the one in the header.
    SizeMismatch { expected: u64, actual: u64 },
}

/// What decoding a stream found.  `result` is the recovered file or why there
/// is none; `issues` lists the frames that were skipped and `missing` the
/// (1-based) indices of the data frames that no valid frame supplied.
pub struct DecodedStream {
    pub header: Header,
    pub key_ignored: bool,
    pub issues: Vec<FrameIssue>,
    pub missing: Vec<usize>,
    pub result: Result<Vec<u8>, RecoveryError>,
}

/// The payload views of per-frame read results.
pub open spec fn payload_views(v: Seq<Result<Vec<u8>, QrFrameError>>) -> Seq<Result<Seq<u8>, QrFrameError>> {
    v.map_values(|r: Result<Vec<u8>, QrFrameError>| read_view(r))
}

/// The payload view of one read result.
pub open spec fn read_view(r: Result<Vec<u8>, QrFrameError>) -> Result<Seq<u8>, QrFrameError> {
    match r {
        Ok(b) => Ok(b@),
        Err(e) => Err(e),
    }
}

/// The payloads that the scans of every frame after the first give.
pub open spec fn frame_reads(scans: Seq<Result<Vec<u8>, QrScanFailure>>) -> Seq<
    Result<Seq<u8>, QrFrameError>,
> {
    Seq::new((scans.len() - 1) as nat, |i: int| spec_read_qr(scan_view(scans[i + 1])))
}

/// The chunk views of the collected chunks.
pub open spec fn chunk_views(v: Seq<Option<Vec<u8>>>) -> Seq<Option<Seq<u8>>> {
    v.map_values(|o: Option<Vec<u8>>| match o {
        Some(b) => Some(b@),
        None => None,
    })
}

/// The password bytes of an optional key.
pub open spec fn key_bytes(key: Option<&str>) -> Option<Seq<u8>> {
    match key {
        Some(k) => Some(encode_utf8(k@)),
        None => None,
    }
}

/// Handling the data frame at `position`: a frame that reads, parses, has an
/// index in `1..=n` and the right CRC fills its slot (a later one replacing an
/// earlier one); any other frame adds an issue.
pub open spec fn frame_step(
    chunks: Seq<Option<Seq<u8>>>,
    issues: Seq<FrameIssue>,
    position: int,
    read: Result<Seq<u8>, QrFrameError>,
    n: int,
) -> (Seq<Option<Seq<u8>>>, Seq<FrameIssue>) {
    match read {
        Err(e) => (chunks, issues.push(FrameIssue::Unreadable { position: position as usize, error: e })),
        Ok(b) => match spec_parse_data_frame(b) {
            Err(e) => (
                chunks,
                issues.push(FrameIssue::Malformed { position: position as usize, error: e }),
            ),
            Ok(f) => if f.frame_index == 0 || f.frame_index > n {
                (
                    chunks,
                    issues.push(
                        FrameIssue::InvalidIndex { position: position as usize, index: f.frame_index },
                    ),
                )
            } else if crc32(f.data) != f.chunk_crc {
                (
                    chunks,
                    issues.push(
                        FrameIssue::CrcMismatch {
                            position: position as usize,
                            index: f.frame_index,
                            expected: f.chunk_crc,
                            actual: crc32(f.data),
                        },
                    ),
                )
            } else {
                (chunks.update(f.frame_index - 1, Some(f.data)), issues)
            },
        },
    }
}

/// The chunk slots and issues after handling the data frames `reads` in order,
/// for a stream of `n` data frames.
pub open spec fn spec_collect(reads: Seq<Result<Seq<u8>, QrFrameError>>, n: int) -> (
    Seq<Option<Seq<u8>>>,
    Seq<FrameIssue>,
)
    decreases reads.len(),
{
    if reads.len() == 0 {
        (Seq::new(n as nat, |j: int| None), Seq::empty())
    } else {
        let prev = spec_collect(reads.drop_last(), n);
        frame_step(prev.0, prev.1, reads.len() - 1, reads.last(), n)
    }
}

/// The 1-based indices of the empty slots, in order.
pub open spec fn spec_missing(chunks: Seq<Option<Seq<u8>>>) -> Seq<usize>
    decreases chunks.len(),
{
    if chunks.len() == 0 {
        Seq::empty()
    } else {
        let m = spec_missing(chunks.drop_last());
        if chunks.last() is None {
            m.push(chunks.len() as usize)
        } else {
            m
        }
    }
}

/// The missing list holds, in increasing order, exactly the 1-based indices
/// of the empty slots.
pub proof fn lemma_missing_lists_empty_slots(chunks: Seq<Option<Seq<u8>>>)
    requires
        chunks.len() <= usize::MAX,
    ensures
        forall|k: int|
            #![trigger spec_missing(chunks).contains(k as usize)]
            1 <= k <= chunks.len() ==> (spec_missing(chunks).contains(k as usize) <==> chunks[k
                - 1] is None),
        forall|j: int|
            0 <= j < spec_missing(chunks).len() ==> 1 <= #[trigger] spec_missing(chunks)[j]
                <= chunks.len(),
        forall|i: int, j: int|
            0 <= i < j < spec_missing(chunks).len() ==> spec_missing(chunks)[i] < spec_missing(
                chunks,
            )[j],
    decreases chunks.len(),
{
    if chunks.len() > 0 {
        let prev = chunks.drop_last();
        let n = chunks.len() as int;
        lemma_missing_lists_empty_slots(prev);
        let m = spec_missing(prev);
        let cur = spec_missing(chunks);
        if chunks.last() is None {
            assert(cur == m.push(n as usize));
        } else {
            assert(cur == m);
        }
        assert forall|j: int| 0 <= j < cur.len() implies 1 <= #[trigger] cur[j] <= n by {
            if j < m.len() {
                assert(cur[j] == m[j]);
            }
        }
        assert forall|k: int| 1 <= k <= n implies (#[trigger] cur.contains(k as usize)
            <==> chunks[k - 1] is None) by {
            if k < n {
                assert(chunks[k - 1] == prev[k - 1]);
                if m.contains(k as usize) {
                    let j = choose|j: int| 0 <= j < m.len() && m[j] == k as usize;
                    assert(cur[j] == k as usize);
                }
                if cur.contains(k as usize) {
                    let j = choose|j: int| 0 <= j < cur.len() && cur[j] == k as usize;
                    if j < m.len() {
                        assert(m[j] == cur[j]);
                    }
                }
            } else {
                if chunks.last() is None {
                    assert(cur[m.len() as int] == k as usize);
                } else if cur.contains(k as usize) {
                    let j = choose|j: int| 0 <= j < cur.len() && cur[j] == k as usize;
                    assert(m[j] <= prev.len());
                }
            }
        }
        assert forall|i: int, j: int| 0 <= i < j < cur.len() implies cur[i] < cur[j] by {
            if j < m.len() {
                assert(cur[i] == m[i] && cur[j] == m[j]);
            } else {
                assert(cur[i] == m[i]);
                assert(m[i] <= prev.len());
            }
        }
    }
}

/// The chunks joined in slot order (empty slots contribute nothing).
pub open spec fn spec_concat(chunks: Seq<Option<Seq<u8>>>) -> Seq<u8>
    decreases chunks.len(),
{
    if chunks.len() == 0 {
        Seq::empty()
    } else {
        spec_concat(chunks.drop_last()) + match chunks.last() {
            Some(c) => c,
            None => Seq::empty(),
        }
    }
}

/// The original file recovered from the reassembled payload: decrypt if the
/// header says so, decompress if it says so, then check CRC32 and size.
pub open spec fn spec_recover(h: HeaderView, payload: Seq<u8>, key: Option<Seq<u8>>) -> Result<
    Seq<u8>,
    RecoveryError,
> {
    let decrypted: Result<Seq<u8>, RecoveryError> = if flags_encrypted(h.flags) {
        match spec_decrypt(payload, key.unwrap(), h.salt.unwrap(), h.nonce.unwrap()) {
            Ok(p) => Ok(p),
            Err(e) => Err(RecoveryError::Decrypt(e)),
        }
    } else {
        Ok(payload)
    };
    match decrypted {
        Err(e) => Err(e),
        Ok(d) => {
            let original: Result<Seq<u8>, RecoveryError> = if flags_compressed(h.flags) {
                match inflate(d) {
                    Some(o) => Ok(o),
                    None => Err(RecoveryError::Decompress),
                }
            } else {
                Ok(d)
            };
            match original {
                Err(e) => Err(e),
                Ok(o) => if crc32(o) != h.checksum {
                    Err(RecoveryError::ChecksumMismatch { expected: h.checksum, actual: crc32(o) })
                } else if o.len() != h.original_size {
                    Err(RecoveryError::SizeMismatch { expected: h.original_size, actual: o.len() as u64 })
                } else {
                    Ok(o)
                },
            }
        },
    }
}

/// The header read from the header frame payload, checked against the key
/// and required to count at least one frame (itself).
pub open spec fn spec_stream_header(header_bytes: Seq<u8>, key: Option<Seq<u8>>) -> Result<
    HeaderView,
    RecoveryError,
> {
    match spec_parse_header(header_bytes) {
        Err(e) => Err(RecoveryError::HeaderInvalid(e)),
        Ok(h) => if flags_encrypted(h.flags) && key is None {
            Err(RecoveryError::KeyRequired)
        } else if h.total_frames == 0 {
            Err(RecoveryError::ZeroFrameCount)
        } else {
            Ok(h)
        },
    }
}

/// The outcome of decoding once the header is known: missing frames, or the
/// recovered file.
pub open spec fn spec_stream_result(
    h: HeaderView,
    reads: Seq<Result<Seq<u8>, QrFrameError>>,
    key: Option<Seq<u8>>,
) -> Result<Seq<u8>, RecoveryError> {
    let chunks = spec_collect(reads, h.total_frames - 1).0;
    if spec_missing(chunks).len() > 0 {
        Err(RecoveryError::MissingFrames)
    } else {
        spec_recover(h, spec_concat(chunks), key)
    }
}

/// Everything decoding gives for a header frame payload, data frame read
/// results and a key: the recovered file or why not.
pub open spec fn spec_decode_stream(
    header_bytes: Seq<u8>,
    reads: Seq<Result<Seq<u8>, QrFrameError>>,
    key: Option<Seq<u8>>,
) -> Result<Seq<u8>, RecoveryError> {
    match spec_stream_header(header_bytes, key) {
        Err(e) => Err(e),
        Ok(h) => spec_stream_result(h, reads, key),
    }
}

/// Collects the chunks of `n` data frames from the read results of the frames.
pub fn collect_chunks(frames: &Vec<Result<Vec<u8>, QrFrameError>>, n: usize) -> (r: (
    Vec<Option<Vec<u8>>>,
    Vec<FrameIssue>,
))
    ensures
        chunk_views(r.0@) == spec_collect(payload_views(frames@), n as int).0,
        r.1@ == spec_collect(payload_views(frames@), n as int).1,
        r.0@.len() == n,
{
    let ghost reads = payload_views(frames@);
    let mut chunks: Vec<Option<Vec<u8>>> = Vec::new();
    let mut k: usize = 0;
    while k < n
        invariant
            k <= n,
            chunks@.len() == k,
            forall|j: int| 0 <= j < k ==> chunks@[j] is None,
        decreases n - k,
    {
        chunks.push(None);
        k = k + 1;
    }
    assert(chunk_views(chunks@) =~= spec_collect(reads.take(0), n as int).0);
    let mut issues: Vec<FrameIssue> = Vec::new();
    let mut i: usize = 0;
    while i < frames.len()
        invariant
            i <= frames@.len(),
            reads == payload_views(frames@),
            chunks@.len() == n,
            chunk_views(chunks@) == spec_collect(reads.take(i as int), n as int).0,
            issues@ == spec_collect(reads.take(i as int), n as int).1,
        decreases frames@.len() - i,
    {
        let ghost before = (chunk_views(chunks@), issues@);
        assert(reads.take(i + 1).drop_last() =~= reads.take(i as int));
        assert(reads.take(i + 1).last() == reads[i as int]);
        match &frames[i] {
            Err(e) => {
                issues.push(FrameIssue::Unreadable { position: i, error: *e });
            },
            Ok(bytes) => match DataFrame::deserialize(bytes.as_slice()) {
                Err(e) => {
                    issues.push(FrameIssue::Malformed { position: i, error: e });
                },
                Ok(frame) => {
                    let idx = frame.frame_index as usize;
                    if idx == 0 || idx > n {
                        issues.push(FrameIssue::InvalidIndex { position: i, index: frame.frame_index });
                    } else {
                        let computed = crc32_hash(frame.data.as_slice());
                        if computed != frame.chunk_crc {
                            issues.push(
                                FrameIssue::CrcMismatch {
                                    position: i,
                                    index: frame.frame_index,
                                    expected: frame.chunk_crc,
                                    actual: computed,
                                },
                            );
                        } else {
                            let ghost data = frame.data@;
                            chunks.set(idx - 1, Some(frame.data));
                            assert(chunk_views(chunks@) =~= before.0.update(idx - 1, Some(data)));
                        }
                    }
                },
            },
        }
        i = i + 1;
    }
    assert(reads.take(frames@.len() as int) =~= reads);
    (chunks, issues)
}

/// Every slot that collecting fills holds the chunk of some frame that was
/// read, parsed, carries that slot's index and matches its own CRC32: a frame
/// that fails any check never fills a slot.
pub proof fn lemma_collected_chunks_checked(reads: Seq<Result<Seq<u8>, QrFrameError>>, n: int)
    requires
        n >= 0,
    ensures
        spec_collect(reads, n).0.len() == n,
        forall|j: int|
            0 <= j < n && (#[trigger] spec_collect(reads, n).0[j]) is Some ==> exists|i: int|
                0 <= i < reads.len() && reads[i] is Ok && spec_parse_data_frame(reads[i]->Ok_0)
                    == Ok::<DataFrameView, ProtocolError>(
                    DataFrameView {
                        frame_index: (j + 1) as u32,
                        chunk_crc: crc32(spec_collect(reads, n).0[j]->Some_0),
                        data: spec_collect(reads, n).0[j]->Some_0,
                    },
                ),
    decreases reads.len(),
{
    if reads.len() > 0 {
        let prev_reads = reads.drop_last();
        lemma_collected_chunks_checked(prev_reads, n);
        let prev = spec_collect(prev_reads, n);
        let cur = spec_collect(reads, n).0;
        let m = reads.len() - 1;
        assert forall|j: int| 0 <= j < n && (#[trigger] cur[j]) is Some implies exists|i: int|
            0 <= i < reads.len() && reads[i] is Ok && spec_parse_data_frame(reads[i]->Ok_0)
                == Ok::<DataFrameView, ProtocolError>(
                DataFrameView {
                    frame_index: (j + 1) as u32,
                    chunk_crc: crc32(cur[j]->Some_0),
                    data: cur[j]->Some_0,
                },
            ) by {
            if cur[j] == prev.0[j] {
                let i = choose|i: int|
                    0 <= i < prev_reads.len() && prev_reads[i] is Ok && spec_parse_data_frame(
                        prev_reads[i]->Ok_0,
                    ) == Ok::<DataFrameView, ProtocolError>(
                        DataFrameView {
                            frame_index: (j + 1) as u32,
                            chunk_crc: crc32(prev.0[j]->Some_0),
                            data: prev.0[j]->Some_0,
                        },
                    );
                assert(reads[i] == prev_reads[i]);
            } else {
                let f = spec_parse_data_frame(reads[m]->Ok_0)->Ok_0;
                assert(f.frame_index == j + 1);
                assert(reads[m] is Ok);
                assert(spec_parse_data_frame(reads[m]->Ok_0) == Ok::<DataFrameView, ProtocolError>(
                    f,
                ));
            }
        }
    }
}

/// The slot (0-based) and chunk that a data frame read fills in a stream of
/// `n` data frames, or `None` for a frame that is skipped: one that does not
/// read, does not parse, carries an index outside `1..=n` or fails its CRC32.
pub open spec fn read_contribution(read: Result<Seq<u8>, QrFrameError>, n: int) -> Option<
    (int, Seq<u8>),
> {
    match read {
        Err(_) => None,
        Ok(b) => match spec_parse_data_frame(b) {
            Err(_) => None,
            Ok(f) => if f.frame_index == 0 || f.frame_index > n || crc32(f.data) != f.chunk_crc {
                None
            } else {
                Some((f.frame_index - 1, f.data))
            },
        },
    }
}

/// Everything that the reads fill: the (slot, chunk) pairs of their frames
/// that are not skipped.
pub open spec fn contributions(reads: Seq<Result<Seq<u8>, QrFrameError>>, n: int) -> Set<
    (int, Seq<u8>),
> {
    Set::new(
        |c: (int, Seq<u8>)|
            exists|i: int| 0 <= i < reads.len() && read_contribution(reads[i], n) == Some(c),
    )
}

/// Whether no two frames that are not skipped fill the same slot with
/// different chunks.
pub open spec fn consistent_reads(reads: Seq<Result<Seq<u8>, QrFrameError>>, n: int) -> bool {
    forall|c1: (int, Seq<u8>), c2: (int, Seq<u8>)|
        #![trigger contributions(reads, n).contains(c1), contributions(reads, n).contains(c2)]
        contributions(reads, n).contains(c1) && contributions(reads, n).contains(c2) && c1.0 == c2.0
            ==> c1 == c2
}

/// One step of collecting changes the slots only by what the frame fills.
proof fn lemma_step_slots(
    chunks: Seq<Option<Seq<u8>>>,
    issues: Seq<FrameIssue>,
    position: int,
    read: Result<Seq<u8>, QrFrameError>,
    n: int,
)
    ensures
        frame_step(chunks, issues, position, read, n).0 == match read_contribution(read, n) {
            None => chunks,
            Some(c) => chunks.update(c.0, Some(c.1)),
        },
{
}

/// With consistent reads, a slot is filled exactly when some frame fills it,
/// and then it holds that frame's chunk.
proof fn lemma_collect_slots(reads: Seq<Result<Seq<u8>, QrFrameError>>, n: int)
    requires
        n >= 0,
        consistent_reads(reads, n),
    ensures
        spec_collect(reads, n).0.len() == n,
        forall|k: int, d: Seq<u8>|
            0 <= k < n && #[trigger] contributions(reads, n).contains((k, d)) ==> spec_collect(
                reads,
                n,
            ).0[k] == Some(d),
        forall|k: int|
            0 <= k < n && (#[trigger] spec_collect(reads, n).0[k]) is Some ==> contributions(
                reads,
                n,
            ).contains((k, spec_collect(reads, n).0[k]->Some_0)),
    decreases reads.len(),
{
    let cur = spec_collect(reads, n).0;
    if reads.len() == 0 {
        assert forall|k: int, d: Seq<u8>|
            0 <= k < n && #[trigger] contributions(reads, n).contains((k, d)) implies cur[k] == Some(
            d,
        ) by {
            assert(!contributions(reads, n).contains((k, d)));
        }
    } else {
        let prev_reads = reads.drop_last();
        let m = reads.len() - 1;
        assert forall|c: (int, Seq<u8>)| #[trigger]
            contributions(prev_reads, n).contains(c) implies contributions(reads, n).contains(c) by {
            let i = choose|i: int|
                0 <= i < prev_reads.len() && read_contribution(prev_reads[i], n) == Some(c);
            assert(reads[i] == prev_reads[i]);
        }
        lemma_collect_slots(prev_reads, n);
        let prev = spec_collect(prev_reads, n);
        lemma_step_slots(prev.0, prev.1, m, reads[m], n);
        assert(reads.last() == reads[m]);
        assert forall|k: int, d: Seq<u8>|
            0 <= k < n && #[trigger] contributions(reads, n).contains((k, d)) implies cur[k] == Some(
            d,
        ) by {
            let i = choose|i: int|
                0 <= i < reads.len() && read_contribution(reads[i], n) == Some((k, d));
            if i < m {
                assert(prev_reads[i] == reads[i]);
                assert(contributions(prev_reads, n).contains((k, d)));
            }
            if let Some(c) = read_contribution(reads[m], n) {
                assert(contributions(reads, n).contains(c));
            }
        }
        assert forall|k: int| 0 <= k < n && (#[trigger] cur[k]) is Some implies contributions(
            reads,
            n,
        ).contains((k, cur[k]->Some_0)) by {
            if let Some(c) = read_contribution(reads[m], n) {
                assert(contributions(reads, n).contains(c));
                if c.0 != k {
                    assert(contributions(prev_reads, n).contains((k, cur[k]->Some_0)));
                }
            } else {
                assert(contributions(prev_reads, n).contains((k, cur[k]->Some_0)));
            }
        }
    }
}

/// Decoding depends only on what the data frames fill, not on their order,
/// on repeats, or on frames that are skipped: two lists of data frame reads
/// with the same (slot, chunk) pairs, none of them filling one slot with two
/// different chunks, leave the same slots, report the same missing frames and
/// recover the same file (or fail the same way).
pub proof fn lemma_decode_ignores_order_and_skipped_frames(
    h: HeaderView,
    reads1: Seq<Result<Seq<u8>, QrFrameError>>,
    reads2: Seq<Result<Seq<u8>, QrFrameError>>,
    key: Option<Seq<u8>>,
)
    requires
        h.total_frames >= 1,
        contributions(reads1, h.total_frames - 1) == contributions(reads2, h.total_frames - 1),
        consistent_reads(reads1, h.total_frames - 1),
    ensures
        spec_collect(reads1, h.total_frames - 1).0 == spec_collect(reads2, h.total_frames - 1).0,
        spec_missing(spec_collect(reads1, h.total_frames - 1).0) == spec_missing(
            spec_collect(reads2, h.total_frames - 1).0,
        ),
        spec_stream_result(h, reads1, key) == spec_stream_result(h, reads2, key),
{
    let n = h.total_frames - 1;
    lemma_collect_slots(reads1, n);
    lemma_collect_slots(reads2, n);
    let s1 = spec_collect(reads1, n).0;
    let s2 = spec_collect(reads2, n).0;
    assert forall|k: int| 0 <= k < n implies s1[k] == s2[k] by {
        if s1[k] is Some {
            assert(contributions(reads1, n).contains((k, s1[k]->Some_0)));
        } else if s2[k] is Some {
            assert(contributions(reads2, n).contains((k, s2[k]->Some_0)));
        }
    }
    assert(s1 =~= s2);
}

/// Shuffling the data frames, repeating some, dropping repeats, or adding
/// frames that are skipped does not change what decoding recovers: every
/// frame of each list that is not skipped occurs in the other list too.
pub proof fn lemma_shuffled_frames_decode_alike(
    h: HeaderView,
    reads1: Seq<Result<Seq<u8>, QrFrameError>>,
    reads2: Seq<Result<Seq<u8>, QrFrameError>>,
    key: Option<Seq<u8>>,
)
    requires
        h.total_frames >= 1,
        consistent_reads(reads1, h.total_frames - 1),
        forall|i: int|
            0 <= i < reads1.len() ==> read_contribution(#[trigger] reads1[i], h.total_frames - 1)
                is None || reads2.contains(reads1[i]),
        forall|j: int|
            0 <= j < reads2.len() ==> read_contribution(#[trigger] reads2[j], h.total_frames - 1)
                is None || reads1.contains(reads2[j]),
    ensures
        spec_missing(spec_collect(reads1, h.total_frames - 1).0) == spec_missing(
            spec_collect(reads2, h.total_frames - 1).0,
        ),
        spec_stream_result(h, reads1, key) == spec_stream_result(h, reads2, key),
{
    let n = h.total_frames - 1;
    assert forall|c: (int, Seq<u8>)| #[trigger]
        contributions(reads1, n).contains(c) implies contributions(reads2, n).contains(c) by {
        let i = choose|i: int| 0 <= i < reads1.len() && read_contribution(reads1[i], n) == Some(c);
        let j = choose|j: int| 0 <= j < reads2.len() && reads2[j] == reads1[i];
        assert(read_contribution(reads2[j], n) == Some(c));
    }
    assert forall|c: (int, Seq<u8>)| #[trigger]
        contributions(reads2, n).contains(c) implies contributions(reads1, n).contains(c) by {
        let j = choose|j: int| 0 <= j < reads2.len() && read_contribution(reads2[j], n) == Some(c);
        let i = choose|i: int| 0 <= i < reads1.len() && reads1[i] == reads2[j];
        assert(read_contribution(reads1[i], n) == Some(c));
    }
    assert(contributions(reads1, n) =~= contributions(reads2, n));
    lemma_decode_ignores_order_and_skipped_frames(h, reads1, reads2, key);
}

/// The 1-based indices of the data frames that no valid frame supplied.
pub fn missing_frames(chunks: &Vec<Option<Vec<u8>>>) -> (r: Vec<usize>)
    ensures
        r@ == spec_missing(chunk_views(chunks@)),
{
    let ghost cv = chunk_views(chunks@);
    let mut missing: Vec<usize> = Vec::new();
    let mut i: usize = 0;
    while i < chunks.len()
        invariant
            i <= chunks@.len(),
            cv == chunk_views(chunks@),
            missing@ == spec_missing(cv.take(i as int)),
        decreases chunks@.len() - i,
    {
        assert(cv.take(i + 1).drop_last() =~= cv.take(i as int));
        if chunks[i].is_none() {
            missing.push(i + 1);
        }
        i = i + 1;
    }
    assert(cv.take(chunks@.len() as int) =~= cv);
    missing
}

/// The chunks joined in slot order.
pub fn concat_chunks(chunks: &Vec<Option<Vec<u8>>>) -> (r: Vec<u8>)
    ensures
        r@ == spec_concat(chunk_views(chunks@)),
{
    let ghost cv = chunk_views(chunks@);
    let mut payload: Vec<u8> = Vec::new();
    let mut i: usize = 0;
    while i < chunks.len()
        invariant
            i <= chunks@.len(),
            cv == chunk_views(chunks@),
            payload@ == spec_concat(cv.take(i as int)),
        decreases chunks@.len() - i,
    {
        assert(cv.take(i + 1).drop_last() =~= cv.take(i as int));
        match &chunks[i] {
            Some(c) => {
                crate::bytes::push_all(&mut payload, c.as_slice());
            },
            None => {
                assert(payload@ =~= payload@ + Seq::<u8>::empty());
            },
        }
        i = i + 1;
    }
    assert(cv.take(chunks@.len() as int) =~= cv);
    payload
}

/// Recovers the original file from the reassembled payload: decrypts if the
/// header says so, decompresses if it says so, then checks the CRC32 and the
/// size against the header.
pub fn recover_original(header: &Header, payload: Vec<u8>, key: Option<&str>) -> (r: Result<
    Vec<u8>,
    RecoveryError,
>)
    requires
        flags_encrypted(header.flags) ==> key is Some && header.salt is Some && header.nonce is Some,
    ensures
        match spec_recover(header@, payload@, key_bytes(key)) {
            Ok(o) => r matches Ok(v) && v@ == o,
            Err(e) => r == Err::<Vec<u8>, RecoveryError>(e),
        },
        r matches Ok(v) ==> crc32(v@) == header.checksum && v@.len() == header.original_size,
{
    let decrypted = if header.is_encrypted() {
        let salt = header.salt.unwrap();
        let nonce = header.nonce.unwrap();
        match decrypt(payload.as_slice(), key.unwrap(), &salt, &nonce) {
            Ok(p) => p,
            Err(e) => {
                return Err(RecoveryError::Decrypt(e));
            },
        }
    } else {
        payload
    };
    let original = if header.is_compressed() {
        match decompress_data(decrypted.as_slice()) {
            Ok(o) => o,
            Err(_) => {
                return Err(RecoveryError::Decompress);
            },
        }
    } else {
        decrypted
    };
    let computed = crc32_hash(original.as_slice());
    if computed != header.checksum {
        return Err(RecoveryError::ChecksumMismatch { expected: header.checksum, actual: computed });
    }
    let size = original.len() as u64;
    if size != header.original_size {
        return Err(RecoveryError::SizeMismatch { expected: header.original_size, actual: size });
    }
    Ok(original)
}

/// Reads the header from the header frame payload and checks it against the
/// key: an encrypted stream needs a key, and the frame count includes the
/// header frame, so it is at least 1.
pub fn read_header(header_bytes: &[u8], key: Option<&str>) -> (r: Result<Header, RecoveryError>)
    ensures
        match spec_stream_header(header_bytes@, key_bytes(key)) {
            Ok(h) => r matches Ok(v) && v@ == h,
            Err(e) => r == Err::<Header, RecoveryError>(e),
        },
{
    let header = match Header::deserialize(header_bytes) {
        Ok(h) => h,
        Err(e) => {
            return Err(RecoveryError::HeaderInvalid(e));
        },
    };
    if header.is_encrypted() && key.is_none() {
        return Err(RecoveryError::KeyRequired);
    }
    if header.total_frames == 0 {
        return Err(RecoveryError::ZeroFrameCount);
    }
    Ok(header)
}

/// Decodes the data frames of a stream whose header has been read: collects
/// the chunks, lists the skipped frames and the missing indices, and, when
/// nothing is missing, recovers the original file.
pub fn decode_data_frames(
    header: Header,
    frames: &Vec<Result<Vec<u8>, QrFrameError>>,
    key: Option<&str>,
) -> (r: DecodedStream)
    requires
        header.total_frames >= 1,
        flags_encrypted(header.flags) ==> key is Some,
        flags_encrypted(header.flags) ==> header.salt is Some && header.nonce is Some,
    ensures
        r.header@ == header@,
        r.key_ignored == (!flags_encrypted(header.flags) && key is Some),
        r.issues@ == spec_collect(payload_views(frames@), header.total_frames - 1).1,
        r.missing@ == spec_missing(spec_collect(payload_views(frames@), header.total_frames - 1).0),
        match spec_stream_result(header@, payload_views(frames@), key_bytes(key)) {
            Ok(o) => r.result matches Ok(v) && v@ == o,
            Err(e) => r.result == Err::<Vec<u8>, RecoveryError>(e),
        },
        r.result matches Ok(v) ==> crc32(v@) == header.checksum && v@.len()
            == header.original_size,
{
    let key_ignored = !header.is_encrypted() && key.is_some();
    let n = (header.total_frames - 1) as usize;
    let (chunks, issues) = collect_chunks(frames, n);
    let missing = missing_frames(&chunks);
    let result = if missing.len() > 0 {
        Err(RecoveryError::MissingFrames)
    } else {
        let payload = concat_chunks(&chunks);
        recover_original(&header, payload, key)
    };
    DecodedStream { header, key_ignored, issues, missing, result }
}

/// What decoding recovers from what the QR scanner read from each frame of a
/// video, in order: the file, or why there is none.
pub open spec fn spec_decode_scans(scans: Seq<Result<Vec<u8>, QrScanFailure>>, key: Option<Seq<u8>>) -> Result<
    Seq<u8>,
    RecoveryError,
> {
    if scans.len() == 0 {
        Err(RecoveryError::NoFrames)
    } else {
        match spec_read_qr(scan_view(scans[0])) {
            Err(e) => Err(RecoveryError::HeaderUnreadable(e)),
            Ok(hb) => spec_decode_stream(hb, frame_reads(scans), key),
        }
    }
}

/// Decodes a whole video from what the QR scanner read from each of its
/// frames, in order: the first frame is the header, every later frame a data
/// frame.
pub fn decode_frames(scans: &Vec<Result<Vec<u8>, QrScanFailure>>, key: Option<&str>) -> (r: Result<
    DecodedStream,
    RecoveryError,
>)
    ensures
        scans@.len() == 0 ==> r == Err::<DecodedStream, RecoveryError>(RecoveryError::NoFrames),
        scans@.len() > 0 ==> match spec_read_qr(scan_view(scans@[0])) {
            Err(e) => r == Err::<DecodedStream, RecoveryError>(RecoveryError::HeaderUnreadable(e)),
            Ok(hb) => match spec_stream_header(hb, key_bytes(key)) {
                Err(e) => r == Err::<DecodedStream, RecoveryError>(e),
                Ok(h) => r matches Ok(d) && d.header@ == h && d.issues@ == spec_collect(
                    frame_reads(scans@), h.total_frames - 1).1 && d.missing@ == spec_missing(
                    spec_collect(frame_reads(scans@), h.total_frames - 1).0)
                    && d.key_ignored == (!flags_encrypted(h.flags) && key is Some)
                    && match spec_stream_result(h, frame_reads(scans@), key_bytes(key)) {
                    Ok(o) => d.result matches Ok(v) && v@ == o,
                    Err(e) => d.result == Err::<Vec<u8>, RecoveryError>(e),
                },
            },
        },
        match spec_decode_scans(scans@, key_bytes(key)) {
            Ok(o) => r matches Ok(d) && d.result matches Ok(v) && v@ == o,
            Err(e) => r == Err::<DecodedStream, RecoveryError>(e) || (r matches Ok(d) && d.result
                == Err::<Vec<u8>, RecoveryError>(e)),
        },
{
    if scans.len() == 0 {
        return Err(RecoveryError::NoFrames);
    }
    let header_bytes = match decode_qr_image(&scans[0]) {
        Ok(b) => b,
        Err(e) => {
            return Err(RecoveryError::HeaderUnreadable(e));
        },
    };
    let header = read_header(header_bytes.as_slice(), key)?;
    let mut reads: Vec<Result<Vec<u8>, QrFrameError>> = Vec::new();
    let mut i: usize = 1;
    while i < scans.len()
        invariant
            1 <= i <= scans@.len(),
            payload_views(reads@) == frame_reads(scans@).take(i - 1),
        decreases scans@.len() - i,
    {
        let read = decode_qr_image(&scans[i]);
        let ghost before = reads@;
        proof {
            let fr = frame_reads(scans@);
            assert(fr[i - 1] == spec_read_qr(scan_view(scans@[i as int])));
            assert(read_view(read) == fr[i - 1]);
            assert(payload_views(before).len() == before.len());
        }
        reads.push(read);
        proof {
            let fr = frame_reads(scans@);
            let pv = payload_views(reads@);
            assert(reads@[i - 1] == read);
            assert(pv[i - 1] == fr[i - 1]);
            assert forall|j: int| 0 <= j < i - 1 implies pv[j] == fr[j] by {
                assert(reads@[j] == before[j]);
                assert(payload_views(before)[j] == fr.take(i - 1)[j]);
            }
            assert(pv =~= fr.take(i as int));
        }
        i = i + 1;
    }
    assert(frame_reads(scans@).take(scans@.len() - 1) =~= frame_reads(scans@));
    Ok(decode_data_frames(header, &reads, key))
}

} // verus!
