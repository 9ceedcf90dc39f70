use base64::Engine as _;
use qrdv::cli::EcLevel;
use qrdv::crypto::CryptoError;
use qrdv::decode::{
    decode_data_frames, decode_frames, read_header, DecodedStream, FrameIssue, RecoveryError,
};
use qrdv::encode::{encode_file, encode_to_qr_frames, EncodeError, EncodedFile, FramesError};
use qrdv::protocol::{DataFrame, Header};
use qrdv::qr::{find_max_capacity, generate_qr_image, GrayFrame, QrFrameError, QrScanFailure};

/// What `rqrr` reads from a frame: the text of the first QR code, or why none.
fn scan(frame: &GrayFrame) -> Result<Vec<u8>, QrScanFailure> {
    let (w, h) = (frame.width as usize, frame.height as usize);
    let mut image =
        rqrr::PreparedImage::prepare_from_greyscale(w, h, |x, y| frame.pixels[y * w + x]);
    let grids = image.detect_grids();
    match grids.first() {
        None => Err(QrScanFailure::NotFound),
        Some(grid) => match grid.decode() {
            Ok((_, content)) => Ok(content.into_bytes()),
            Err(_) => Err(QrScanFailure::Unreadable),
        },
    }
}


fn sample(n: usize) -> Vec<u8> {
    let mut x: u32 = 12345;
    (0..n)
        .map(|_| {
            x = x.wrapping_mul(1_103_515_245).wrapping_add(12345);
            (x >> 16) as u8
        })
        .collect()
}

fn encode(data: &[u8], key: Option<&str>, capacity: usize) -> EncodedFile {
    encode_file(data, "file.bin".to_string(), key, [3u8; 16], [4u8; 12], capacity).unwrap()
}

fn decode(frames: &[Vec<u8>], reads: Vec<Result<Vec<u8>, QrFrameError>>, key: Option<&str>) -> DecodedStream {
    let header = read_header(&frames[0], key).unwrap();
    decode_data_frames(header, &reads, key)
}

fn all_reads(frames: &[Vec<u8>]) -> Vec<Result<Vec<u8>, QrFrameError>> {
    frames[1..].iter().map(|f| Ok(f.clone())).collect()
}

#[test]
fn roundtrip_without_key() {
    let data = sample(3000);
    let e = encode(&data, None, 100);
    assert_eq!(e.chunk_size, 92);
    assert_eq!(e.frames.len(), 1 + (e.payload_size + 91) / 92);
    assert_eq!(e.header.total_frames as usize, e.frames.len());
    assert_eq!(e.header.original_size, 3000);
    assert_eq!(e.header.filename, "file.bin");
    assert!(e.header.is_compressed() && !e.header.is_encrypted());
    let d = decode(&e.frames, all_reads(&e.frames), None);
    assert!(d.issues.is_empty() && d.missing.is_empty() && !d.key_ignored);
    assert_eq!(d.result.unwrap(), data);
}

#[test]
fn roundtrip_with_key() {
    let data = sample(2000);
    let e = encode(&data, Some("secret"), 200);
    assert!(e.header.is_encrypted());
    assert_eq!(e.payload_size, e.compressed_size + 16);
    assert_eq!(e.header.salt, Some([3u8; 16]));
    let d = decode(&e.frames, all_reads(&e.frames), Some("secret"));
    assert_eq!(d.result.unwrap(), data);
}

#[test]
fn empty_file_roundtrip() {
    let e = encode(b"", None, 100);
    let d = decode(&e.frames, all_reads(&e.frames), None);
    assert_eq!(d.result.unwrap(), Vec::<u8>::new());
}

#[test]
fn frames_in_any_order_and_repeated() {
    let data = sample(1500);
    let e = encode(&data, None, 60);
    let mut reads = all_reads(&e.frames);
    reads.reverse();
    reads.push(Ok(e.frames[1].clone()));
    let d = decode(&e.frames, reads, None);
    assert_eq!(d.result.unwrap(), data);
}

#[test]
fn missing_frame_is_reported() {
    let data = sample(1500);
    let e = encode(&data, None, 60);
    let mut reads = all_reads(&e.frames);
    reads.remove(1);
    let d = decode(&e.frames, reads, None);
    assert_eq!(d.missing, vec![2]);
    assert_eq!(d.result.err(), Some(RecoveryError::MissingFrames));
}

#[test]
fn corrupted_frames_are_skipped_with_issues() {
    let data = sample(1500);
    let e = encode(&data, None, 60);
    let n = e.frames.len() - 1;
    let mut reads = all_reads(&e.frames);
    // a chunk byte flipped: CRC mismatch, slot stays empty
    let mut bad = e.frames[1].clone();
    let last = bad.len() - 1;
    bad[last] ^= 1;
    reads[0] = Ok(bad);
    // an index beyond the count
    let stray = DataFrame { frame_index: (n + 5) as u32, chunk_crc: 0, data: vec![] };
    reads.push(Ok(stray.serialize().unwrap()));
    // too short to be a data frame
    reads.push(Ok(vec![1, 2]));
    // not readable at all
    reads.push(Err(QrFrameError::NotFound));
    let d = decode(&e.frames, reads, None);
    assert_eq!(d.missing, vec![1]);
    assert_eq!(d.issues.len(), 4);
    assert!(matches!(d.issues[0], FrameIssue::CrcMismatch { position: 0, index: 1, .. }));
    assert!(matches!(d.issues[1], FrameIssue::InvalidIndex { position, .. } if position == n));
    assert!(matches!(d.issues[2], FrameIssue::Malformed { .. }));
    assert!(matches!(
        d.issues[3],
        FrameIssue::Unreadable { error: QrFrameError::NotFound, .. }
    ));
}

#[test]
fn key_is_required_for_encrypted_streams() {
    let e = encode(b"data", Some("k"), 100);
    assert_eq!(read_header(&e.frames[0], None).err(), Some(RecoveryError::KeyRequired));
}

#[test]
fn wrong_key_fails_decryption() {
    let e = encode(&sample(500), Some("right"), 100);
    let d = decode(&e.frames, all_reads(&e.frames), Some("wrong"));
    assert_eq!(d.result.err(), Some(RecoveryError::Decrypt(CryptoError::Decryption)));
}

#[test]
fn key_is_ignored_when_not_encrypted() {
    let data = sample(300);
    let e = encode(&data, None, 100);
    let d = decode(&e.frames, all_reads(&e.frames), Some("unused"));
    assert!(d.key_ignored);
    assert_eq!(d.result.unwrap(), data);
}

#[test]
fn checksum_and_size_are_verified() {
    let data = sample(300);
    let e = encode(&data, None, 100);
    let mut header = e.frames[0].clone();
    header[18] ^= 0xff;
    let mut frames = e.frames.clone();
    frames[0] = header;
    let d = decode(&frames, all_reads(&frames), None);
    assert!(matches!(d.result, Err(RecoveryError::ChecksumMismatch { .. })));

    let mut header = e.frames[0].clone();
    header[10] ^= 0x01;
    frames[0] = header;
    let d = decode(&frames, all_reads(&frames), None);
    assert_eq!(
        d.result.err(),
        Some(RecoveryError::SizeMismatch { expected: 300 ^ 1, actual: 300 })
    );
}

#[test]
fn header_with_zero_frames_is_refused() {
    let h = Header {
        flags: 2,
        total_frames: 0,
        original_size: 0,
        checksum: 0,
        filename: String::new(),
        salt: None,
        nonce: None,
    };
    let bytes = h.serialize().unwrap();
    assert_eq!(read_header(&bytes, None).err(), Some(RecoveryError::ZeroFrameCount));
}

#[test]
fn smallest_capacity_gives_one_byte_chunks() {
    let e = encode_file(b"xyz", String::new(), None, [0; 16], [0; 12], 9).unwrap();
    assert_eq!(e.chunk_size, 1);
    assert_eq!(e.frames.len(), 1 + e.payload_size);
    assert!(e.frames[1..].iter().all(|f| f.len() == 9));
}

#[test]
fn file_survives_qr_frames() {
    let data = sample(1200);
    let capacity = find_max_capacity(EcLevel::High);
    let e = encode(&data, Some("secret"), capacity);
    let images: Vec<_> = e
        .frames
        .iter()
        .map(|f| generate_qr_image(f, EcLevel::High, 854, 480).unwrap())
        .collect();
    let scans: Vec<_> = images.iter().map(scan).collect();
    let d = decode_frames(&scans, Some("secret")).unwrap();
    assert!(d.issues.is_empty());
    assert_eq!(d.header.filename, "file.bin");
    assert_eq!(d.result.unwrap(), data);
}

#[test]
fn no_frames_no_file() {
    assert_eq!(decode_frames(&Vec::new(), None).err(), Some(RecoveryError::NoFrames));
}

#[test]
fn drawn_frames_scan_back_to_the_file() {
    let data = sample(900);
    let capacity = find_max_capacity(EcLevel::Medium);
    let (e, images) = encode_to_qr_frames(
        &data,
        "f.txt".to_string(),
        None,
        [0; 16],
        [0; 12],
        capacity,
        EcLevel::Medium,
        640,
        480,
    )
    .unwrap();
    assert_eq!(images.len(), e.frames.len());
    assert!(images.iter().all(|f| f.width == 640 && f.height == 480));
    let scans: Vec<_> = images.iter().map(scan).collect();
    let d = decode_frames(&scans, None).unwrap();
    assert_eq!(d.result.unwrap(), data);
}

#[test]
fn faithful_scans_decode_without_images() {
    let data = sample(700);
    let (e, _) = encode_to_qr_frames(
        &data,
        "g.bin".to_string(),
        Some("pw"),
        [1; 16],
        [2; 12],
        120,
        EcLevel::Low,
        200,
        200,
    )
    .unwrap();
    let scans: Vec<Result<Vec<u8>, QrScanFailure>> = e
        .frames
        .iter()
        .map(|f| Ok(base64::engine::general_purpose::STANDARD.encode(f).into_bytes()))
        .collect();
    let d = decode_frames(&scans, Some("pw")).unwrap();
    assert_eq!(d.result.unwrap(), data);
}

#[test]
fn frames_too_small_for_the_symbol_are_reported() {
    let r = encode_to_qr_frames(b"abc", String::new(), None, [0; 16], [0; 12], 100, EcLevel::High, 10, 10);
    assert_eq!(
        r.err(),
        Some(FramesError::Qr { position: 0, error: QrFrameError::FrameTooSmall })
    );
}

#[test]
fn shuffled_frames_with_junk_decode_alike() {
    let data = sample(1500);
    let e = encode(&data, None, 60);
    let in_order = decode(&e.frames, all_reads(&e.frames), None);
    let mut reads = all_reads(&e.frames);
    reads.rotate_left(3);
    reads.swap(0, 5);
    let mut bad = e.frames[2].clone();
    let last = bad.len() - 1;
    bad[last] ^= 0x40;
    reads.insert(2, Ok(bad));
    reads.insert(0, Err(QrFrameError::Unreadable));
    reads.push(Ok(vec![9, 9, 9]));
    reads.push(Ok(DataFrame { frame_index: 0, chunk_crc: 0, data: vec![] }.serialize().unwrap()));
    let shuffled = decode(&e.frames, reads, None);
    assert_eq!(shuffled.missing, in_order.missing);
    assert_eq!(shuffled.result, in_order.result);
    assert_eq!(shuffled.result.unwrap(), data);
}

#[test]
fn file_name_too_long_for_the_header_is_refused() {
    let r = encode_file(b"x", "n".repeat(70_000), None, [0; 16], [0; 12], 100);
    assert!(matches!(r, Err(EncodeError::FilenameTooLong)));
}
