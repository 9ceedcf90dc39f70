use qrdv::protocol::{
    DataFrame, Field, Header, ProtocolError, FLAG_COMPRESSED, FLAG_ENCRYPTED, MAGIC, VERSION,
};

fn plain_header() -> Header {
    Header {
        flags: FLAG_COMPRESSED,
        total_frames: 7,
        original_size: 123_456,
        checksum: 0xDEAD_BEEF,
        filename: "backup.tar".to_string(),
        salt: None,
        nonce: None,
    }
}

fn encrypted_header() -> Header {
    Header {
        flags: FLAG_COMPRESSED | FLAG_ENCRYPTED,
        total_frames: 3,
        original_size: 42,
        checksum: 1,
        filename: "日記.txt".to_string(),
        salt: Some([0xAA; 16]),
        nonce: Some([0xBB; 12]),
    }
}

fn same(a: &Header, b: &Header) -> bool {
    a.flags == b.flags
        && a.total_frames == b.total_frames
        && a.original_size == b.original_size
        && a.checksum == b.checksum
        && a.filename == b.filename
        && a.salt == b.salt
        && a.nonce == b.nonce
}

#[test]
fn header_layout() {
    let bytes = plain_header().serialize().unwrap();
    assert_eq!(&bytes[0..4], b"QRDV");
    assert_eq!(MAGIC, *b"QRDV");
    assert_eq!(bytes[4], VERSION);
    assert_eq!(bytes[5], FLAG_COMPRESSED);
    assert_eq!(&bytes[6..10], &7u32.to_le_bytes());
    assert_eq!(&bytes[10..18], &123_456u64.to_le_bytes());
    assert_eq!(&bytes[18..22], &0xDEAD_BEEFu32.to_le_bytes());
    assert_eq!(&bytes[22..24], &10u16.to_le_bytes());
    assert_eq!(&bytes[24..], b"backup.tar");
}

#[test]
fn header_roundtrip_plain() {
    let h = plain_header();
    let bytes = h.serialize().unwrap();
    let back = Header::deserialize(&bytes).unwrap();
    assert!(same(&h, &back));
    assert!(back.is_compressed());
    assert!(!back.is_encrypted());
}

#[test]
fn header_roundtrip_encrypted_with_trailing_bytes() {
    let h = encrypted_header();
    let mut bytes = h.serialize().unwrap();
    assert_eq!(bytes.len(), 24 + "日記.txt".len() + 16 + 12);
    bytes.extend_from_slice(b"trailing");
    let back = Header::deserialize(&bytes).unwrap();
    assert!(same(&h, &back));
    assert!(back.is_encrypted());
}

#[test]
fn header_missing_salt_is_refused() {
    let mut h = encrypted_header();
    h.nonce = None;
    assert_eq!(h.serialize().err(), Some(ProtocolError::MissingSaltOrNonce));
}

#[test]
fn header_salt_ignored_when_not_encrypted() {
    let mut h = plain_header();
    h.salt = Some([1; 16]);
    let back = Header::deserialize(&h.serialize().unwrap()).unwrap();
    assert_eq!(back.salt, None);
}

#[test]
fn header_errors() {
    let good = encrypted_header().serialize().unwrap();
    assert_eq!(Header::deserialize(b"QR").err(), Some(ProtocolError::Truncated(Field::Magic)));
    assert_eq!(Header::deserialize(b"QRDX\x01").err(), Some(ProtocolError::InvalidMagic));
    assert_eq!(Header::deserialize(b"QRDV").err(), Some(ProtocolError::Truncated(Field::Version)));
    assert_eq!(Header::deserialize(b"QRDV\x02").err(), Some(ProtocolError::UnsupportedVersion(2)));
    assert_eq!(Header::deserialize(&good[..5]).err(), Some(ProtocolError::Truncated(Field::Flags)));
    assert_eq!(
        Header::deserialize(&good[..9]).err(),
        Some(ProtocolError::Truncated(Field::TotalFrames))
    );
    assert_eq!(
        Header::deserialize(&good[..17]).err(),
        Some(ProtocolError::Truncated(Field::OriginalSize))
    );
    assert_eq!(
        Header::deserialize(&good[..21]).err(),
        Some(ProtocolError::Truncated(Field::Checksum))
    );
    assert_eq!(
        Header::deserialize(&good[..23]).err(),
        Some(ProtocolError::Truncated(Field::FilenameLength))
    );
    assert_eq!(
        Header::deserialize(&good[..25]).err(),
        Some(ProtocolError::Truncated(Field::Filename))
    );
    let name_end = 24 + "日記.txt".len();
    assert_eq!(
        Header::deserialize(&good[..name_end + 15]).err(),
        Some(ProtocolError::Truncated(Field::Salt))
    );
    assert_eq!(
        Header::deserialize(&good[..name_end + 27]).err(),
        Some(ProtocolError::Truncated(Field::Nonce))
    );
}

#[test]
fn header_invalid_utf8_filename() {
    let mut bytes = plain_header().serialize().unwrap();
    bytes[24] = 0xFF;
    assert_eq!(Header::deserialize(&bytes).err(), Some(ProtocolError::InvalidFilename));
}

#[test]
fn data_frame_roundtrip() {
    let f = DataFrame { frame_index: 5, chunk_crc: 0x0102_0304, data: vec![9, 8, 7] };
    let bytes = f.serialize().unwrap();
    assert_eq!(bytes, vec![5, 0, 0, 0, 4, 3, 2, 1, 9, 8, 7]);
    let back = DataFrame::deserialize(&bytes).unwrap();
    assert_eq!((back.frame_index, back.chunk_crc, back.data), (5, 0x0102_0304, vec![9, 8, 7]));
}

#[test]
fn data_frame_errors() {
    assert_eq!(
        DataFrame::deserialize(&[1, 2, 3]).err(),
        Some(ProtocolError::Truncated(Field::FrameIndex))
    );
    assert_eq!(
        DataFrame::deserialize(&[1, 2, 3, 4, 5]).err(),
        Some(ProtocolError::Truncated(Field::ChunkCrc))
    );
    let empty = DataFrame::deserialize(&[1, 0, 0, 0, 0, 0, 0, 0]).unwrap();
    assert!(empty.data.is_empty());
}

#[test]
fn filename_longer_than_the_length_field_is_refused() {
    let mut h = plain_header();
    h.filename = "a".repeat(65536);
    assert_eq!(h.serialize().err(), Some(ProtocolError::FilenameTooLong));
    h.filename = "a".repeat(65535);
    let bytes = h.serialize().unwrap();
    assert_eq!(&bytes[22..24], &[0xff, 0xff]);
    assert_eq!(Header::deserialize(&bytes).unwrap().filename.len(), 65535);
}
