use qrdv::compress::{compress_data, decompress_data, CompressError};
use qrdv::encode::encode_file;

#[test]
fn header_carries_crc32_of_the_file() {
    let e = encode_file(b"123456789", String::new(), None, [0; 16], [0; 12], 100).unwrap();
    assert_eq!(e.header.checksum, 0xCBF4_3926);
    let e = encode_file(b"", String::new(), None, [0; 16], [0; 12], 100).unwrap();
    assert_eq!(e.header.checksum, 0);
}

#[test]
fn compress_roundtrip() {
    let data: Vec<u8> = (0..5000u32).map(|i| (i % 17) as u8).collect();
    let compressed = compress_data(&data).unwrap();
    assert!(compressed.len() < data.len());
    assert_eq!(decompress_data(&compressed).unwrap(), data);
}

#[test]
fn compress_empty_roundtrip() {
    let compressed = compress_data(b"").unwrap();
    assert_eq!(decompress_data(&compressed).unwrap(), Vec::<u8>::new());
}

#[test]
fn decompress_garbage_fails() {
    assert_eq!(decompress_data(&[0xff, 0xff, 0xff, 0xff]), Err(CompressError::Decompress));
}
