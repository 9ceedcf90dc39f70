use qrdv::cli::EcLevel;
use qrdv::qr::{
    decode_qr_image, find_max_capacity, generate_qr_image, GrayFrame, QrFrameError, QrScanFailure,
};

/// What `rqrr` reads from a frame: the text of the first QR code, or why none.
fn scan(frame: &GrayFrame) -> Result<Vec<u8>, QrScanFailure> {
    let (w, h) = (frame.width as usize, frame.height as usize);
    let mut image =
        rqrr::PreparedImage::prepare_from_greyscale(w, h, |x, y| frame.pixels[y * w + x]);
    let grids = image.detect_grids();
    match grids.first() {
        None => Err(QrScanFailure::NotFound),
        Some(grid) => match grid.decode() {
            Ok((_, content)) => Ok(content.into_bytes()),
            Err(_) => Err(QrScanFailure::Unreadable),
        },
    }
}


#[test]
fn test_qr_roundtrip() {
    let data = b"Hello, QR World! This is a test payload.";
    let img = generate_qr_image(data, EcLevel::High, 720, 720).unwrap();
    let decoded = decode_qr_image(&scan(&img)).unwrap();
    assert_eq!(decoded, data);
}

#[test]
fn test_qr_binary_data() {
    let data: Vec<u8> = (0..=255).collect();
    let img = generate_qr_image(&data, EcLevel::Medium, 1080, 1080).unwrap();
    let decoded = decode_qr_image(&scan(&img)).unwrap();
    assert_eq!(decoded, data);
}

#[test]
fn test_find_capacity() {
    let cap = find_max_capacity(EcLevel::High);
    assert!(cap > 500, "H capacity should be > 500, got {}", cap);
    assert!(cap < 2000, "H capacity should be < 2000, got {}", cap);
}

#[test]
fn capacity_is_tight() {
    let cap = find_max_capacity(EcLevel::Low);
    let fits: Vec<u8> = (0..cap).map(|i| (i % 256) as u8).collect();
    assert!(generate_qr_image(&fits, EcLevel::Low, 1920, 1080).is_ok());
    let too_big: Vec<u8> = (0..cap + 1).map(|i| (i % 256) as u8).collect();
    assert_eq!(
        generate_qr_image(&too_big, EcLevel::Low, 1920, 1080).err(),
        Some(QrFrameError::Encode)
    );
}

#[test]
fn frame_layout_is_centred_with_white_border() {
    let img = generate_qr_image(b"x", EcLevel::Low, 300, 200).unwrap();
    assert_eq!((img.width, img.height), (300, 200));
    assert_eq!(img.pixels.len(), 300 * 200);
    // a version-1 symbol is 21 modules: module size 200 / 29 = 6, 126 pixels wide
    assert_eq!(img.pixels[0], 255);
    let (ox, oy) = ((300 - 126) / 2, (200 - 126) / 2);
    // the top-left finder pattern corner is dark
    assert_eq!(img.pixels[oy * 300 + ox], 0);
    assert_eq!(img.pixels[oy * 300 + ox - 1], 255);
    assert!(img.pixels.iter().all(|&p| p == 0 || p == 255));
}

#[test]
fn frame_smaller_than_symbol_is_refused() {
    assert_eq!(
        generate_qr_image(b"hello", EcLevel::High, 10, 10).err(),
        Some(QrFrameError::FrameTooSmall)
    );
}

#[test]
fn blank_frame_has_no_code() {
    let frame = GrayFrame { width: 64, height: 64, pixels: vec![255u8; 64 * 64] };
    assert_eq!(decode_qr_image(&scan(&frame)), Err(QrFrameError::NotFound));
}

#[test]
fn scanner_failures_and_bad_base64_are_reported() {
    assert_eq!(decode_qr_image(&Err(QrScanFailure::NotFound)), Err(QrFrameError::NotFound));
    assert_eq!(decode_qr_image(&Err(QrScanFailure::Unreadable)), Err(QrFrameError::Unreadable));
    assert_eq!(decode_qr_image(&Ok(b"not base64!".to_vec())), Err(QrFrameError::InvalidBase64));
    assert_eq!(decode_qr_image(&Ok(b"aGk=".to_vec())), Ok(b"hi".to_vec()));
}

#[test]
fn large_frames_take_every_symbol() {
    // the largest payload that fits at level L still renders in a 177-pixel square
    let cap = find_max_capacity(EcLevel::Low);
    let data: Vec<u8> = (0..cap).map(|i| (i % 256) as u8).collect();
    let img = generate_qr_image(&data, EcLevel::Low, 177, 177).unwrap();
    assert_eq!(img.pixels.len(), 177 * 177);
}
