use qrdv::cli::Resolution;

#[test]
fn resolution_dimensions() {
    assert_eq!(Resolution::R480p.dimensions(), (854, 480));
    assert_eq!(Resolution::R720p.dimensions(), (1280, 720));
    assert_eq!(Resolution::R1080p.dimensions(), (1920, 1080));
    assert_eq!(Resolution::R1440p.dimensions(), (2560, 1440));
    assert_eq!(Resolution::R4k.dimensions(), (3840, 2160));
}
