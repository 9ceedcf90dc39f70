use qrdv::video::{
    parse_probe_output, split_frames, split_frames_checked, FrameSizeError, ProbeError, ProbeInfo,
};

#[test]
fn probe_output_parses() {
    assert_eq!(
        parse_probe_output("1280,720,42\n"),
        Ok(ProbeInfo { width: 1280, height: 720, frame_count: 42 })
    );
    assert_eq!(
        parse_probe_output("  854,480,N/A  "),
        Ok(ProbeInfo { width: 854, height: 480, frame_count: 0 })
    );
    assert_eq!(
        parse_probe_output("+3,4,5,extra"),
        Ok(ProbeInfo { width: 3, height: 4, frame_count: 5 })
    );
}

#[test]
fn probe_output_errors() {
    assert_eq!(parse_probe_output(""), Err(ProbeError::MissingFields));
    assert_eq!(parse_probe_output("1280,720"), Err(ProbeError::MissingFields));
    assert_eq!(parse_probe_output("wide,720,1"), Err(ProbeError::InvalidWidth));
    assert_eq!(parse_probe_output("-1,720,1"), Err(ProbeError::InvalidWidth));
    assert_eq!(parse_probe_output("4294967296,720,1"), Err(ProbeError::InvalidWidth));
    assert_eq!(parse_probe_output("1280,,1"), Err(ProbeError::InvalidHeight));
    assert_eq!(parse_probe_output("1280, 720,1"), Err(ProbeError::InvalidHeight));
}

#[test]
fn raw_output_is_cut_into_frames() {
    let raw: Vec<u8> = (0..14u8).collect();
    let frames = split_frames(&raw, 3, 2);
    assert_eq!(frames.len(), 2);
    assert_eq!(frames[0].pixels, vec![0, 1, 2, 3, 4, 5]);
    assert_eq!(frames[1].pixels, vec![6, 7, 8, 9, 10, 11]);
    assert_eq!((frames[1].width, frames[1].height), (3, 2));
}

#[test]
fn unusable_frame_sizes_are_refused() {
    let raw: Vec<u8> = (0..14u8).collect();
    assert_eq!(split_frames_checked(&raw, 0, 720).err(), Some(FrameSizeError::Empty));
    assert_eq!(split_frames_checked(&raw, 1280, 0).err(), Some(FrameSizeError::Empty));
    assert_eq!(
        split_frames_checked(&raw, 70_000, 70_000).err(),
        Some(FrameSizeError::TooLarge)
    );
    let frames = split_frames_checked(&raw, 7, 1).unwrap();
    assert_eq!(frames.len(), 2);
    assert_eq!(frames[1].pixels, vec![7, 8, 9, 10, 11, 12, 13]);
}

#[test]
fn frame_count_field_does_not_change_size() {
    assert_eq!(
        parse_probe_output("1280,720,10").map(|i| (i.width, i.height)),
        parse_probe_output("1280,720,N/A").map(|i| (i.width, i.height))
    );
}

#[test]
fn probe_output_trims_unicode_whitespace() {
    assert_eq!(
        parse_probe_output("\u{3000}\t640,360,7\u{a0}\n"),
        Ok(ProbeInfo { width: 640, height: 360, frame_count: 7 })
    );
    assert_eq!(
        parse_probe_output("640,360,7\u{200b}"),
        Ok(ProbeInfo { width: 640, height: 360, frame_count: 0 })
    );
}
