use vp8_frame_info::RtpVp8FrameInfo;
use vp8_frame_info::Vp8Error;
use vp8_frame_info::bitcode::BoolEncoder;
use vp8_frame_info::vp8::FrameBufferUpdate;
use vp8_frame_info::vp8::FrameHeader;
use vp8_frame_info::vp8::FrameInfo;
use vp8_frame_info::vp8::FrameTag;
use vp8_frame_info::vp8::FrameTagType;
use vp8_frame_info::vp8::scale_dimension;

/// A minimal synthetic keyframe: tag bytes for {keyframe, version 0,
/// show_frame, first_part_size 2}, the start code, width 100 (scale 0),
/// height 50 (scale 0), then an all-zero-bit first partition.
fn minimal_keyframe() -> Vec<u8> {
    vec![0x50, 0x00, 0x00, 0x9d, 0x01, 0x2a, 0x64, 0x00, 0x32, 0x00, 0x00, 0x00]
}

#[test]
fn tag_unpacking() {
    // The 3-byte little-endian value 0x012345, unpacked low bit first.
    let tmp: u32 = 0x012345;
    let data = [0x45u8, 0x23, 0x01];
    let (tag, consumed) = FrameTag::parse(&data).unwrap();
    assert_eq!(consumed, 3);
    assert!(matches!(tag.frame_type, FrameTagType::InterFrame), "bit 0 is set: interframe");
    assert_eq!(tag.version as u32, (tmp >> 1) & 0x7);
    assert_eq!(tag.show_frame, (tmp >> 4) & 0x1 == 1);
    assert_eq!(tag.first_part_size, (tmp >> 5) & 0x7FFFF);
}

#[test]
fn tag_keyframe_fields() {
    let data = minimal_keyframe();
    let (tag, consumed) = FrameTag::parse(&data).unwrap();
    assert_eq!(consumed, 10);
    assert_eq!(tag.version, 0);
    assert!(tag.show_frame);
    assert_eq!(tag.first_part_size, 2);
    assert!(matches!(
        tag.frame_type,
        FrameTagType::KeyFrame { width: 100, width_scale: 0, height: 50, height_scale: 0 }
    ));
}

#[test]
fn tag_dimension_scale_bits() {
    // Width word 0x4064: width 100 with scale flag 1; height word 0xC032:
    // height 50 with scale flag 3.
    let data = [0x50u8, 0x00, 0x00, 0x9d, 0x01, 0x2a, 0x64, 0x40, 0x32, 0xC0];
    let (tag, _) = FrameTag::parse(&data).unwrap();
    assert!(matches!(
        tag.frame_type,
        FrameTagType::KeyFrame { width: 100, width_scale: 1, height: 50, height_scale: 3 }
    ));
    assert_eq!(tag.frame_type.resolution(), Some((125, 100)));
}

#[test]
fn resolution_scaling() {
    assert_eq!(scale_dimension(100, 0), 100);
    assert_eq!(scale_dimension(100, 1), 125);
    assert_eq!(scale_dimension(100, 2), 166);
    assert_eq!(scale_dimension(100, 3), 200);
}

#[test]
fn interframe_has_no_resolution() {
    assert_eq!(FrameTagType::InterFrame.resolution(), None);
    assert!(!FrameTagType::InterFrame.is_key_frame());
}

#[test]
fn tag_truncated_inputs() {
    assert_eq!(FrameTag::parse(b"").unwrap_err(), Vp8Error::TruncatedInput);
    assert_eq!(FrameTag::parse(&[0x50u8, 0x00]).unwrap_err(), Vp8Error::TruncatedInput);
    // Keyframe with too few bytes for the start code.
    assert_eq!(
        FrameTag::parse(&[0x50u8, 0x00, 0x00, 0x9d, 0x01]).unwrap_err(),
        Vp8Error::TruncatedInput
    );
    // Start code present but dimension words missing.
    assert_eq!(
        FrameTag::parse(&[0x50u8, 0x00, 0x00, 0x9d, 0x01, 0x2a, 0x64, 0x00]).unwrap_err(),
        Vp8Error::TruncatedInput
    );
}

#[test]
fn tag_bad_start_code() {
    let data = [0x50u8, 0x00, 0x00, 0x9d, 0x01, 0x2b, 0x64, 0x00, 0x32, 0x00];
    assert_eq!(FrameTag::parse(&data).unwrap_err(), Vp8Error::BadStartCode);
}

#[test]
fn header_needs_two_partition_bytes() {
    assert_eq!(
        FrameHeader::parse(FrameTagType::InterFrame, &[0x00u8]).unwrap_err(),
        Vp8Error::TruncatedInput
    );
}

#[test]
fn header_rejects_unsupported_color_space() {
    // First partition decision set (first byte's top bit): color space 1.
    let kind = FrameTagType::KeyFrame { width: 100, width_scale: 0, height: 50, height_scale: 0 };
    assert_eq!(
        FrameHeader::parse(kind, &[0x80u8, 0x00]).unwrap_err(),
        Vp8Error::UnsupportedColorSpace
    );
}

#[test]
fn keyframe_forces_full_refresh() {
    let kind = FrameTagType::KeyFrame { width: 100, width_scale: 0, height: 50, height_scale: 0 };
    // Assorted partition contents (color-space decision clear in each):
    // whatever the remaining bits say, a keyframe refreshes both references.
    let partitions: [&[u8]; 4] = [
        &[0x00, 0x00],
        &[0x55, 0xaa, 0x13, 0x77, 0x01],
        &[0x7f, 0xff, 0xff, 0xff, 0xff, 0xff],
        &[0x23, 0x01, 0x00, 0xfe, 0x9c, 0x44, 0x12],
    ];
    for p in partitions {
        let header = FrameHeader::parse(kind, p).unwrap();
        assert_eq!(
            header.frame_buffer_update,
            FrameBufferUpdate { golden: true, altref: true }
        );
    }
}

/// Build an interframe first partition whose header bits are exactly the
/// given decisions, via the encoder (all header fields are probability-128
/// coded).
fn interframe_partition(golden: bool, altref: bool) -> Vec<u8> {
    let mut encoder = BoolEncoder::new();
    encoder.write_bool(128, 0); // segmentation_enabled
    encoder.write_bool(128, 0); // filter_type
    for _ in 0..6 {
        encoder.write_bool(128, 0); // loop_filter_level
    }
    for _ in 0..3 {
        encoder.write_bool(128, 0); // sharpness_level
    }
    encoder.write_bool(128, 0); // loop_filter_adj_enable
    for _ in 0..2 {
        encoder.write_bool(128, 0); // log2_nbr_of_dct_partitions
    }
    for _ in 0..7 {
        encoder.write_bool(128, 0); // y_ac_qi
    }
    for _ in 0..5 {
        encoder.write_bool(128, 0); // optional quantizer deltas
    }
    encoder.write_bool(128, golden as u8);
    encoder.write_bool(128, altref as u8);
    encoder.flush()
}

#[test]
fn interframe_refresh_flags_read_directly() {
    for (golden, altref) in [(false, false), (true, false), (false, true), (true, true)] {
        let partition = interframe_partition(golden, altref);
        let header = FrameHeader::parse(FrameTagType::InterFrame, &partition).unwrap();
        assert_eq!(header.frame_buffer_update, FrameBufferUpdate { golden, altref });
    }
}

#[test]
fn end_to_end_minimal_keyframe() {
    let data = minimal_keyframe();
    let info = FrameInfo::parse(&data).unwrap();
    assert!(matches!(
        info.tag.frame_type,
        FrameTagType::KeyFrame { width: 100, width_scale: 0, height: 50, height_scale: 0 }
    ));
    assert!(info.tag.show_frame);
    assert_eq!(info.tag.frame_type.resolution(), Some((100, 50)));
    assert_eq!(
        info.header.frame_buffer_update,
        FrameBufferUpdate { golden: true, altref: true }
    );
}

#[test]
fn parse_propagates_tag_errors() {
    assert_eq!(FrameInfo::parse(&[0x50u8, 0x00]).unwrap_err(), Vp8Error::TruncatedInput);
    let bad_code = [0x50u8, 0x00, 0x00, 0x9c, 0x01, 0x2a, 0x64, 0x00, 0x32, 0x00, 0, 0];
    assert_eq!(FrameInfo::parse(&bad_code).unwrap_err(), Vp8Error::BadStartCode);
    // Valid tag but a one-byte partition.
    let short_partition = [0x50u8, 0x00, 0x00, 0x9d, 0x01, 0x2a, 0x64, 0x00, 0x32, 0x00, 0x00];
    assert_eq!(FrameInfo::parse(&short_partition).unwrap_err(), Vp8Error::TruncatedInput);
}

#[test]
fn depacketized_frame_start_parses() {
    let data = minimal_keyframe();
    let info = RtpVp8FrameInfo::from_depacketized(7, 90_000, true, 513, 1, 0, &data)
        .unwrap()
        .unwrap();
    assert_eq!(info.rtp_sequence_number, 7);
    assert_eq!(info.rtp_timestamp, 90_000);
    assert!(info.vp8_frame.tag.frame_type.is_key_frame());

    let line = info.to_log_line();
    assert_eq!(line.rtp_sequence_number, 7);
    assert_eq!(line.pts, 90_000);
    assert_eq!(line.picture_id, Some(513));
    assert_eq!(line.resolution, Some((100, 50)));
    assert!(line.show_frame);
    assert!(line.keyframe);
    assert!(line.modify_golden_frame);
    assert!(line.modify_altref_frame);
}

#[test]
fn depacketized_continuation_is_skipped() {
    let data = minimal_keyframe();
    // Not the start of a partition, or not partition zero: no frame header.
    assert_eq!(RtpVp8FrameInfo::from_depacketized(8, 0, false, 0, 0, 0, &data).unwrap(), None);
    assert_eq!(RtpVp8FrameInfo::from_depacketized(9, 0, false, 0, 1, 2, &data).unwrap(), None);
}

#[test]
fn log_line_without_picture_id() {
    let data = minimal_keyframe();
    let info = RtpVp8FrameInfo::from_depacketized(1, 2, false, 99, 1, 0, &data)
        .unwrap()
        .unwrap();
    let line = info.to_log_line();
    assert_eq!(line.picture_id, None);
}
