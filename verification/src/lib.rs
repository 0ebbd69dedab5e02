//! Extraction of structural metadata from VP8 compressed video bitstreams.
//!
//! The crate decodes just enough of a VP8 access unit to report, per frame:
//! whether it is a keyframe, its coded resolution (keyframes only), whether it
//! is intended for display, and which reference buffers (golden/altref) its
//! decode refreshes.  No pixel data is ever reconstructed.

use vstd::prelude::*;

pub mod bitcode;
pub mod vp8;

verus! {

/// The ways one access unit can fail to parse.  A failure is always local to
/// one access unit; no state survives across frames, so the caller can simply
/// drop the frame and continue with the stream.
#[derive(Clone, Copy, Debug, PartialEq, Eq, Structural)]
pub enum Vp8Error {
    /// Fewer bytes were available than a fixed-size field requires (frame tag,
    /// start code, dimension words, or the boolean decoder's initial two-byte
    /// fill).
    TruncatedInput,
    /// A keyframe tag's three-byte start code did not match the required
    /// constant.
    BadStartCode,
    /// A structurally valid but unsupported feature was met (a non-default
    /// color space).
    UnsupportedColorSpace,
}

/// Structure of a video log line.
#[derive(Debug, Clone, Copy, PartialEq, Eq)]
pub struct FrameLogLine {
    pub rtp_sequence_number: u16,
    pub pts: u32,
    pub picture_id: Option<u16>,
    /// Only set on keyframes: remembering the previous frame's resolution
    /// would misaccount dropped frames.
    pub resolution: Option<(u32, u32)>,
    pub show_frame: bool,
    pub keyframe: bool,
    pub modify_golden_frame: bool,
    pub modify_altref_frame: bool,
}

/// One parsed VP8 frame together with the RTP-level metadata the logging
/// pipeline attaches to it.  RTP depacketization is a collaborator's job;
/// this type takes its results as plain values.
#[derive(Debug, Clone, Copy, PartialEq, Eq, Structural)]
pub struct RtpVp8FrameInfo {
    pub rtp_sequence_number: u16,
    pub rtp_timestamp: u32,
    pub has_picture_id: bool,
    pub picture_id: u16,
    pub vp8_frame: vp8::FrameInfo,
}

/// The per-packet decision: only a packet that starts a new frame
/// (`start_of_partition == 1`) at partition index 0 carries a frame header,
/// and then the access unit either parses or its error is reported.
pub open spec fn spec_from_depacketized(
    rtp_sequence_number: u16,
    rtp_timestamp: u32,
    has_picture_id: bool,
    picture_id: u16,
    start_of_partition: u8,
    partition_index: u8,
    payload: Seq<u8>,
) -> Result<Option<RtpVp8FrameInfo>, Vp8Error> {
    if start_of_partition == 1 && partition_index == 0 {
        match vp8::info_parse(payload) {
            Ok(frame) => Ok(
                Some(
                    RtpVp8FrameInfo {
                        rtp_sequence_number,
                        rtp_timestamp,
                        has_picture_id,
                        picture_id,
                        vp8_frame: frame,
                    },
                ),
            ),
            Err(e) => Err(e),
        }
    } else {
        Ok(None)
    }
}

impl RtpVp8FrameInfo {
    /// Build the frame record from an already-depacketized RTP packet: the
    /// RTP header's sequence number and timestamp, the VP8 payload
    /// descriptor's picture id (with its presence flag), partition-start
    /// flag and partition index, and the reassembled payload bytes.
    pub fn from_depacketized(
        rtp_sequence_number: u16,
        rtp_timestamp: u32,
        has_picture_id: bool,
        picture_id: u16,
        start_of_partition: u8,
        partition_index: u8,
        payload: &[u8],
    ) -> (r: Result<Option<RtpVp8FrameInfo>, Vp8Error>)
        ensures
            r == spec_from_depacketized(
                rtp_sequence_number,
                rtp_timestamp,
                has_picture_id,
                picture_id,
                start_of_partition,
                partition_index,
                payload@,
            ),
    {
        if start_of_partition == 1 && partition_index == 0 {
            match vp8::FrameInfo::parse(payload) {
                Ok(frame) => Ok(
                    Some(
                        RtpVp8FrameInfo {
                            rtp_sequence_number,
                            rtp_timestamp,
                            has_picture_id,
                            picture_id,
                            vp8_frame: frame,
                        },
                    ),
                ),
                Err(e) => Err(e),
            }
        } else {
            Ok(None)
        }
    }

    /// Flatten the record into the log line the pipeline serializes.
    pub fn to_log_line(&self) -> (r: FrameLogLine)
        ensures
            r.rtp_sequence_number == self.rtp_sequence_number,
            r.pts == self.rtp_timestamp,
            r.picture_id == (if self.has_picture_id {
                Some(self.picture_id)
            } else {
                None::<u16>
            }),
            r.resolution == vp8::spec_resolution(self.vp8_frame.tag.frame_type),
            r.show_frame == self.vp8_frame.tag.show_frame,
            r.keyframe == (self.vp8_frame.tag.frame_type is KeyFrame),
            r.modify_golden_frame == self.vp8_frame.header.frame_buffer_update.golden,
            r.modify_altref_frame == self.vp8_frame.header.frame_buffer_update.altref,
    {
        FrameLogLine {
            rtp_sequence_number: self.rtp_sequence_number,
            pts: self.rtp_timestamp,
            picture_id: if self.has_picture_id {
                Some(self.picture_id)
            } else {
                None
            },
            resolution: self.vp8_frame.tag.frame_type.resolution(),
            show_frame: self.vp8_frame.tag.show_frame,
            keyframe: self.vp8_frame.tag.frame_type.is_key_frame(),
            modify_golden_frame: self.vp8_frame.header.frame_buffer_update.golden,
            modify_altref_frame: self.vp8_frame.header.frame_buffer_update.altref,
        }
    }
}

} // verus!
