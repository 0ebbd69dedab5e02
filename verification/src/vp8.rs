//! VP8 access-unit parsing: the uncompressed frame tag (RFC 6386 section
//! 19.1) and the first-partition frame header (section 19.2), read through
//! the boolean arithmetic decoder.
//!
//! Only the fields the telemetry consumer needs are kept: frame kind, coded
//! resolution, display flag, and the golden/altref buffer-refresh decision.
//! Every other header field is read and discarded purely to stay
//! bit-synchronized; getting any skip width wrong would desynchronize all
//! later reads, so the skipping itself is part of the specification.

use vstd::prelude::*;
use vstd::slice::slice_subrange;

use crate::Vp8Error;
use crate::bitcode::BoolDecoder;
use crate::bitcode::DecState;
use crate::bitcode::dec_init;
use crate::bitcode::dec_read_bool;
use crate::bitcode::dec_read_literal;

verus! {

/// Everything this crate extracts from one access unit.
#[derive(Debug, Clone, Copy, PartialEq, Eq, Structural)]
pub struct FrameInfo {
    pub tag: FrameTag,
    pub header: FrameHeader,
}

/// The uncompressed frame tag that starts every VP8 access unit.
#[derive(Debug, Clone, Copy, PartialEq, Eq, Structural)]
pub struct FrameTag {
    pub frame_type: FrameTagType,
    /// 3-bit reconstruction-filter/loop-filter profile.
    pub version: u8,
    /// Whether the frame is intended for display.
    pub show_frame: bool,
    /// 19-bit byte length of the first (header) partition following the tag.
    pub first_part_size: u32,
}

/// Frame kind; coded dimensions exist only for keyframes.
#[derive(Debug, Clone, Copy, PartialEq, Eq, Structural)]
pub enum FrameTagType {
    KeyFrame {
        /// 14-bit coded width.
        width: u16,
        /// 2-bit horizontal upscaling factor.
        width_scale: u8,
        /// 14-bit coded height.
        height: u16,
        /// 2-bit vertical upscaling factor.
        height_scale: u8,
    },
    InterFrame,
}

/// The part of the first-partition header this crate keeps.
#[derive(Debug, Clone, Copy, PartialEq, Eq, Structural)]
pub struct FrameHeader {
    pub frame_buffer_update: FrameBufferUpdate,
}

/// Whether this frame's decode refreshes the golden / alternate-reference
/// buffers.
#[derive(Debug, Clone, Copy, PartialEq, Eq, Structural)]
pub struct FrameBufferUpdate {
    pub golden: bool,
    pub altref: bool,
}

/// A 16-bit little-endian word.
pub open spec fn le16(b0: u8, b1: u8) -> int {
    b0 + 256 * b1
}

/// A 24-bit little-endian word.
pub open spec fn le24(b0: u8, b1: u8, b2: u8) -> int {
    b0 + 256 * b1 + 65536 * b2
}

/// The display dimension derived from a coded dimension and its 2-bit
/// upscaling factor: x1, x5/4, x5/3 or x2, with truncating division.
pub open spec fn spec_scale(dimension: int, scale_flag: int) -> int {
    if scale_flag == 1 {
        dimension * 5 / 4
    } else if scale_flag == 2 {
        dimension * 5 / 3
    } else if scale_flag == 3 {
        dimension * 2
    } else {
        dimension
    }
}

/// The display resolution of a frame: known only for keyframes.
pub open spec fn spec_resolution(t: FrameTagType) -> Option<(u32, u32)> {
    match t {
        FrameTagType::KeyFrame { width, width_scale, height, height_scale } => Some(
            (
                spec_scale(width as int, width_scale as int) as u32,
                spec_scale(height as int, height_scale as int) as u32,
            ),
        ),
        FrameTagType::InterFrame => None,
    }
}

/// Frame-tag parsing: a 3-byte little-endian word unpacked low bit first
/// (frame-type bit, 3-bit version, show-frame bit, 19-bit first-partition
/// size); keyframes then carry the start code `9d 01 2a` and two 16-bit
/// dimension words.  Returns the tag and the number of bytes consumed.
pub open spec fn tag_parse(data: Seq<u8>) -> Result<(FrameTag, usize), Vp8Error> {
    if data.len() < 3 {
        Err(Vp8Error::TruncatedInput)
    } else {
        let tmp = le24(data[0], data[1], data[2]);
        let key_frame = tmp % 2 == 0;
        let version = ((tmp / 2) % 8) as u8;
        let show_frame = (tmp / 16) % 2 == 1;
        let first_part_size = ((tmp / 32) % 0x80000) as u32;
        if key_frame {
            if data.len() < 6 {
                Err(Vp8Error::TruncatedInput)
            } else if !(data[3] == 0x9d && data[4] == 0x01 && data[5] == 0x2a) {
                Err(Vp8Error::BadStartCode)
            } else if data.len() < 10 {
                Err(Vp8Error::TruncatedInput)
            } else {
                let w = le16(data[6], data[7]);
                let h = le16(data[8], data[9]);
                Ok(
                    (
                        FrameTag {
                            frame_type: FrameTagType::KeyFrame {
                                width: (w % 0x4000) as u16,
                                width_scale: (w / 0x4000) as u8,
                                height: (h % 0x4000) as u16,
                                height_scale: (h / 0x4000) as u8,
                            },
                            version,
                            show_frame,
                            first_part_size,
                        },
                        10usize,
                    ),
                )
            }
        } else {
            Ok(
                (
                    FrameTag {
                        frame_type: FrameTagType::InterFrame,
                        version,
                        show_frame,
                        first_part_size,
                    },
                    3usize,
                ),
            )
        }
    }
}

/// One optional header field: a presence decision, then `width` discarded
/// bits if it was set.
pub open spec fn skip_opt(s: DecState, width: nat) -> DecState {
    let (present, s1) = dec_read_bool(s, 128);
    if present {
        dec_read_literal(s1, width).1
    } else {
        s1
    }
}

/// `count` optional fields of the same width, in order.
pub open spec fn skip_opts(s: DecState, width: nat, count: nat) -> DecState
    decreases count,
{
    if count == 0 {
        s
    } else {
        skip_opts(skip_opt(s, width), width, (count - 1) as nat)
    }
}

/// The segmentation block: if enabled, the map/feature-data decisions and
/// their optional quantizer (8-bit), loop-filter (7-bit) and segment
/// probability (8-bit) fields.
pub open spec fn hdr_segmentation(s: DecState) -> DecState {
    let (segmentation_enabled, s1) = dec_read_bool(s, 128);
    if segmentation_enabled {
        let (update_mb_segmentation_map, s2) = dec_read_bool(s1, 128);
        let (update_segment_feature_data, s3) = dec_read_bool(s2, 128);
        let s4 = if update_segment_feature_data {
            let s3a = dec_read_bool(s3, 128).1;
            skip_opts(skip_opts(s3a, 8, 4), 7, 4)
        } else {
            s3
        };
        if update_mb_segmentation_map {
            skip_opts(s4, 8, 3)
        } else {
            s4
        }
    } else {
        s1
    }
}

/// The loop-filter block: filter type, 6-bit level, 3-bit sharpness, and the
/// optional reference/mode delta fields when adjustments are enabled.
pub open spec fn hdr_loop_filter(s: DecState) -> DecState {
    let s1 = dec_read_bool(s, 128).1;
    let s2 = dec_read_literal(s1, 6).1;
    let s3 = dec_read_literal(s2, 3).1;
    let (loop_filter_adj_enable, s4) = dec_read_bool(s3, 128);
    if loop_filter_adj_enable {
        let (mode_ref_lf_delta_update, s5) = dec_read_bool(s4, 128);
        if mode_ref_lf_delta_update {
            skip_opts(skip_opts(s5, 7, 4), 7, 4)
        } else {
            s5
        }
    } else {
        s4
    }
}

/// The partition-count and quantizer block: 2-bit partition count, 7-bit
/// `y_ac_qi`, and five optional 5-bit quantizer deltas.
pub open spec fn hdr_quant(s: DecState) -> DecState {
    let s1 = dec_read_literal(s, 2).1;
    let s2 = dec_read_literal(s1, 7).1;
    skip_opts(s2, 5, 5)
}

/// First-partition header parsing.  Needs at least the decoder's two fill
/// bytes; a keyframe with a set color-space decision is unsupported.  The
/// decoder walks color space and clamping (keyframes), segmentation, loop
/// filter and quantizer blocks purely to stay positioned, then decides the
/// buffer update: forced `{true, true}` for keyframes (which by definition
/// refresh every reference), read directly for interframes.
pub open spec fn hdr_parse(key_frame: bool, data: Seq<u8>) -> Result<FrameHeader, Vp8Error> {
    if data.len() < 2 {
        Err(Vp8Error::TruncatedInput)
    } else {
        let s0 = dec_init(data);
        if key_frame {
            let (color_space, s1) = dec_read_bool(s0, 128);
            if color_space {
                Err(Vp8Error::UnsupportedColorSpace)
            } else {
                let s2 = dec_read_bool(s1, 128).1;
                let s3 = hdr_quant(hdr_loop_filter(hdr_segmentation(s2)));
                let s4 = dec_read_bool(s3, 128).1;
                Ok(
                    FrameHeader {
                        frame_buffer_update: FrameBufferUpdate { golden: true, altref: true },
                    },
                )
            }
        } else {
            let s3 = hdr_quant(hdr_loop_filter(hdr_segmentation(s0)));
            let (golden, s4) = dec_read_bool(s3, 128);
            let (altref, s5) = dec_read_bool(s4, 128);
            Ok(FrameHeader { frame_buffer_update: FrameBufferUpdate { golden, altref } })
        }
    }
}

/// One access unit: the tag, then the first partition parsed from the
/// remaining bytes.
pub open spec fn info_parse(data: Seq<u8>) -> Result<FrameInfo, Vp8Error> {
    match tag_parse(data) {
        Ok(parsed) => {
            let tag = parsed.0;
            let consumed = parsed.1;
            match hdr_parse(
                tag.frame_type is KeyFrame,
                data.subrange(consumed as int, data.len() as int),
            ) {
                Ok(header) => Ok(FrameInfo { tag, header }),
                Err(e) => Err(e),
            }
        },
        Err(e) => Err(e),
    }
}

proof fn lemma_le24_unpack(b0: u32, b1: u32, b2: u32)
    by (bit_vector)
    requires
        b0 < 256,
        b1 < 256,
        b2 < 256,
    ensures
        (b0 | (b1 << 8u32) | (b2 << 16u32)) == b0 + 256 * b1 + 65536 * b2,
{
}

proof fn lemma_tag_fields(tmp: u32)
    by (bit_vector)
    ensures
        (tmp & 0x1) == tmp % 2,
        ((tmp >> 1u32) & 0x7) == (tmp / 2) % 8,
        ((tmp >> 4u32) & 0x1) == (tmp / 16) % 2,
        ((tmp >> 5u32) & 0x7FFFF) == (tmp / 32) % 0x80000,
{
}

proof fn lemma_le16_unpack(b0: u32, b1: u32)
    by (bit_vector)
    requires
        b0 < 256,
        b1 < 256,
    ensures
        (b0 | (b1 << 8u32)) == b0 + 256 * b1,
        ((b0 | (b1 << 8u32)) & 0x3FFF) == (b0 + 256 * b1) % 0x4000,
        ((b0 | (b1 << 8u32)) >> 14u32) == (b0 + 256 * b1) / 0x4000,
{
}

impl FrameTag {
    /// Parse the frame tag off the front of an access unit, returning the
    /// tag and how many bytes it consumed (3, or 10 for a keyframe).
    pub fn parse(data: &[u8]) -> (r: Result<(FrameTag, usize), Vp8Error>)
        ensures
            r == tag_parse(data@),
    {
        if data.len() < 3 {
            return Err(Vp8Error::TruncatedInput);
        }
        let b0 = data[0];
        let b1 = data[1];
        let b2 = data[2];
        proof {
            lemma_le24_unpack(b0 as u32, b1 as u32, b2 as u32);
        }
        let tmp: u32 = (b0 as u32) | ((b1 as u32) << 8) | ((b2 as u32) << 16);
        proof {
            lemma_tag_fields(tmp);
        }
        let key_frame = (tmp & 0x1) == 0;
        let version = ((tmp >> 1) & 0x7) as u8;
        let show_frame = ((tmp >> 4) & 0x1) == 1;
        let first_part_size = (tmp >> 5) & 0x7FFFF;

        let frame_type: FrameTagType;
        let consumed: usize;
        if key_frame {
            if data.len() < 6 {
                return Err(Vp8Error::TruncatedInput);
            }
            if !(data[3] == 0x9d && data[4] == 0x01 && data[5] == 0x2a) {
                return Err(Vp8Error::BadStartCode);
            }
            if data.len() < 10 {
                return Err(Vp8Error::TruncatedInput);
            }
            proof {
                lemma_le16_unpack(data@[6] as u32, data@[7] as u32);
                lemma_le16_unpack(data@[8] as u32, data@[9] as u32);
            }
            let w: u32 = (data[6] as u32) | ((data[7] as u32) << 8);
            let h: u32 = (data[8] as u32) | ((data[9] as u32) << 8);
            frame_type = FrameTagType::KeyFrame {
                width: (w & 0x3FFF) as u16,
                width_scale: (w >> 14) as u8,
                height: (h & 0x3FFF) as u16,
                height_scale: (h >> 14) as u8,
            };
            consumed = 10;
        } else {
            frame_type = FrameTagType::InterFrame;
            consumed = 3;
        }
        Ok((FrameTag { frame_type, version, show_frame, first_part_size }, consumed))
    }
}

impl FrameTagType {
    /// Whether this is the keyframe variant.
    pub fn is_key_frame(&self) -> (r: bool)
        ensures
            r == (self is KeyFrame),
    {
        matches!(self, FrameTagType::KeyFrame { .. })
    }

    /// The display resolution, after upscaling: known only for keyframes.
    pub fn resolution(&self) -> (r: Option<(u32, u32)>)
        ensures
            r == spec_resolution(*self),
    {
        match self {
            FrameTagType::KeyFrame { width, width_scale, height, height_scale } => Some(
                (
                    scale_dimension(*width as u32, *width_scale),
                    scale_dimension(*height as u32, *height_scale),
                ),
            ),
            FrameTagType::InterFrame => None,
        }
    }
}

/// Apply a 2-bit upscaling factor to a coded dimension: x1, x5/4, x5/3 or
/// x2, with truncating integer division.
pub fn scale_dimension(dimension: u32, scale_flag: u8) -> (r: u32)
    requires
        dimension <= u32::MAX / 5,
    ensures
        r == spec_scale(dimension as int, scale_flag as int),
{
    match scale_flag {
        1 => dimension * 5 / 4,
        2 => dimension * 5 / 3,
        3 => dimension * 2,
        _ => dimension,
    }
}

/// Read one optional field's presence decision and, if set, its `field_size`
/// discarded payload bits.
fn skip_opt_field<'a>(decoder: &mut BoolDecoder<'a>, field_size: usize)
    requires
        old(decoder)@.wf(),
        field_size <= 32,
    ensures
        final(decoder)@ == skip_opt(old(decoder)@, field_size as nat),
        final(decoder)@.wf(),
{
    if decoder.read_bit() {
        let _skip = decoder.read_literal(field_size as u32);
    }
}

/// Read `count` optional fields of the same width in order.
fn skip_opt_fields<'a>(decoder: &mut BoolDecoder<'a>, field_size: usize, count: usize)
    requires
        old(decoder)@.wf(),
        field_size <= 32,
    ensures
        final(decoder)@ == skip_opts(old(decoder)@, field_size as nat, count as nat),
        final(decoder)@.wf(),
{
    let mut i: usize = 0;
    while i < count
        invariant
            i <= count,
            decoder@.wf(),
            field_size <= 32,
            skip_opts(old(decoder)@, field_size as nat, count as nat) == skip_opts(
                decoder@,
                field_size as nat,
                (count - i) as nat,
            ),
        decreases count - i,
    {
        let ghost prev: DecState = decoder@;
        skip_opt_field(decoder, field_size);
        proof {
            assert(skip_opts(prev, field_size as nat, (count - i) as nat) == skip_opts(
                decoder@,
                field_size as nat,
                (count - i - 1) as nat,
            ));
        }
        i = i + 1;
    }
}

impl FrameHeader {
    /// Parse the first partition of an access unit, given the frame kind
    /// from its tag.  Interframe parsing stops right after the two refresh
    /// decisions; nothing downstream reads past that point.
    pub fn parse(frame_type: FrameTagType, data: &[u8]) -> (r: Result<FrameHeader, Vp8Error>)
        ensures
            r == hdr_parse(frame_type is KeyFrame, data@),
    {
        let mut decoder = match BoolDecoder::new(data) {
            Ok(d) => d,
            Err(e) => {
                return Err(e);
            },
        };

        if frame_type.is_key_frame() {
            let color_space = decoder.read_bit();
            if color_space {
                return Err(Vp8Error::UnsupportedColorSpace);
            }
            let _clamping_type = decoder.read_bit();
        }

        let segmentation_enabled = decoder.read_bit();
        if segmentation_enabled {
            let update_mb_segmentation_map = decoder.read_bit();
            let update_segment_feature_data = decoder.read_bit();
            if update_segment_feature_data {
                let _segment_feature_mode = decoder.read_bit();
                skip_opt_fields(&mut decoder, 8, 4);
                skip_opt_fields(&mut decoder, 7, 4);
            }
            if update_mb_segmentation_map {
                skip_opt_fields(&mut decoder, 8, 3);
            }
        }

        let _filter_type = decoder.read_bit();
        let _loop_filter_level = decoder.read_literal(6);
        let _sharpness_level = decoder.read_literal(3);

        let loop_filter_adj_enable = decoder.read_bit();
        if loop_filter_adj_enable {
            let mode_ref_lf_delta_update = decoder.read_bit();
            if mode_ref_lf_delta_update {
                skip_opt_fields(&mut decoder, 7, 4);
                skip_opt_fields(&mut decoder, 7, 4);
            }
        }

        let _log2_nbr_of_dct_partitions = decoder.read_literal(2);
        let _y_ac_qi = decoder.read_literal(7);
        skip_opt_fields(&mut decoder, 5, 5);

        let frame_buffer_update = if frame_type.is_key_frame() {
            let _refresh_entropy_probs = decoder.read_bit();
            FrameBufferUpdate { golden: true, altref: true }
        } else {
            let refresh_golden = decoder.read_bit();
            let refresh_altref = decoder.read_bit();
            FrameBufferUpdate { golden: refresh_golden, altref: refresh_altref }
        };

        Ok(FrameHeader { frame_buffer_update })
    }
}

impl FrameInfo {
    /// Parse one whole access unit: the tag, then the first partition.
    pub fn parse(data: &[u8]) -> (r: Result<FrameInfo, Vp8Error>)
        ensures
            r == info_parse(data@),
    {
        let parsed = match FrameTag::parse(data) {
            Ok(p) => p,
            Err(e) => {
                return Err(e);
            },
        };
        let tag = parsed.0;
        let consumed = parsed.1;
        let rest: &[u8] = slice_subrange(data, consumed, data.len());
        let header = match FrameHeader::parse(tag.frame_type, rest) {
            Ok(h) => h,
            Err(e) => {
                return Err(e);
            },
        };
        Ok(FrameInfo { tag, header })
    }
}

/// A keyframe always refreshes both reference buffers: whenever a keyframe's
/// first partition parses at all, whatever its bit content, the buffer
/// update is `{golden: true, altref: true}`.
pub proof fn lemma_keyframe_forces_full_refresh(data: Seq<u8>)
    ensures
        hdr_parse(true, data) matches Ok(h) ==> h.frame_buffer_update == (FrameBufferUpdate {
            golden: true,
            altref: true,
        }),
{
}

/// When header parsing is owed success: exactly when the partition holds the
/// decoder's two fill bytes and, for keyframes, the color-space decision is
/// clear.  No other input is rejected.
pub proof fn lemma_hdr_parse_ok_iff(key_frame: bool, data: Seq<u8>)
    ensures
        hdr_parse(key_frame, data) is Ok <==> (data.len() >= 2 && !(key_frame && dec_read_bool(
            dec_init(data),
            128,
        ).0)),
{
}

/// When tag parsing is owed success: exactly when three tag bytes exist and,
/// for keyframes, the start code is present with the full ten tag bytes.  No
/// other input is rejected.
pub proof fn lemma_tag_parse_ok_iff(data: Seq<u8>)
    ensures
        tag_parse(data) is Ok <==> (data.len() >= 3 && (le24(data[0], data[1], data[2]) % 2 != 0
            || (data.len() >= 10 && data[3] == 0x9d && data[4] == 0x01 && data[5] == 0x2a))),
{
}

} // verus!
