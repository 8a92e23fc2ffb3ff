use crate::buffers::bytes_view;
use bytes::Bytes;
use vstd::prelude::*;

verus! {

/// One encoded AAC frame with its place on the 90 kHz clock.
pub struct AacFrame {
    pub data: Bytes,
    pub pts: u64,
    pub sample_rate: u32,
    pub samples: u32,
}

/// What an [`AacFrame`] holds.
pub struct FrameView {
    pub data: Seq<u8>,
    pub pts: u64,
    pub sample_rate: u32,
    pub samples: u32,
}

impl View for AacFrame {
    type V = FrameView;

    open spec fn view(&self) -> FrameView {
        FrameView {
            data: bytes_view(self.data),
            pts: self.pts,
            sample_rate: self.sample_rate,
            samples: self.samples,
        }
    }
}

/// The views of a run of frames.
pub open spec fn frame_views(frames: Seq<AacFrame>) -> Seq<FrameView> {
    Seq::new(frames.len(), |i: int| frames[i]@)
}

/// The number of samples per channel in one AAC frame.
pub const SAMPLES_PER_FRAME: u32 = 1024;

/// The frequency of the presentation clock.
pub const CLOCK_HZ: u64 = 90_000;

/// How far one frame moves the presentation clock at a sample rate.
pub open spec fn frame_ticks(sample_rate: u32) -> u64 {
    (1024int * 90_000 / sample_rate as int) as u64
}

/// The clock after one frame. Like every timestamp on it, it wraps around.
pub open spec fn next_pts(pts: u64, sample_rate: u32) -> u64 {
    ((pts + frame_ticks(sample_rate)) % 0x1_0000_0000_0000_0000) as u64
}

/// Moves the clock `pts` past one frame at `sample_rate`.
pub fn advance_pts(pts: u64, sample_rate: u32) -> (r: u64)
    requires
        sample_rate > 0,
    ensures
        r == next_pts(pts, sample_rate),
{
    pts.wrapping_add(SAMPLES_PER_FRAME as u64 * CLOCK_HZ / sample_rate as u64)
}

/// What a transcoder is asked to do.
pub struct TranscoderConfig {
    pub input_url: String,
    pub bitrate: u32,
    pub sample_rate: u32,
    pub channels: u16,
}

} // verus!
