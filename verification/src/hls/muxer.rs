//! Packs timed AAC frames into transport stream segments.
use super::duration::SegmentDuration;
use super::packets::{
    audio_pes, build_audio_pes, build_metadata_pes, build_pat, build_pmt, cc_after, metadata_pes,
    next_cc, pat_section, pes_packets, pmt_section, push_pes, push_section, section_packet,
    step_cc, AUDIO_PID, META_PID, PAT_PID, PMT_PID,
};
use crate::buffers::{bytes_as_slice, bytes_from_vec, bytes_view};
use crate::transcoder::frame::{AacFrame, FrameView};
use bytes::Bytes;
use vstd::prelude::*;

verus! {

/// The state of the muxer: the target length of a segment on the 90 kHz
/// clock, the segment being written, when it started and how many frames it
/// has, the four continuity counters, the current ID3 tag, whether anything
/// was written yet, and the sample rate of the latest frame.
pub struct MuxerState {
    pub target: u64,
    pub bytes: Seq<u8>,
    pub start: u64,
    pub frames: nat,
    pub audio_cc: u8,
    pub meta_cc: u8,
    pub pat_cc: u8,
    pub pmt_cc: u8,
    pub id3: Seq<u8>,
    pub started: bool,
    pub sample_rate: u32,
}

/// A finished segment.
pub struct CompletedSegment {
    pub data: Bytes,
    pub duration: SegmentDuration,
}

/// What a finished segment holds.
pub struct SegmentView {
    pub data: Seq<u8>,
    pub duration: SegmentDuration,
}

impl View for CompletedSegment {
    type V = SegmentView;

    open spec fn view(&self) -> SegmentView {
        SegmentView { data: bytes_view(self.data), duration: self.duration }
    }
}

/// An optional segment, by what it holds.
pub open spec fn segment_view(s: Option<CompletedSegment>) -> Option<SegmentView> {
    match s {
        Some(segment) => Some(segment@),
        None => None,
    }
}

/// The packets that carry the ID3 tag at the head of a segment, none where
/// there is no tag.
pub open spec fn metadata_packets(id3: Seq<u8>, pts: u64, cc: u8) -> Seq<u8> {
    if id3.len() > 0 {
        pes_packets(metadata_pes(id3, pts), META_PID, true, cc, None)
    } else {
        Seq::empty()
    }
}

/// What every segment opens with: the PAT, the PMT, and the ID3 tag.
pub open spec fn segment_head(m: MuxerState, pts: u64) -> Seq<u8> {
    section_packet(PAT_PID, m.pat_cc, pat_section()) + section_packet(
        PMT_PID,
        m.pmt_cc,
        pmt_section(m.id3.len() > 0),
    ) + metadata_packets(m.id3, pts, m.meta_cc)
}

/// Starts a segment at `pts`. The counter of the metadata stream starts over
/// in every segment.
pub open spec fn begin(m: MuxerState, pts: u64) -> MuxerState {
    MuxerState {
        bytes: segment_head(m, pts),
        start: pts,
        frames: 0,
        pat_cc: next_cc(m.pat_cc),
        pmt_cc: next_cc(m.pmt_cc),
        ..m
    }
}

/// The packets that carry one frame. The first frame of a segment carries the
/// clock reference.
pub open spec fn frame_packets(m: MuxerState, frame: FrameView) -> Seq<u8> {
    pes_packets(
        audio_pes(frame.data, frame.pts),
        AUDIO_PID,
        true,
        m.audio_cc,
        if m.frames == 0 {
            Some(frame.pts)
        } else {
            None
        },
    )
}

/// Writes one frame into the current segment.
pub open spec fn write_frame(m: MuxerState, frame: FrameView) -> MuxerState {
    let packets = frame_packets(m, frame);
    MuxerState {
        bytes: m.bytes + packets,
        frames: m.frames + 1,
        audio_cc: cc_after(m.audio_cc, packets.len() as int / 188),
        ..m
    }
}

/// The current segment as it stands: its length in time is that of its frames,
/// at the sample rate of the latest one.
pub open spec fn finished(m: MuxerState) -> SegmentView {
    SegmentView {
        data: m.bytes,
        duration: SegmentDuration {
            frames: m.frames as u32,
            sample_rate: m.sample_rate,
        },
    }
}

/// The muxer as a frame finds it: the sample rate is the frame's, and the very
/// first frame starts a segment.
pub open spec fn prepared(m: MuxerState, frame: FrameView) -> MuxerState {
    let rated = MuxerState { sample_rate: frame.sample_rate, ..m };
    if m.started {
        rated
    } else {
        MuxerState { started: true, ..begin(rated, frame.pts) }
    }
}

/// Whether a frame at `pts` closes the current segment: it has frames, and
/// its target length has passed.
pub open spec fn closes(m: MuxerState, pts: u64) -> bool {
    m.frames > 0 && (if pts >= m.start {
        pts - m.start
    } else {
        0
    }) >= m.target
}

/// Takes in one frame. A frame that closes the current segment opens the next
/// one.
pub open spec fn mux(m: MuxerState, frame: FrameView) -> (Option<SegmentView>, MuxerState) {
    let ready = prepared(m, frame);
    if closes(ready, frame.pts) {
        (Some(finished(ready)), write_frame(begin(ready, frame.pts), frame))
    } else {
        (None, write_frame(ready, frame))
    }
}

/// Hands out the current segment, if it has frames.
pub open spec fn flushed(m: MuxerState) -> (Option<SegmentView>, MuxerState) {
    if m.frames > 0 {
        (Some(finished(m)), MuxerState { bytes: Seq::empty(), ..m })
    } else {
        (None, m)
    }
}

/// A muxer that writes MPEG transport stream segments in memory.
pub struct TsMuxer {
    segment_duration_pts: u64,
    current_segment: Vec<u8>,
    segment_start_pts: u64,
    segment_frame_count: u32,
    audio_cc: u8,
    meta_cc: u8,
    pat_cc: u8,
    pmt_cc: u8,
    id3_bytes: Vec<u8>,
    started: bool,
    sample_rate: u32,
}

impl View for TsMuxer {
    type V = MuxerState;

    closed spec fn view(&self) -> MuxerState {
        MuxerState {
            target: self.segment_duration_pts,
            bytes: self.current_segment@,
            start: self.segment_start_pts,
            frames: self.segment_frame_count as nat,
            audio_cc: self.audio_cc,
            meta_cc: self.meta_cc,
            pat_cc: self.pat_cc,
            pmt_cc: self.pmt_cc,
            id3: self.id3_bytes@,
            started: self.started,
            sample_rate: self.sample_rate,
        }
    }
}

/// A muxer before its first frame.
pub open spec fn fresh(target: u64) -> MuxerState {
    MuxerState {
        target,
        bytes: Seq::empty(),
        start: 0,
        frames: 0,
        audio_cc: 0,
        meta_cc: 0,
        pat_cc: 0,
        pmt_cc: 0,
        id3: Seq::empty(),
        started: false,
        sample_rate: 0,
    }
}

impl TsMuxer {
    /// A muxer whose segments last `segment_duration_pts` ticks of the 90 kHz
    /// clock.
    pub fn new(segment_duration_pts: u64) -> (r: Self)
        ensures
            r@ == fresh(segment_duration_pts),
    {
        Self {
            segment_duration_pts,
            current_segment: Vec::with_capacity(524_288),
            segment_start_pts: 0,
            segment_frame_count: 0,
            audio_cc: 0,
            meta_cc: 0,
            pat_cc: 0,
            pmt_cc: 0,
            id3_bytes: Vec::new(),
            started: false,
            sample_rate: 0,
        }
    }

    /// Sets the ID3 tag that the next segments open with.
    pub fn set_id3(&mut self, id3: Vec<u8>)
        ensures
            final(self)@ == (MuxerState { id3: id3@, ..old(self)@ }),
    {
        self.id3_bytes = id3;
    }

    /// How many frames the current segment has.
    pub fn frame_count(&self) -> (r: u32)
        ensures
            r == self@.frames,
    {
        self.segment_frame_count
    }

    /// Takes in one frame, and returns the segment that it closes.
    ///
    /// Frames of one segment are counted in 32 bits.
    pub fn push_frame(&mut self, frame: AacFrame) -> (r: Option<CompletedSegment>)
        requires
            mux(old(self)@, frame@).1.frames <= u32::MAX,
        ensures
            (segment_view(r), final(self)@) == mux(old(self)@, frame@),
    {
        self.sample_rate = frame.sample_rate;
        if !self.started {
            self.begin_segment(frame.pts);
            self.started = true;
        }
        assert(self@ == prepared(old(self)@, frame@));
        let elapsed: u64 = frame.pts.saturating_sub(self.segment_start_pts);
        if elapsed >= self.segment_duration_pts && self.segment_frame_count > 0 {
            let completed = self.finish_segment();
            self.begin_segment(frame.pts);
            self.write_audio_frame(&frame);
            return Some(completed);
        }
        self.write_audio_frame(&frame);
        None
    }

    /// Hands out what the current segment holds, if it has frames.
    pub fn flush(&mut self) -> (r: Option<CompletedSegment>)
        ensures
            (segment_view(r), final(self)@) == flushed(old(self)@),
    {
        if self.segment_frame_count > 0 {
            Some(self.finish_segment())
        } else {
            None
        }
    }

    fn begin_segment(&mut self, pts: u64)
        ensures
            final(self)@ == begin(old(self)@, pts),
    {
        self.current_segment.clear();
        self.segment_start_pts = pts;
        self.segment_frame_count = 0;
        self.write_pat();
        self.write_pmt();
        if !self.id3_bytes.is_empty() {
            self.write_metadata_pes(pts);
        }
        assert(self.current_segment@ =~= segment_head(old(self)@, pts));
    }

    fn finish_segment(&mut self) -> (r: CompletedSegment)
        ensures
            r@ == finished(old(self)@),
            final(self)@ == (MuxerState { bytes: Seq::empty(), ..old(self)@ }),
    {
        let duration = SegmentDuration {
            frames: self.segment_frame_count,
            sample_rate: self.sample_rate,
        };
        let mut data: Vec<u8> = Vec::new();
        data.append(&mut self.current_segment);
        assert(data@ =~= old(self)@.bytes);
        CompletedSegment { data: bytes_from_vec(data), duration }
    }

    fn write_audio_frame(&mut self, frame: &AacFrame)
        requires
            old(self)@.frames < u32::MAX,
        ensures
            final(self)@ == write_frame(old(self)@, frame@),
    {
        let pes: Vec<u8> = build_audio_pes(bytes_as_slice(&frame.data), frame.pts);
        let pcr: Option<u64> = if self.segment_frame_count == 0 {
            Some(frame.pts)
        } else {
            None
        };
        self.audio_cc = push_pes(
            &mut self.current_segment,
            pes.as_slice(),
            AUDIO_PID,
            self.audio_cc,
            pcr,
        );
        self.segment_frame_count += 1;
    }

    fn write_pat(&mut self)
        ensures
            final(self)@ == (MuxerState {
                bytes: old(self)@.bytes + section_packet(
                    PAT_PID,
                    old(self)@.pat_cc,
                    pat_section(),
                ),
                pat_cc: next_cc(old(self)@.pat_cc),
                ..old(self)@
            }),
    {
        let section: Vec<u8> = build_pat();
        push_section(&mut self.current_segment, PAT_PID, self.pat_cc, section.as_slice());
        self.pat_cc = step_cc(self.pat_cc);
    }

    fn write_pmt(&mut self)
        ensures
            final(self)@ == (MuxerState {
                bytes: old(self)@.bytes + section_packet(
                    PMT_PID,
                    old(self)@.pmt_cc,
                    pmt_section(old(self)@.id3.len() > 0),
                ),
                pmt_cc: next_cc(old(self)@.pmt_cc),
                ..old(self)@
            }),
    {
        let section: Vec<u8> = build_pmt(!self.id3_bytes.is_empty());
        push_section(&mut self.current_segment, PMT_PID, self.pmt_cc, section.as_slice());
        self.pmt_cc = step_cc(self.pmt_cc);
    }

    fn write_metadata_pes(&mut self, pts: u64)
        ensures
            final(self)@ == (MuxerState {
                bytes: old(self)@.bytes + pes_packets(
                    metadata_pes(old(self)@.id3, pts),
                    META_PID,
                    true,
                    old(self)@.meta_cc,
                    None,
                ),
                ..old(self)@
            }),
    {
        let pes: Vec<u8> = build_metadata_pes(self.id3_bytes.as_slice(), pts);
        let _ = push_pes(&mut self.current_segment, pes.as_slice(), META_PID, self.meta_cc, None);
    }
}

} // verus!
