//! The ADTS framing of AAC: a header parser, and a parser that cuts a byte
//! stream, delivered in arbitrary pieces, into frames.
use super::frame::{advance_pts, frame_views, next_pts, AacFrame, FrameView, SAMPLES_PER_FRAME};
use crate::buffers::{bytes_mut_as_slice, bytes_mut_put_slice, bytes_mut_view};
use bytes::{Bytes, BytesMut};
use vstd::prelude::*;

verus! {

/// The fields of an ADTS header that the stream parser needs.
pub struct AdtsHeader {
    pub frame_length: usize,
    pub header_length: usize,
    pub sample_rate: u32,
    pub channel_config: u8,
}

/// The sample rate that a sampling frequency index stands for.
pub open spec fn rate_of_index(index: int) -> Option<u32> {
    if 0 <= index < 13 {
        Some(
            seq![
                96000u32,
                88200,
                64000,
                48000,
                44100,
                32000,
                24000,
                22050,
                16000,
                12000,
                11025,
                8000,
                7350,
            ][index],
        )
    } else {
        None
    }
}

/// Whether two bytes open with the twelve set bits of the ADTS sync word.
pub open spec fn is_sync(b0: u8, b1: u8) -> bool {
    b0 == 0xFF && b1 >= 0xF0
}

/// The length of the header: seven bytes, or nine where a checksum follows.
pub open spec fn header_length_of(buf: Seq<u8>) -> int {
    if buf[1] % 2 == 1 {
        7
    } else {
        9
    }
}

/// The length of the whole frame, header included.
pub open spec fn frame_length_of(buf: Seq<u8>) -> int {
    (buf[3] % 4) * 2048 + buf[4] * 8 + buf[5] / 32
}

/// The header that `buf` opens with, if it opens with a valid one.
pub open spec fn header_of(buf: Seq<u8>) -> Option<AdtsHeader> {
    if buf.len() >= 7 && is_sync(buf[0], buf[1]) && frame_length_of(buf) >= header_length_of(buf) {
        match rate_of_index((buf[2] as int / 4) % 16) {
            Some(sample_rate) => Some(
                AdtsHeader {
                    frame_length: frame_length_of(buf) as usize,
                    header_length: header_length_of(buf) as usize,
                    sample_rate,
                    channel_config: ((buf[2] % 2) * 4 + buf[3] / 64) as u8,
                },
            ),
            None => None,
        }
    } else {
        None
    }
}

fn sampling_rate(index: u8) -> (r: Option<u32>)
    ensures
        r == rate_of_index(index as int),
{
    match index {
        0 => Some(96000),
        1 => Some(88200),
        2 => Some(64000),
        3 => Some(48000),
        4 => Some(44100),
        5 => Some(32000),
        6 => Some(24000),
        7 => Some(22050),
        8 => Some(16000),
        9 => Some(12000),
        10 => Some(11025),
        11 => Some(8000),
        12 => Some(7350),
        _ => None,
    }
}

/// Parses the ADTS header at the start of `buf`.
pub fn parse_header(buf: &[u8]) -> (r: Option<AdtsHeader>)
    ensures
        r == header_of(buf@),
{
    if buf.len() < 7 {
        return None;
    }
    let (b1, b2, b3, b4, b5): (u8, u8, u8, u8, u8) = (buf[1], buf[2], buf[3], buf[4], buf[5]);
    proof {
        assert((b1 & 0xF0 == 0xF0) == (b1 >= 0xF0)) by (bit_vector);
        assert((b1 & 0x01 == 1) == (b1 % 2 == 1)) by (bit_vector);
        assert((b2 >> 2) & 0x0F == (b2 / 4) % 16) by (bit_vector);
        assert(((b2 & 0x01) << 2) | ((b3 >> 6) & 0x03) == (b2 % 2) * 4 + b3 / 64) by (bit_vector);
        assert((((b3 & 0x03) as usize) << 11) | ((b4 as usize) << 3) | ((b5 >> 5) as usize) == (b3
            % 4) * 2048 + b4 * 8 + b5 / 32) by (bit_vector);
    }
    if buf[0] != 0xFF || (b1 & 0xF0) != 0xF0 {
        return None;
    }
    let crc_absent = (b1 & 0x01) == 1;
    let header_length: usize = if crc_absent {
        7
    } else {
        9
    };
    let sample_rate: u32 = match sampling_rate((b2 >> 2) & 0x0F) {
        Some(rate) => rate,
        None => return None,
    };
    let channel_config: u8 = ((b2 & 0x01) << 2) | ((b3 >> 6) & 0x03);
    let frame_length: usize = (((b3 & 0x03) as usize) << 11) | ((b4 as usize) << 3) | ((b5
        >> 5) as usize);
    if frame_length < header_length {
        return None;
    }
    Some(AdtsHeader { frame_length, header_length, sample_rate, channel_config })
}

/// The state of the stream parser: the bytes not yet cut into frames, the
/// timestamp of the next frame, and the sample rate of the first one.
pub struct AdtsState {
    pub pending: Seq<u8>,
    pub pts: u64,
    pub sample_rate: u32,
}

/// The first position at or after `from` where a sync word stands.
pub open spec fn sync_from(buf: Seq<u8>, from: int) -> Option<int>
    decreases buf.len() - from,
{
    if from < 0 || from + 1 >= buf.len() {
        None
    } else if is_sync(buf[from], buf[from + 1]) {
        Some(from)
    } else {
        sync_from(buf, from + 1)
    }
}

/// A sync position lies at or after where the search started, opens with a
/// sync word, and is the first such place.
pub proof fn lemma_sync_from(buf: Seq<u8>, from: int)
    requires
        0 <= from,
    ensures
        match sync_from(buf, from) {
            Some(at) => from <= at && at + 1 < buf.len() && is_sync(buf[at], buf[at + 1])
                && forall|i: int|
                from <= i < at ==> !is_sync(#[trigger] buf[i], buf[i + 1]),
            None => forall|i: int|
                from <= i && i + 1 < buf.len() ==> !is_sync(#[trigger] buf[i], buf[i + 1]),
        },
    decreases buf.len() - from,
{
    if from + 1 < buf.len() && !is_sync(buf[from], buf[from + 1]) {
        lemma_sync_from(buf, from + 1);
    }
}

/// The state with more bytes at its end.
pub open spec fn with_bytes(s: AdtsState, chunk: Seq<u8>) -> AdtsState {
    AdtsState { pending: s.pending + chunk, ..s }
}

/// Cuts every complete frame off the front of the pending bytes.
///
/// Bytes before a sync word are dropped. Cutting stops where no sync word
/// stands, where the header there is invalid or incomplete, and where the
/// frame it announces is not complete.
pub open spec fn cut_frames(s: AdtsState) -> (Seq<FrameView>, AdtsState)
    decreases s.pending.len(),
{
    match sync_from(s.pending, 0) {
        None => (Seq::empty(), s),
        Some(at) => {
            proof {
                lemma_sync_from(s.pending, 0);
            }
            let here = s.pending.skip(at);
            match header_of(here) {
                None => (Seq::empty(), AdtsState { pending: here, ..s }),
                Some(h) => if here.len() < h.frame_length {
                    (Seq::empty(), AdtsState { pending: here, ..s })
                } else {
                    let frame = FrameView {
                        data: here.take(h.frame_length as int),
                        pts: s.pts,
                        sample_rate: h.sample_rate,
                        samples: 1024,
                    };
                    let (frames, end) = cut_frames(
                        AdtsState {
                            pending: here.skip(h.frame_length as int),
                            pts: next_pts(s.pts, h.sample_rate),
                            sample_rate: if s.sample_rate == 0 {
                                h.sample_rate
                            } else {
                                s.sample_rate
                            },
                        },
                    );
                    (seq![frame] + frames, end)
                },
            }
        },
    }
}

/// Cuts a stream of ADTS bytes, delivered in arbitrary chunks, into frames.
pub struct AdtsStreamParser {
    buf: BytesMut,
    pts_counter: u64,
    sample_rate: u32,
}

impl View for AdtsStreamParser {
    type V = AdtsState;

    closed spec fn view(&self) -> AdtsState {
        AdtsState {
            pending: bytes_mut_view(self.buf),
            pts: self.pts_counter,
            sample_rate: self.sample_rate,
        }
    }
}

impl Default for AdtsStreamParser {
    fn default() -> (r: Self)
        ensures
            r@ == (AdtsState { pending: Seq::empty(), pts: 0, sample_rate: 0 }),
    {
        Self::new()
    }
}

impl AdtsStreamParser {
    /// A parser that has seen nothing.
    pub fn new() -> (r: Self)
        ensures
            r@ == (AdtsState { pending: Seq::empty(), pts: 0, sample_rate: 0 }),
    {
        Self { buf: BytesMut::with_capacity(8192), pts_counter: 0, sample_rate: 0 }
    }

    /// How many bytes wait for more.
    pub fn pending_len(&self) -> (r: usize)
        ensures
            r == self@.pending.len(),
    {
        bytes_mut_as_slice(&self.buf).len()
    }

    /// Takes in `chunk` and returns the frames that are now complete.
    pub fn push(&mut self, chunk: &[u8]) -> (frames: Vec<AacFrame>)
        requires
            old(self)@.pending.len() + chunk@.len() <= isize::MAX,
        ensures
            frame_views(frames@) == cut_frames(with_bytes(old(self)@, chunk@)).0,
            final(self)@ == cut_frames(with_bytes(old(self)@, chunk@)).1,
    {
        bytes_mut_put_slice(&mut self.buf, chunk);
        let ghost start = self@;
        assert(start == with_bytes(old(self)@, chunk@));
        let mut frames: Vec<AacFrame> = Vec::new();
        assert(frame_views(frames@) + cut_frames(start).0 == cut_frames(start).0);

        loop
            invariant_except_break
                cut_frames(start).0 == frame_views(frames@) + cut_frames(self@).0,
                cut_frames(start).1 == cut_frames(self@).1,
            ensures
                cut_frames(start).0 == frame_views(frames@),
                cut_frames(start).1 == self@,
            decreases self@.pending.len(),
        {
            let ghost before = self@;
            let ghost done = frames@;
            let sync_pos: usize = match self.find_sync() {
                Some(i) => i,
                None => break,
            };
            if sync_pos > 0 {
                let _ = self.buf.split_to(sync_pos);
            }
            assert(self@.pending == before.pending.skip(sync_pos as int));
            let header: AdtsHeader = match parse_header(bytes_mut_as_slice(&self.buf)) {
                Some(h) => h,
                None => {
                    assert(self@ == cut_frames(before).1);
                    break;
                },
            };
            if bytes_mut_as_slice(&self.buf).len() < header.frame_length {
                assert(self@ == cut_frames(before).1);
                break;
            }
            let frame_data = self.buf.split_to(header.frame_length);
            let data: Bytes = Bytes::copy_from_slice(bytes_mut_as_slice(&frame_data));
            if self.sample_rate == 0 {
                self.sample_rate = header.sample_rate;
            }
            let pts: u64 = self.pts_counter;
            self.pts_counter = advance_pts(pts, header.sample_rate);
            frames.push(
                AacFrame {
                    data,
                    pts,
                    sample_rate: header.sample_rate,
                    samples: SAMPLES_PER_FRAME,
                },
            );
            assert(frame_views(frames@) == frame_views(done).push(frames@.last()@));
            assert(cut_frames(before).0 == seq![frames@.last()@] + cut_frames(self@).0);
        }
        frames
    }

    fn find_sync(&self) -> (r: Option<usize>)
        ensures
            match r {
                Some(i) => sync_from(self@.pending, 0) == Some(i as int) && i + 1
                    < self@.pending.len() && is_sync(
                    self@.pending[i as int],
                    self@.pending[i + 1],
                ),
                None => sync_from(self@.pending, 0) is None,
            },
    {
        let buf: &[u8] = bytes_mut_as_slice(&self.buf);
        let mut i: usize = 0;
        while i < buf.len() && i + 1 < buf.len()
            invariant
                i <= buf@.len(),
                buf@ == self@.pending,
                sync_from(buf@, 0) == sync_from(buf@, i as int),
            decreases buf@.len() - i,
        {
            let b1: u8 = buf[i + 1];
            assert((b1 & 0xF0 == 0xF0) == (b1 >= 0xF0)) by (bit_vector);
            if buf[i] == 0xFF && (b1 & 0xF0) == 0xF0 {
                return Some(i);
            }
            i += 1;
        }
        None
    }
}

/// A sync word found in the bytes at hand is still the first one when more
/// bytes follow.
proof fn lemma_sync_from_append(buf: Seq<u8>, more: Seq<u8>, from: int)
    requires
        0 <= from,
        sync_from(buf, from) is Some,
    ensures
        sync_from(buf + more, from) == sync_from(buf, from),
    decreases buf.len() - from,
{
    if !is_sync(buf[from], buf[from + 1]) {
        lemma_sync_from_append(buf, more, from + 1);
    }
}

/// How a stream is split into chunks does not matter: pushing `first` and then
/// `second` yields the frames, and leaves the state, that pushing both at once
/// does.
pub proof fn lemma_chunking_is_invisible(s: AdtsState, first: Seq<u8>, second: Seq<u8>)
    ensures
        ({
            let (frames1, mid) = cut_frames(with_bytes(s, first));
            let (frames2, end) = cut_frames(with_bytes(mid, second));
            cut_frames(with_bytes(s, first + second)) == (frames1 + frames2, end)
        }),
{
    assert(with_bytes(s, first + second) == with_bytes(with_bytes(s, first), second)) by {
        assert(s.pending + (first + second) == (s.pending + first) + second);
    }
    lemma_cut_then_append(with_bytes(s, first), second);
}

proof fn lemma_cut_then_append(s: AdtsState, more: Seq<u8>)
    ensures
        ({
            let (frames1, mid) = cut_frames(s);
            let (frames2, end) = cut_frames(with_bytes(mid, more));
            cut_frames(with_bytes(s, more)) == (frames1 + frames2, end)
        }),
    decreases s.pending.len(),
{
    let (frames1, mid) = cut_frames(s);
    let (frames2, end) = cut_frames(with_bytes(mid, more));
    match sync_from(s.pending, 0) {
        None => {
            assert(frames1 + frames2 == frames2);
        },
        Some(at) => {
            lemma_sync_from(s.pending, 0);
            lemma_sync_from_append(s.pending, more, 0);
            let here = s.pending.skip(at);
            assert((s.pending + more).skip(at) == here + more);
            let trimmed = AdtsState { pending: here, ..s };
            assert(sync_from(here + more, 0) == Some(0int));
            assert((here + more).skip(0) == here + more);
            match header_of(here) {
                Some(h) if here.len() >= h.frame_length => {
                    let n = h.frame_length as int;
                    assert(header_of(here + more) == Some(h));
                    assert((here + more).take(n) == here.take(n));
                    assert((here + more).skip(n) == here.skip(n) + more);
                    let next = AdtsState {
                        pending: here.skip(n),
                        pts: next_pts(s.pts, h.sample_rate),
                        sample_rate: if s.sample_rate == 0 {
                            h.sample_rate
                        } else {
                            s.sample_rate
                        },
                    };
                    lemma_cut_then_append(next, more);
                    let (rest1, rest_mid) = cut_frames(next);
                    let (rest2, rest_end) = cut_frames(with_bytes(rest_mid, more));
                    assert(frames1 + frames2 == seq![frames1[0]] + (rest1 + rest2));
                },
                _ => {
                    assert(mid == trimmed);
                    assert(frames1 + frames2 == frames2);
                },
            }
        },
    }
}

/// A complete frame at the front of the pending bytes comes out whole, with
/// the current timestamp, and the rest of the stream is read as if it had
/// come alone.
pub proof fn lemma_complete_frame_comes_out(s: AdtsState, frame: Seq<u8>, rest: Seq<u8>)
    requires
        header_of(frame) is Some,
        header_of(frame)->0.frame_length == frame.len(),
        s.pending == frame + rest,
    ensures
        ({
            let rate = header_of(frame)->0.sample_rate;
            let (frames, end) = cut_frames(s);
            let (later, later_end) = cut_frames(
                AdtsState {
                    pending: rest,
                    pts: next_pts(s.pts, rate),
                    sample_rate: if s.sample_rate == 0 {
                        rate
                    } else {
                        s.sample_rate
                    },
                },
            );
            &&& frames == seq![
                FrameView { data: frame, pts: s.pts, sample_rate: rate, samples: 1024 },
            ] + later
            &&& end == later_end
        }),
{
    assert(s.pending.skip(0) == s.pending);
    assert(header_of(s.pending) == header_of(frame));
    assert(s.pending.take(frame.len() as int) == frame);
    assert(s.pending.skip(frame.len() as int) == rest);
}

} // verus!
