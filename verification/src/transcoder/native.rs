//! The transcoder that works in memory: a broadcast transport stream goes in
//! by chunks, timed AAC frames come out.
use super::aac::{
    encode_samples, encoder_settings, open_encoder, outputs_written, samples_given, AacChannels,
    AacObjectType, AacSettings, AacTransport, EncoderRefusal,
};
use super::demux::{demux_chunk, vec_views, DemuxState, PesState, TsDemuxer};
use super::frame::{
    advance_pts, frame_ticks, frame_views, next_pts, AacFrame, FrameView, TranscoderConfig,
    SAMPLES_PER_FRAME,
};
use super::mp2::{mp2_decoded, Mp2Decoder};
use super::pcm::{
    buffered, extract_interleaved_i16, float_planes, frames_in, interleaved, is_rectangular,
    lemma_interleaved_len, lemma_no_sample_is_lost, planes_of, rest_of, DecodedAudio, PcmBuffer,
};
use bytes::Bytes;
use fdk_aac::enc::Encoder;
use vstd::prelude::*;
use vstd::seq_lib::lemma_flatten_concat;
use vstd::slice::slice_subrange;

verus! {

/// The settings of the encoder: stereo AAC-LC with ADTS headers.
pub open spec fn settings_for(bit_rate: u32, sample_rate: u32) -> AacSettings {
    AacSettings {
        bit_rate,
        sample_rate,
        transport: AacTransport::Adts,
        channels: AacChannels::Stereo,
        object_type: AacObjectType::Mpeg4LowComplexity,
    }
}

/// The settings of the encoder: stereo AAC-LC with ADTS headers.
pub fn native_settings(bit_rate: u32, sample_rate: u32) -> (r: AacSettings)
    ensures
        r == settings_for(bit_rate, sample_rate),
{
    AacSettings {
        bit_rate,
        sample_rate,
        transport: AacTransport::Adts,
        channels: AacChannels::Stereo,
        object_type: AacObjectType::Mpeg4LowComplexity,
    }
}

/// Why transcoding stops.
pub enum TranscodeError {
    /// There is no encoder for the sample rate of the stream.
    Encoder(EncoderRefusal),
}

/// The settings that were refused.
pub open spec fn refused_settings(e: TranscodeError) -> AacSettings {
    match e {
        TranscodeError::Encoder(refusal) => refusal.asked(),
    }
}

/// The frame for some encoder output at a time; none for no output.
pub open spec fn stamped(output: Seq<u8>, pts: u64, sample_rate: u32) -> Option<FrameView> {
    if output.len() > 0 {
        Some(FrameView { data: output, pts, sample_rate, samples: 1024 })
    } else {
        None
    }
}

/// The frames for a run of encoder outputs, and the clock after them. Only
/// output moves the clock.
pub open spec fn stamped_all(outputs: Seq<Seq<u8>>, pts: u64, sample_rate: u32) -> (
    Seq<FrameView>,
    u64,
)
    decreases outputs.len(),
{
    if outputs.len() == 0 {
        (Seq::empty(), pts)
    } else {
        let (frames, clock) = stamped_all(outputs.drop_last(), pts, sample_rate);
        match stamped(outputs.last(), clock, sample_rate) {
            Some(frame) => (frames.push(frame), next_pts(clock, sample_rate)),
            None => (frames, clock),
        }
    }
}

/// The frame for some encoder output, and the clock after it.
pub fn stamp(output: &[u8], pts: u64, sample_rate: u32) -> (r: (Option<AacFrame>, u64))
    requires
        sample_rate > 0,
    ensures
        match r.0 {
            Some(frame) => {
                &&& stamped(output@, pts, sample_rate) == Some(frame@)
                &&& r.1 == next_pts(pts, sample_rate)
            },
            None => stamped(output@, pts, sample_rate) is None && r.1 == pts,
        },
{
    if output.len() > 0 {
        let data: Bytes = Bytes::copy_from_slice(output);
        let frame = AacFrame { data, pts, sample_rate, samples: SAMPLES_PER_FRAME };
        (Some(frame), advance_pts(pts, sample_rate))
    } else {
        (None, pts)
    }
}

/// The frames that come out are evenly spaced on the clock, hold output that is
/// not empty, and carry the sample rate and 1024 samples.
pub proof fn lemma_frames_are_evenly_spaced(
    outputs: Seq<Seq<u8>>,
    pts: u64,
    sample_rate: u32,
    i: int,
)
    requires
        0 <= i < stamped_all(outputs, pts, sample_rate).0.len(),
    ensures
        ({
            let (frames, clock) = stamped_all(outputs, pts, sample_rate);
            let ticks = frame_ticks(sample_rate);
            &&& frames[i].pts == (pts + i * ticks) % 0x1_0000_0000_0000_0000
            &&& frames[i].data.len() > 0
            &&& frames[i].sample_rate == sample_rate
            &&& frames[i].samples == 1024
        }),
    decreases outputs.len(),
{
    let ticks = frame_ticks(sample_rate);
    let before = stamped_all(outputs.drop_last(), pts, sample_rate).0;
    if i < before.len() {
        lemma_frames_are_evenly_spaced(outputs.drop_last(), pts, sample_rate, i);
    } else {
        lemma_clock_counts_frames(outputs.drop_last(), pts, sample_rate);
    }
}

/// The clock moves by the same number of ticks for each frame.
pub proof fn lemma_clock_counts_frames(outputs: Seq<Seq<u8>>, pts: u64, sample_rate: u32)
    ensures
        ({
            let (frames, clock) = stamped_all(outputs, pts, sample_rate);
            clock == (pts + frames.len() * frame_ticks(sample_rate)) % 0x1_0000_0000_0000_0000
        }),
    decreases outputs.len(),
{
    let ticks = frame_ticks(sample_rate) as int;
    if outputs.len() > 0 {
        let (before, clock) = stamped_all(outputs.drop_last(), pts, sample_rate);
        lemma_clock_counts_frames(outputs.drop_last(), pts, sample_rate);
        let n = before.len() as int;
        assert((n + 1) * ticks == n * ticks + ticks) by (nonlinear_arith);
        vstd::arithmetic::div_mod::lemma_add_mod_noop(
            pts + n * ticks,
            ticks,
            0x1_0000_0000_0000_0000,
        );
        vstd::arithmetic::div_mod::lemma_add_mod_noop(
            clock as int,
            ticks,
            0x1_0000_0000_0000_0000,
        );
    } else {
        assert(0 * ticks == 0) by (nonlinear_arith);
    }
}

/// What has passed through an encoder: what it was made for, what it was given
/// and what it wrote for each.
pub struct EncoderLog {
    pub settings: AacSettings,
    pub given: Seq<Seq<i16>>,
    pub written: Seq<Seq<u8>>,
}

/// The state of the transcoder: the bit rate asked for, the demultiplexer, the
/// packets given to the decoder, the encoder once there is one, the sample
/// rate, the clock, and the samples that wait.
pub struct NativeState {
    pub bit_rate: u32,
    pub demux: DemuxState,
    pub packets: Seq<Seq<u8>>,
    pub encoder: Option<EncoderLog>,
    pub sample_rate: u32,
    pub pts: u64,
    pub pcm: Seq<i16>,
}

/// What every state keeps: an encoder works at the sample rate in use, and
/// fewer samples wait than an encoder frame has.
pub open spec fn is_sound(s: NativeState) -> bool {
    &&& s.encoder matches Some(log) ==> {
        &&& log.settings == settings_for(s.bit_rate, s.sample_rate)
        &&& s.sample_rate > 0
    }
    &&& s.pcm.len() < 2048
}

/// The sample rate in use once a frame at `rate` was decoded: that of the
/// first one.
pub open spec fn rate_in_use(s: NativeState, rate: u32) -> u32 {
    if s.encoder is None {
        rate
    } else {
        s.sample_rate
    }
}

/// What the encoder was given before.
pub open spec fn given_before(s: NativeState) -> Seq<Seq<i16>> {
    match s.encoder {
        Some(log) => log.given,
        None => Seq::empty(),
    }
}

/// What the encoder wrote before.
pub open spec fn written_before(s: NativeState) -> Seq<Seq<u8>> {
    match s.encoder {
        Some(log) => log.written,
        None => Seq::empty(),
    }
}

/// What may come of the samples of one decoded frame, where there is an
/// encoder. The samples join those that wait, all whole encoder frames among
/// them go to the encoder in order, and the rest waits on. What the encoder
/// wrote for them comes out as frames. Only that is left open here: what the
/// encoder writes.
pub open spec fn encodes(
    before: NativeState,
    rate: u32,
    pcm: Seq<i16>,
    frames: Seq<FrameView>,
    after: NativeState,
) -> bool {
    let sample_rate = rate_in_use(before, rate);
    let waiting = buffered(before.pcm, pcm);
    let given = frames_in(waiting);
    let outputs = written_before(after).skip(written_before(before).len() as int);
    &&& outputs.len() == given.len()
    &&& (frames, after.pts) == stamped_all(outputs, before.pts, sample_rate)
    &&& after == NativeState {
        encoder: Some(
            EncoderLog {
                settings: settings_for(before.bit_rate, sample_rate),
                given: given_before(before) + given,
                written: written_before(before) + outputs,
            },
        ),
        sample_rate,
        pts: after.pts,
        pcm: rest_of(waiting),
        ..before
    }
}

/// What may come of one PES payload. What the decoder refuses is passed over.
pub open spec fn transcodes(
    before: NativeState,
    data: Seq<u8>,
    frames: Seq<FrameView>,
    after: NativeState,
) -> bool {
    let packets = before.packets.push(data);
    let seen = NativeState { packets, ..before };
    match mp2_decoded(packets) {
        Some((rate, planes)) => encodes(
            seen,
            rate,
            interleaved(float_planes(planes)),
            frames,
            after,
        ),
        None => frames.len() == 0 && after == seen,
    }
}

/// What may come of a run of PES payloads.
pub open spec fn transcodes_all(
    before: NativeState,
    list: Seq<Seq<u8>>,
    frames: Seq<FrameView>,
    after: NativeState,
) -> bool
    decreases list.len(),
{
    if list.len() == 0 {
        frames.len() == 0 && after == before
    } else {
        exists|mid: NativeState, last: Seq<FrameView>|
            {
                &&& #[trigger] transcodes(mid, list.last(), last, after)
                &&& last.len() <= frames.len()
                &&& last == frames.skip(frames.len() - last.len())
                &&& transcodes_all(
                    before,
                    list.drop_last(),
                    frames.take(frames.len() - last.len()),
                    mid,
                )
            }
    }
}

/// Whether a PES payload stops the transcoder: it is the first that the decoder
/// takes, and there is no encoder with the settings that it calls for.
pub open spec fn is_refused(
    before: NativeState,
    data: Seq<u8>,
    asked: AacSettings,
    after: NativeState,
) -> bool {
    let packets = before.packets.push(data);
    &&& before.encoder is None
    &&& mp2_decoded(packets) matches Some((rate, _)) && asked == settings_for(
        before.bit_rate,
        rate,
    )
    &&& after == NativeState { packets, ..before }
}

/// Whether payload `k` of a run stops the transcoder, after those before it
/// were transcoded.
pub open spec fn stops_at(
    before: NativeState,
    list: Seq<Seq<u8>>,
    k: int,
    frames: Seq<FrameView>,
    mid: NativeState,
    asked: AacSettings,
    after: NativeState,
) -> bool {
    &&& 0 <= k < list.len()
    &&& transcodes_all(before, list.take(k), frames, mid)
    &&& is_refused(mid, list[k], asked, after)
}

/// Whether one of a run of PES payloads stops the transcoder.
pub open spec fn stops(
    before: NativeState,
    list: Seq<Seq<u8>>,
    asked: AacSettings,
    after: NativeState,
) -> bool {
    exists|k: int, frames: Seq<FrameView>, mid: NativeState| #[trigger]
        stops_at(before, list, k, frames, mid, asked, after)
}

proof fn lemma_transcodes_one_more(
    before: NativeState,
    list: Seq<Seq<u8>>,
    first: Seq<FrameView>,
    mid: NativeState,
    data: Seq<u8>,
    last: Seq<FrameView>,
    after: NativeState,
)
    requires
        transcodes_all(before, list, first, mid),
        transcodes(mid, data, last, after),
    ensures
        transcodes_all(before, list.push(data), first + last, after),
{
    let more = list.push(data);
    let frames = first + last;
    assert(more.drop_last() =~= list);
    assert(frames.take(frames.len() - last.len()) =~= first);
    assert(frames.skip(frames.len() - last.len()) =~= last);
    assert(transcodes(mid, more.last(), last, after));
}

proof fn lemma_stamped_concat(
    first: Seq<Seq<u8>>,
    last: Seq<Seq<u8>>,
    pts: u64,
    sample_rate: u32,
)
    ensures
        ({
            let (frames, clock) = stamped_all(first, pts, sample_rate);
            let (more, end) = stamped_all(last, clock, sample_rate);
            stamped_all(first + last, pts, sample_rate) == (frames + more, end)
        }),
    decreases last.len(),
{
    let (frames, clock) = stamped_all(first, pts, sample_rate);
    let (more, end) = stamped_all(last, clock, sample_rate);
    if last.len() == 0 {
        assert(first + last =~= first);
        assert(frames + more =~= frames);
    } else {
        assert((first + last).drop_last() =~= first + last.drop_last());
        lemma_stamped_concat(first, last.drop_last(), pts, sample_rate);
        assert(stamped_all(first + last, pts, sample_rate).0 =~= frames + more);
    }
}

/// What comes out of a run of PES payloads is what the encoder wrote for them,
/// all of it and in order, timed from the clock before on.
pub proof fn lemma_every_output_becomes_a_frame(
    before: NativeState,
    list: Seq<Seq<u8>>,
    frames: Seq<FrameView>,
    after: NativeState,
)
    requires
        transcodes_all(before, list, frames, after),
    ensures
        ({
            let outputs = written_before(after).skip(written_before(before).len() as int);
            &&& written_before(after) == written_before(before) + outputs
            &&& (frames, after.pts) == stamped_all(outputs, before.pts, after.sample_rate)
        }),
        before.encoder is Some ==> after.encoder is Some && after.sample_rate
            == before.sample_rate,
        after.encoder is None ==> before.encoder is None,
    decreases list.len(),
{
    let start = written_before(before);
    let outputs = written_before(after).skip(start.len() as int);
    if list.len() == 0 {
        assert(outputs =~= Seq::empty());
        assert(frames =~= Seq::empty());
        assert(start + outputs =~= start);
    } else {
        let (mid, last) = choose|mid: NativeState, last: Seq<FrameView>|
            {
                &&& #[trigger] transcodes(mid, list.last(), last, after)
                &&& last.len() <= frames.len()
                &&& last == frames.skip(frames.len() - last.len())
                &&& transcodes_all(
                    before,
                    list.drop_last(),
                    frames.take(frames.len() - last.len()),
                    mid,
                )
            };
        let first = frames.take(frames.len() - last.len());
        lemma_every_output_becomes_a_frame(before, list.drop_last(), first, mid);
        let earlier = written_before(mid).skip(start.len() as int);
        let later = written_before(after).skip(written_before(mid).len() as int);
        assert(first + last =~= frames);
        match mp2_decoded(mid.packets.push(list.last())) {
            Some(_) => {
                assert(written_before(after) =~= start + (earlier + later));
                assert(outputs =~= earlier + later);
                lemma_stamped_concat(earlier, later, before.pts, after.sample_rate);
            },
            None => {
                assert(frames =~= first);
            },
        }
    }
}

/// The first decoded frame decides the sample rate, and with it the encoder;
/// later frames change neither.
pub proof fn lemma_first_frame_decides_rate(
    before: NativeState,
    rate: u32,
    pcm: Seq<i16>,
    frames: Seq<FrameView>,
    after: NativeState,
)
    requires
        encodes(before, rate, pcm, frames, after),
        is_sound(before),
    ensures
        before.encoder is None ==> after.sample_rate == rate,
        before.encoder is Some ==> after.sample_rate == before.sample_rate,
        after.encoder is Some,
        after.encoder->Some_0.settings == settings_for(before.bit_rate, after.sample_rate),
        before.encoder is Some ==> after.encoder->Some_0.settings
            == before.encoder->Some_0.settings,
{
}

/// As long as the waiting samples do not overflow, none is lost: what the
/// encoder was given and what waits is what it was given and what waited
/// before, and then the new samples.
pub proof fn lemma_encoder_gets_every_sample(
    before: NativeState,
    rate: u32,
    pcm: Seq<i16>,
    frames: Seq<FrameView>,
    after: NativeState,
)
    requires
        encodes(before, rate, pcm, frames, after),
        before.pcm.len() + pcm.len() <= 96_000,
    ensures
        given_before(after).flatten() + after.pcm == given_before(before).flatten() + before.pcm
            + pcm,
        after.pcm.len() < 2048,
{
    let waiting = before.pcm + pcm;
    let given = given_before(before);
    lemma_no_sample_is_lost(waiting);
    lemma_flatten_concat(given, frames_in(waiting));
    assert(given.flatten() + frames_in(waiting).flatten() + rest_of(waiting) =~= given.flatten() + (
    frames_in(waiting).flatten() + rest_of(waiting)));
    assert(given.flatten() + waiting =~= given.flatten() + before.pcm + pcm);
}

/// Frames of the decoder, of 1152 samples for each of at most two channels,
/// never overflow what waits, so that every one of their samples gets to the
/// encoder.
pub proof fn lemma_decoder_frame_is_not_lost(
    before: NativeState,
    data: Seq<u8>,
    rate: u32,
    planes: Seq<Seq<u32>>,
    frames: Seq<FrameView>,
    after: NativeState,
)
    requires
        is_sound(before),
        transcodes(before, data, frames, after),
        mp2_decoded(before.packets.push(data)) == Some((rate, planes)),
        planes.len() <= 2,
        forall|i: int| 0 <= i < planes.len() ==> (#[trigger] planes[i]).len() == 1152,
    ensures
        given_before(after).flatten() + after.pcm == given_before(before).flatten() + before.pcm
            + interleaved(float_planes(planes)),
{
    let signed = float_planes(planes);
    let seen = NativeState { packets: before.packets.push(data), ..before };
    if planes.len() > 0 {
        assert(signed[0].len() == planes[0].len());
        lemma_interleaved_len(signed, 1152);
    }
    lemma_encoder_gets_every_sample(seen, rate, interleaved(signed), frames, after);
}

/// A transcoder from broadcast MPEG audio to AAC.
pub struct NativeTranscoder {
    bit_rate: u32,
    demux: TsDemuxer,
    decoder: Mp2Decoder,
    encoder: Option<Encoder>,
    sample_rate: u32,
    pts: u64,
    pcm: PcmBuffer,
    encode_buf: Vec<u8>,
}

impl View for NativeTranscoder {
    type V = NativeState;

    closed spec fn view(&self) -> NativeState {
        NativeState {
            bit_rate: self.bit_rate,
            demux: self.demux@,
            packets: self.decoder@,
            encoder: match self.encoder {
                Some(e) => Some(
                    EncoderLog {
                        settings: encoder_settings(e),
                        given: samples_given(e),
                        written: outputs_written(e),
                    },
                ),
                None => None,
            },
            sample_rate: self.sample_rate,
            pts: self.pts,
            pcm: self.pcm@,
        }
    }
}

impl NativeTranscoder {
    /// What every transcoder keeps: its state is sound, and the encoder has
    /// room for its output.
    pub closed spec fn is_ready(&self) -> bool {
        is_sound(self@) && self.encode_buf@.len() == 16384
    }

    /// A transcoder that has seen nothing. It starts with the sample rate of
    /// the configuration, until the stream shows its own.
    pub fn new(config: &TranscoderConfig) -> (r: Self)
        ensures
            r@ == (NativeState {
                bit_rate: config.bitrate,
                demux: DemuxState {
                    pending: Seq::empty(),
                    pmt_pid: None,
                    audio_pid: None,
                    pes: PesState { buf: Seq::empty(), collecting: false, expected_len: 0 },
                },
                packets: Seq::empty(),
                encoder: None,
                sample_rate: config.sample_rate,
                pts: 0,
                pcm: Seq::empty(),
            }),
            r.is_ready(),
            is_sound(r@),
    {
        let encode_buf: Vec<u8> = vec![0u8; 16384];
        Self {
            bit_rate: config.bitrate,
            demux: TsDemuxer::new(),
            decoder: Mp2Decoder::new(),
            encoder: None,
            sample_rate: config.sample_rate,
            pts: 0,
            pcm: PcmBuffer::new(),
            encode_buf,
        }
    }

    /// Takes in the samples of one decoded frame, and returns the AAC frames
    /// that they complete. The first frame decides the sample rate; where
    /// there is no encoder for it, nothing changes.
    pub fn push_audio(&mut self, audio: &DecodedAudio) -> (r: Result<Vec<AacFrame>, TranscodeError>)
        requires
            old(self).is_ready(),
            is_rectangular(planes_of(audio.planes)),
            audio.sample_rate > 0,
        ensures
            final(self).is_ready(),
            is_sound(final(self)@),
            match r {
                Ok(frames) => encodes(
                    old(self)@,
                    audio.sample_rate,
                    interleaved(planes_of(audio.planes)),
                    frame_views(frames@),
                    final(self)@,
                ),
                Err(e) => {
                    &&& old(self)@.encoder is None
                    &&& refused_settings(e) == settings_for(
                        old(self)@.bit_rate,
                        audio.sample_rate,
                    )
                    &&& final(self)@ == old(self)@
                },
            },
    {
        let ghost before = self@;
        if self.encoder.is_none() {
            match open_encoder(native_settings(self.bit_rate, audio.sample_rate)) {
                Ok(e) => {
                    self.encoder = Some(e);
                    self.sample_rate = audio.sample_rate;
                },
                Err(e) => {
                    return Err(TranscodeError::Encoder(e));
                },
            }
        }
        let pcm: Vec<i16> = extract_interleaved_i16(&audio.planes);
        self.pcm.push(pcm.as_slice());
        let mut frames: Vec<AacFrame> = Vec::new();
        match self.encoder.take() {
            Some(e) => {
                let mut encoder: Encoder = e;
                self.encode_waiting(&mut encoder, &mut frames);
                self.encoder = Some(encoder);
                proof {
                    let sample_rate = rate_in_use(before, audio.sample_rate);
                    let waiting = buffered(before.pcm, interleaved(planes_of(audio.planes)));
                    lemma_no_sample_is_lost(waiting);
                    let outputs = written_before(self@).skip(
                        written_before(before).len() as int,
                    );
                    assert(self@.encoder == Some(
                        EncoderLog {
                            settings: settings_for(before.bit_rate, sample_rate),
                            given: given_before(before) + frames_in(waiting),
                            written: written_before(before) + outputs,
                        },
                    ));
                }
            },
            None => {},
        }
        Ok(frames)
    }

    /// Gives all whole encoder frames that wait to the encoder.
    fn encode_waiting(&mut self, encoder: &mut Encoder, frames: &mut Vec<AacFrame>)
        requires
            old(self).encode_buf@.len() == 16384,
            old(self)@.sample_rate > 0,
            old(frames)@.len() == 0,
        ensures
            final(self).encode_buf@.len() == 16384,
            encoder_settings(*final(encoder)) == encoder_settings(*old(encoder)),
            samples_given(*final(encoder)) == samples_given(*old(encoder)) + frames_in(
                old(self)@.pcm,
            ),
            final(self)@ == (NativeState {
                pcm: rest_of(old(self)@.pcm),
                pts: final(self)@.pts,
                ..old(self)@
            }),
            ({
                let before = outputs_written(*old(encoder));
                let outputs = outputs_written(*final(encoder)).skip(before.len() as int);
                &&& outputs_written(*final(encoder)) == before + outputs
                &&& outputs.len() == frames_in(old(self)@.pcm).len()
                &&& (frame_views(final(frames)@), final(self)@.pts) == stamped_all(
                    outputs,
                    old(self)@.pts,
                    old(self)@.sample_rate,
                )
            }),
    {
        let ghost waiting = self.pcm@;
        let ghost mut done: Seq<Seq<i16>> = Seq::empty();
        let ghost mut outputs: Seq<Seq<u8>> = Seq::empty();
        assert(done + frames_in(waiting) =~= frames_in(waiting));
        assert(samples_given(*encoder) + done =~= samples_given(*encoder));
        assert(outputs_written(*encoder) + outputs =~= outputs_written(*encoder));
        assert(frame_views(frames@) =~= Seq::empty());
        loop
            invariant_except_break
                done + frames_in(self.pcm@) == frames_in(waiting),
                rest_of(self.pcm@) == rest_of(waiting),
            invariant
                waiting == old(self)@.pcm,
                self.encode_buf@.len() == 16384,
                old(self)@.sample_rate > 0,
                encoder_settings(*encoder) == encoder_settings(*old(encoder)),
                samples_given(*encoder) == samples_given(*old(encoder)) + done,
                outputs_written(*encoder) == outputs_written(*old(encoder)) + outputs,
                outputs.len() == done.len(),
                (frame_views(frames@), self@.pts) == stamped_all(
                    outputs,
                    old(self)@.pts,
                    old(self)@.sample_rate,
                ),
                self@ == (NativeState { pcm: self@.pcm, pts: self@.pts, ..old(self)@ }),
            ensures
                done == frames_in(waiting),
                self@.pcm == rest_of(waiting),
            decreases self.pcm@.len(),
        {
            let ghost queue = self.pcm@;
            match self.pcm.take_frame() {
                None => {
                    assert(done + frames_in(queue) =~= done);
                    break;
                },
                Some(chunk) => {
                    let written: usize = match encode_samples(
                        encoder,
                        chunk.as_slice(),
                        &mut self.encode_buf,
                    ) {
                        Ok(n) => n,
                        Err(_) => 0,
                    };
                    let output: &[u8] = slice_subrange(self.encode_buf.as_slice(), 0, written);
                    let (frame, clock) = stamp(output, self.pts, self.sample_rate);
                    proof {
                        let given = samples_given(*old(encoder));
                        assert(done + frames_in(queue) =~= done.push(chunk@) + frames_in(
                            queue.skip(2048),
                        ));
                        let earlier = outputs_written(*old(encoder));
                        assert((given + done).push(chunk@) =~= given + done.push(chunk@));
                        assert((earlier + outputs).push(output@) =~= earlier + outputs.push(
                            output@,
                        ));
                        assert(output@ =~= self.encode_buf@.take(written as int));
                        assert(self.encode_buf@.take(0) =~= Seq::empty());
                        assert(outputs_written(*encoder) == (earlier + outputs).push(output@));
                        assert(outputs.push(output@).drop_last() =~= outputs);
                        done = done.push(chunk@);
                        outputs = outputs.push(output@);
                    }
                    let ghost earlier = frames@;
                    self.pts = clock;
                    match frame {
                        Some(f) => {
                            frames.push(f);
                            assert(frame_views(frames@) =~= frame_views(earlier).push(f@));
                        },
                        None => {},
                    }
                },
            }
        }
        assert(outputs_written(*encoder).skip(outputs_written(*old(encoder)).len() as int)
            =~= outputs);
    }

    /// Takes in one PES payload, and returns the AAC frames that it completes.
    pub fn push_pes(&mut self, data: Vec<u8>) -> (r: Result<Vec<AacFrame>, TranscodeError>)
        requires
            old(self).is_ready(),
        ensures
            final(self).is_ready(),
            is_sound(final(self)@),
            match r {
                Ok(frames) => transcodes(
                    old(self)@,
                    data@,
                    frame_views(frames@),
                    final(self)@,
                ),
                Err(e) => is_refused(old(self)@, data@, refused_settings(e), final(self)@),
            },
    {
        match self.decoder.decode(data) {
            Some(audio) => {
                proof {
                    let planes = planes_of(audio.planes);
                    assert forall|i: int| 0 <= i < planes.len() implies (
                    #[trigger] planes[i]).len() == planes[0].len() by {
                        assert(planes[i].len() == 1152);
                        assert(planes[0].len() == 1152);
                    }
                }
                self.push_audio(&audio)
            },
            None => {
                let frames: Vec<AacFrame> = Vec::new();
                assert(frame_views(frames@).len() == 0);
                Ok(frames)
            },
        }
    }

    /// Takes in a chunk of the transport stream, and returns the AAC frames
    /// that it completes.
    pub fn push_chunk(&mut self, chunk: &[u8]) -> (r: Result<Vec<AacFrame>, TranscodeError>)
        requires
            old(self).is_ready(),
        ensures
            final(self).is_ready(),
            is_sound(final(self)@),
            final(self)@.demux == demux_chunk(old(self)@.demux, chunk@).1,
            match r {
                Ok(frames) => transcodes_all(
                    NativeState { demux: demux_chunk(old(self)@.demux, chunk@).1, ..old(self)@ },
                    demux_chunk(old(self)@.demux, chunk@).0,
                    frame_views(frames@),
                    final(self)@,
                ),
                Err(e) => stops(
                    NativeState { demux: demux_chunk(old(self)@.demux, chunk@).1, ..old(self)@ },
                    demux_chunk(old(self)@.demux, chunk@).0,
                    refused_settings(e),
                    final(self)@,
                ),
            },
            old(self)@.encoder is Some ==> r is Ok,
    {
        let mut list: Vec<Vec<u8>> = self.demux.push_chunk(chunk);
        let ghost all = vec_views(list@);
        let ghost start = self@;
        let mut frames: Vec<AacFrame> = Vec::new();
        let n: usize = list.len();
        let mut i: usize = 0;
        assert(frame_views(frames@).len() == 0);
        while i < n
            invariant
                i <= n,
                n == list@.len(),
                n == all.len(),
                self.is_ready(),
                self@.demux == start.demux,
                start.demux == demux_chunk(old(self)@.demux, chunk@).1,
                start == (NativeState { demux: start.demux, ..old(self)@ }),
                all == demux_chunk(old(self)@.demux, chunk@).0,
                old(self)@.encoder is Some ==> self@.encoder is Some,
                forall|k: int| i <= k < n ==> (#[trigger] list@[k])@ == all[k],
                transcodes_all(start, all.take(i as int), frame_views(frames@), self@),
            decreases n - i,
        {
            let mut data: Vec<u8> = Vec::new();
            std::mem::swap(&mut data, &mut list[i]);
            let ghost mid = self@;
            let ghost first = frame_views(frames@);
            match self.push_pes(data) {
                Ok(more) => {
                    let mut last: Vec<AacFrame> = more;
                    let ghost last_views = frame_views(last@);
                    frames.append(&mut last);
                    i += 1;
                    proof {
                        assert(frame_views(frames@) =~= first + last_views);
                        assert(all.take(i - 1).push(all[i - 1]) =~= all.take(i as int));
                        lemma_transcodes_one_more(
                            start,
                            all.take(i - 1),
                            first,
                            mid,
                            all[i - 1],
                            last_views,
                            self@,
                        );
                    }
                },
                Err(e) => {
                    assert(stops_at(
                        start,
                        all,
                        i as int,
                        first,
                        mid,
                        refused_settings(e),
                        self@,
                    ));
                    return Err(e);
                },
            }
        }
        assert(all.take(n as int) =~= all);
        Ok(frames)
    }
}

/// The frames that come out hold the outputs that are not empty, all of them
/// and in order.
pub proof fn lemma_outputs_become_frames(outputs: Seq<Seq<u8>>, pts: u64, sample_rate: u32)
    ensures
        stamped_all(outputs, pts, sample_rate).0.map_values(|f: FrameView| f.data)
            == outputs.filter(|o: Seq<u8>| o.len() > 0),
    decreases outputs.len(),
{
    reveal(Seq::filter);
    let data = |f: FrameView| f.data;
    let frames = stamped_all(outputs, pts, sample_rate).0;
    if outputs.len() > 0 {
        lemma_outputs_become_frames(outputs.drop_last(), pts, sample_rate);
        let before = stamped_all(outputs.drop_last(), pts, sample_rate).0;
        if outputs.last().len() > 0 {
            assert(frames.map_values(data) =~= before.map_values(data).push(outputs.last()));
        }
    } else {
        assert(frames.map_values(data) =~= Seq::empty());
        assert(outputs.filter(|o: Seq<u8>| o.len() > 0) =~= Seq::empty());
    }
}

/// The encoder is asked for the bit rate of the transcoder and the sample rate
/// of the stream, in stereo, for AAC-LC with ADTS headers.
pub proof fn lemma_encoder_is_asked_for(bit_rate: u32, sample_rate: u32)
    ensures
        ({
            let asked = settings_for(bit_rate, sample_rate);
            &&& asked.bit_rate == bit_rate
            &&& asked.sample_rate == sample_rate
            &&& asked.channels is Stereo
            &&& asked.transport is Adts
            &&& asked.object_type is Mpeg4LowComplexity
        }),
{
}

/// Every PES payload goes to the decoder, in order. One that it refuses leaves
/// all else as it is, and the bit rate is never changed.
pub proof fn lemma_every_payload_is_decoded(
    before: NativeState,
    list: Seq<Seq<u8>>,
    frames: Seq<FrameView>,
    after: NativeState,
)
    requires
        transcodes_all(before, list, frames, after),
    ensures
        after.packets == before.packets + list,
        after.bit_rate == before.bit_rate,
        after.demux == before.demux,
        list.len() == 1 && mp2_decoded(before.packets.push(list[0])) is None ==> frames.len() == 0
            && after == (NativeState { packets: after.packets, ..before }),
    decreases list.len(),
{
    if list.len() == 0 {
        assert(before.packets + list =~= before.packets);
    } else {
        let (mid, last) = choose|mid: NativeState, last: Seq<FrameView>|
            {
                &&& #[trigger] transcodes(mid, list.last(), last, after)
                &&& last.len() <= frames.len()
                &&& last == frames.skip(frames.len() - last.len())
                &&& transcodes_all(
                    before,
                    list.drop_last(),
                    frames.take(frames.len() - last.len()),
                    mid,
                )
            };
        let first = frames.take(frames.len() - last.len());
        lemma_every_payload_is_decoded(before, list.drop_last(), first, mid);
        assert(before.packets + list =~= (before.packets + list.drop_last()).push(list.last()));
        if list.len() == 1 {
            assert(list.drop_last() =~= Seq::empty());
            assert(before.packets + list.drop_last() =~= before.packets);
            assert(first + last =~= frames);
        }
    }
}

/// A transcoder stops only before it has an encoder, at a payload that the
/// decoder takes: what it asked for is its own bit rate at the sample rate of
/// that payload. The payloads up to that one went to the decoder, and no
/// encoder is kept.
pub proof fn lemma_stops_for_want_of_encoder(
    before: NativeState,
    list: Seq<Seq<u8>>,
    asked: AacSettings,
    after: NativeState,
)
    requires
        stops(before, list, asked, after),
    ensures
        before.encoder is None,
        after.encoder is None,
        asked.bit_rate == before.bit_rate,
        exists|k: int|
            #![trigger list[k]]
            {
                &&& 0 <= k < list.len()
                &&& after.packets == before.packets + list.take(k + 1)
                &&& mp2_decoded(after.packets) matches Some((rate, _)) && asked.sample_rate == rate
            },
{
    let (k, frames, mid) = choose|k: int, frames: Seq<FrameView>, mid: NativeState| #[trigger]
        stops_at(before, list, k, frames, mid, asked, after);
    lemma_every_payload_is_decoded(before, list.take(k), frames, mid);
    lemma_every_output_becomes_a_frame(before, list.take(k), frames, mid);
    assert(before.packets + list.take(k + 1) =~= (before.packets + list.take(k)).push(list[k]));
}

} // verus!
