//! What segments carry, read off their packets: the PES packets of a stream are
//! the payloads of its packets, joined from each start of a unit to the next.
//! Nothing here has a limit on the length of a frame or a tag.
use super::muxer::{begin, closes, fresh, mux, prepared, write_frame, MuxerState, SegmentView};
use super::packets::{
    audio_pes, metadata_pes, next_cc, payload_space, pes_packets, ts_packet, AUDIO_PID, META_PID,
};
use super::receiver::{
    lemma_audio_pes_holds_frame, lemma_metadata_pes_holds_tag, lemma_packet_reads_back,
    packet_list,
};
use super::segment_laws::{
    is_sound, is_whole, lemma_append_packets, lemma_segment_head, metadata_for, mux_all,
    mux_tagged, opening_tags, stream_packets, TaggedFrame,
};
use crate::mpegts::{payload_of, starts_unit};
use crate::transcoder::demux::audio_data;
use crate::transcoder::frame::FrameView;
use vstd::prelude::*;

verus! {

/// The units of a run of packets: their payloads, joined from each start of a
/// unit to the next.
pub open spec fn units_of(packets: Seq<Seq<u8>>) -> Seq<Seq<u8>>
    decreases packets.len(),
{
    if packets.len() == 0 {
        Seq::empty()
    } else {
        let before = units_of(packets.drop_last());
        let payload = payload_of(packets.last());
        if starts_unit(packets.last()) || before.len() == 0 {
            before.push(payload)
        } else {
            before.drop_last().push(before.last() + payload)
        }
    }
}

/// The PES packets of one stream in a segment.
pub open spec fn stream_units(bytes: Seq<u8>, pid: u16) -> Seq<Seq<u8>> {
    units_of(stream_packets(bytes, pid))
}

/// What PES packets hold behind their headers.
pub open spec fn bodies_of(units: Seq<Seq<u8>>) -> Seq<Seq<u8>> {
    Seq::new(units.len(), |i: int| audio_data(units[i]))
}

/// The packets of one PES packet add it to the units before, as a new one or
/// to the end of the last.
proof fn lemma_units_of_list(
    before: Seq<Seq<u8>>,
    pes: Seq<u8>,
    pid: u16,
    starts: bool,
    cc: u8,
    pcr: Option<u64>,
)
    requires
        pid < 0x2000,
        pes.len() > 0,
    ensures
        units_of(before + packet_list(pes, pid, starts, cc, pcr)) == if starts || units_of(
            before,
        ).len() == 0 {
            units_of(before).push(pes)
        } else {
            units_of(before).drop_last().push(units_of(before).last() + pes)
        },
    decreases pes.len(),
{
    let n = payload_space(pcr);
    let list = packet_list(pes, pid, starts, cc, pcr);
    let payload = if pes.len() <= n {
        pes
    } else {
        pes.take(n)
    };
    let first = ts_packet(pid, starts, cc, pcr, payload);
    let some = before.push(first);
    lemma_packet_reads_back(pid, starts, cc, pcr, payload);
    assert(some.drop_last() =~= before);
    if pes.len() <= n {
        assert(before + list =~= some);
    } else {
        let later = packet_list(pes.skip(n), pid, false, next_cc(cc), None);
        assert(before + list =~= some + later);
        lemma_units_of_list(some, pes.skip(n), pid, false, next_cc(cc), None);
        assert(payload + pes.skip(n) =~= pes);
        let units = units_of(before);
        if starts || units.len() == 0 {
            assert(units_of(some).drop_last() =~= units);
        } else {
            assert(units_of(some).drop_last() =~= units.drop_last());
            assert((units.last() + payload) + pes.skip(n) =~= units.last() + pes);
        }
    }
}

/// Writing a PES packet into a segment adds it to the units of its stream, and
/// leaves those of another stream alone.
pub proof fn lemma_pes_is_carried(
    bytes: Seq<u8>,
    pes: Seq<u8>,
    pid: u16,
    cc: u8,
    pcr: Option<u64>,
    other: u16,
)
    requires
        is_whole(bytes),
        pid < 0x2000,
        pes.len() > 0,
    ensures
        ({
            let after = bytes + pes_packets(pes, pid, true, cc, pcr);
            &&& is_whole(after)
            &&& stream_units(after, pid) == stream_units(bytes, pid).push(pes)
            &&& other != pid ==> stream_units(after, other) == stream_units(bytes, other)
        }),
{
    lemma_append_packets(bytes, pes, pid, cc, pcr, other);
    lemma_units_of_list(stream_packets(bytes, pid), pes, pid, true, cc, pcr);
}

/// The metadata units of a segment opened with a tag at `pts`.
pub open spec fn metadata_units_for(tag: Seq<u8>, pts: u64) -> Seq<Seq<u8>> {
    if tag.len() > 0 {
        seq![metadata_pes(tag, pts)]
    } else {
        Seq::empty()
    }
}

proof fn lemma_head_units(m: MuxerState, pts: u64)
    ensures
        is_whole(begin(m, pts).bytes),
        stream_units(begin(m, pts).bytes, AUDIO_PID) == Seq::<Seq<u8>>::empty(),
        stream_units(begin(m, pts).bytes, META_PID) == metadata_units_for(m.id3, pts),
{
    lemma_segment_head(m, pts);
    if m.id3.len() > 0 {
        let none = Seq::<Seq<u8>>::empty();
        let pes = metadata_pes(m.id3, pts);
        let list = packet_list(pes, META_PID, true, m.meta_cc, None);
        lemma_units_of_list(none, pes, META_PID, true, m.meta_cc, None);
        assert(none + list =~= list);
        assert(none.push(pes) =~= seq![pes]);
    }
}

proof fn lemma_write_units(m: MuxerState, frame: FrameView)
    requires
        is_whole(m.bytes),
    ensures
        ({
            let after = write_frame(m, frame).bytes;
            &&& is_whole(after)
            &&& stream_units(after, AUDIO_PID) == stream_units(m.bytes, AUDIO_PID).push(
                audio_pes(frame.data, frame.pts),
            )
            &&& stream_units(after, META_PID) == stream_units(m.bytes, META_PID)
        }),
{
    let pcr = if m.frames == 0 {
        Some(frame.pts)
    } else {
        None
    };
    lemma_pes_is_carried(
        m.bytes,
        audio_pes(frame.data, frame.pts),
        AUDIO_PID,
        m.audio_cc,
        pcr,
        META_PID,
    );
}

/// One step of the muxer: the frame is the last audio unit of the segment being
/// written, and a segment that it opens has the tag as its metadata.
pub proof fn lemma_step_carries_frame(m: MuxerState, frame: FrameView)
    requires
        is_sound(m),
    ensures
        ({
            let (segment, end) = mux(m, frame);
            let unit = audio_pes(frame.data, frame.pts);
            &&& is_sound(end)
            &&& match segment {
                Some(s) => {
                    &&& s.data == m.bytes
                    &&& stream_units(end.bytes, AUDIO_PID) == seq![unit]
                },
                None => stream_units(end.bytes, AUDIO_PID) == stream_units(
                    m.bytes,
                    AUDIO_PID,
                ).push(unit),
            }
            &&& stream_units(end.bytes, META_PID) == if segment is Some || !m.started {
                metadata_units_for(m.id3, frame.pts)
            } else {
                stream_units(m.bytes, META_PID)
            }
        }),
{
    let rated = MuxerState { sample_rate: frame.sample_rate, ..m };
    let ready = prepared(m, frame);
    let none = Seq::<Seq<u8>>::empty();
    let unit = audio_pes(frame.data, frame.pts);
    lemma_head_units(rated, frame.pts);
    if !m.started {
        assert(stream_units(m.bytes, AUDIO_PID) =~= none);
    }
    if closes(ready, frame.pts) {
        lemma_head_units(ready, frame.pts);
        lemma_write_units(begin(ready, frame.pts), frame);
        assert(none.push(unit) =~= seq![unit]);
    } else {
        lemma_write_units(ready, frame);
    }
}

/// The audio units of a run of segments.
pub open spec fn audio_units_of(segments: Seq<SegmentView>) -> Seq<Seq<u8>>
    decreases segments.len(),
{
    if segments.len() == 0 {
        Seq::empty()
    } else {
        audio_units_of(segments.drop_last()) + stream_units(segments.last().data, AUDIO_PID)
    }
}

#[verifier::spinoff_prover]
proof fn lemma_step_adds_unit(before: Seq<SegmentView>, m: MuxerState, next: TaggedFrame)
    requires
        is_sound(m),
    ensures
        ({
            let (segment, end) = mux_tagged(m, next);
            let after = match segment {
                Some(s) => before.push(s),
                None => before,
            };
            &&& is_sound(end)
            &&& audio_units_of(after) + stream_units(end.bytes, AUDIO_PID) == (audio_units_of(
                before,
            ) + stream_units(m.bytes, AUDIO_PID)).push(
                audio_pes(next.frame.data, next.frame.pts),
            )
        }),
{
    let (segment, end) = mux_tagged(m, next);
    let unit = audio_pes(next.frame.data, next.frame.pts);
    let done = audio_units_of(before);
    let open = stream_units(m.bytes, AUDIO_PID);
    lemma_step_carries_frame(MuxerState { id3: next.tag, ..m }, next.frame);
    match segment {
        Some(s) => {
            assert(before.push(s).drop_last() =~= before);
            assert((done + open) + seq![unit] =~= (done + open).push(unit));
        },
        None => {
            assert(done + open.push(unit) =~= (done + open).push(unit));
        },
    }
}

/// The PES packets for the frames of a run.
pub open spec fn frame_units(run: Seq<TaggedFrame>) -> Seq<Seq<u8>> {
    Seq::new(run.len(), |i: int| audio_pes(run[i].frame.data, run[i].frame.pts))
}

/// Every frame of a run is carried, whatever its length and however tags
/// change: the audio units of the segments, and of the one still being
/// written, are the frames that went in, in order and each with its timestamp.
#[verifier::spinoff_prover]
#[verifier::rlimit(30)]
pub proof fn lemma_every_frame_is_carried(m: MuxerState, run: Seq<TaggedFrame>)
    requires
        is_sound(m),
    ensures
        ({
            let (segments, end) = mux_all(m, run);
            &&& is_sound(end)
            &&& audio_units_of(segments) + stream_units(end.bytes, AUDIO_PID) == stream_units(
                m.bytes,
                AUDIO_PID,
            ) + frame_units(run)
        }),
    decreases run.len(),
{
    let held_before = stream_units(m.bytes, AUDIO_PID);
    if run.len() == 0 {
        assert(audio_units_of(Seq::empty()) + held_before =~= held_before + frame_units(run));
    } else {
        let earlier = run.drop_last();
        let next = run.last();
        lemma_every_frame_is_carried(m, earlier);
        let (before, mid) = mux_all(m, earlier);
        lemma_step_adds_unit(before, mid, next);
        assert((held_before + frame_units(earlier)).push(
            audio_pes(next.frame.data, next.frame.pts),
        ) =~= held_before + frame_units(run));
    }
}

/// What the audio units of a new muxer's segments hold is the data of the
/// frames that went in, in order.
pub proof fn lemma_frames_are_the_audio(target: u64, run: Seq<TaggedFrame>)
    ensures
        ({
            let (segments, end) = mux_all(fresh(target), run);
            bodies_of(audio_units_of(segments) + stream_units(end.bytes, AUDIO_PID)) == Seq::new(
                run.len(),
                |i: int| run[i].frame.data,
            )
        }),
{
    let (segments, end) = mux_all(fresh(target), run);
    let units = audio_units_of(segments) + stream_units(end.bytes, AUDIO_PID);
    lemma_every_frame_is_carried(fresh(target), run);
    assert(stream_units(fresh(target).bytes, AUDIO_PID) =~= Seq::empty());
    assert(units =~= frame_units(run));
    assert forall|i: int| 0 <= i < run.len() implies audio_data(#[trigger] units[i])
        == run[i].frame.data by {
        lemma_audio_pes_holds_frame(run[i].frame.data, run[i].frame.pts);
    }
    assert(bodies_of(units) =~= Seq::new(run.len(), |i: int| run[i].frame.data));
}

/// The metadata of each segment of a run is the one tag that was set when the
/// segment was opened, whatever its length, and none where none was set.
pub proof fn lemma_tags_are_the_metadata(target: u64, run: Seq<TaggedFrame>)
    ensures
        ({
            let (segments, end) = mux_all(fresh(target), run);
            let (tags, current) = opening_tags(fresh(target), run);
            &&& segments.len() == tags.len()
            &&& forall|i: int|
                0 <= i < segments.len() ==> bodies_of(
                    stream_units((#[trigger] segments[i]).data, META_PID),
                ) == metadata_for(tags[i])
            &&& bodies_of(stream_units(end.bytes, META_PID)) == metadata_for(current)
            &&& is_sound(end)
        }),
    decreases run.len(),
{
    let m = fresh(target);
    if run.len() == 0 {
        assert(bodies_of(stream_units(m.bytes, META_PID)) =~= metadata_for(Seq::empty()));
    } else {
        lemma_tags_are_the_metadata(target, run.drop_last());
        let mid = mux_all(m, run.drop_last()).1;
        let next = run.last();
        lemma_step_carries_frame(MuxerState { id3: next.tag, ..mid }, next.frame);
        lemma_metadata_pes_holds_tag(next.tag, next.frame.pts);
        assert(bodies_of(metadata_units_for(next.tag, next.frame.pts)) =~= metadata_for(next.tag));
    }
}

} // verus!
