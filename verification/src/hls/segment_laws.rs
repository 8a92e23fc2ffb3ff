//! What holds of whole segments, however the frames came in.
use super::codes::{
    be_bytes, crc_of, lemma_checksummed_data_has_crc_zero, lemma_pcr_round_trip, pcr_of_bytes,
};
use super::muxer::{
    begin, closes, finished, flushed, fresh, frame_packets, metadata_packets, mux, prepared,
    write_frame, MuxerState, SegmentView,
};
use super::packets::{
    audio_pes, checksummed, metadata_pes, pat_section, pes_packets, pmt_section, section_packet,
    ts_packet, AUDIO_PID, META_PID, PAT_PID, PMT_PID,
};
use super::receiver::{
    assemble_all, held, is_whole_pes, lemma_assemble_concat, lemma_audio_pes_holds_frame,
    lemma_clock_is_in_first_packet, lemma_clock_is_where_written, lemma_clock_reads_back,
    lemma_counters_are_consecutive, lemma_metadata_pes_holds_tag, lemma_packet_reads_back,
    lemma_packets_are_cut, lemma_pes_is_received, packet_list, received, tag_fits,
};
use crate::mpegts::{continuity_of, has_clock, payload_of, pid_of, SYNC_BYTE};
use crate::transcoder::demux::{
    audio_data, cut_packets, lemma_sync_byte_from, pmt_pid_of, sync_byte_from, PesState,
    MAX_PES_SIZE,
};
use crate::transcoder::frame::FrameView;
use vstd::arithmetic::div_mod::lemma_add_mod_noop;
use vstd::prelude::*;

verus! {

/// The packets with one identifier, in order.
pub open spec fn with_pid(packets: Seq<Seq<u8>>, pid: u16) -> Seq<Seq<u8>>
    decreases packets.len(),
{
    if packets.len() == 0 {
        Seq::empty()
    } else if pid_of(packets.last()) == pid {
        with_pid(packets.drop_last(), pid).push(packets.last())
    } else {
        with_pid(packets.drop_last(), pid)
    }
}

proof fn lemma_with_pid_concat(p: Seq<Seq<u8>>, q: Seq<Seq<u8>>, pid: u16)
    ensures
        with_pid(p + q, pid) == with_pid(p, pid) + with_pid(q, pid),
    decreases q.len(),
{
    if q.len() == 0 {
        assert(p + q == p);
        assert(with_pid(p, pid) + with_pid(q, pid) == with_pid(p, pid));
    } else {
        assert((p + q).drop_last() == p + q.drop_last());
        lemma_with_pid_concat(p, q.drop_last(), pid);
        assert(with_pid(p + q, pid) =~= with_pid(p, pid) + with_pid(q, pid));
    }
}

proof fn lemma_with_pid_all(packets: Seq<Seq<u8>>, pid: u16)
    requires
        forall|k: int| 0 <= k < packets.len() ==> pid_of(#[trigger] packets[k]) == pid,
    ensures
        with_pid(packets, pid) == packets,
    decreases packets.len(),
{
    if packets.len() > 0 {
        assert forall|k: int| 0 <= k < packets.drop_last().len() implies pid_of(
            #[trigger] packets.drop_last()[k],
        ) == pid by {
            assert(packets.drop_last()[k] == packets[k]);
        }
        lemma_with_pid_all(packets.drop_last(), pid);
        assert(with_pid(packets, pid) =~= packets);
    }
}

proof fn lemma_with_pid_none(packets: Seq<Seq<u8>>, pid: u16)
    requires
        forall|k: int| 0 <= k < packets.len() ==> pid_of(#[trigger] packets[k]) != pid,
    ensures
        with_pid(packets, pid) == Seq::<Seq<u8>>::empty(),
    decreases packets.len(),
{
    if packets.len() > 0 {
        assert forall|k: int| 0 <= k < packets.drop_last().len() implies pid_of(
            #[trigger] packets.drop_last()[k],
        ) != pid by {
            assert(packets.drop_last()[k] == packets[k]);
        }
        lemma_with_pid_none(packets.drop_last(), pid);
    }
}

/// Whether bytes are a run of whole packets.
pub open spec fn is_whole(bytes: Seq<u8>) -> bool {
    cut_packets(bytes).1.len() == 0 && bytes.len() == 188 * cut_packets(bytes).0.len()
}

/// The packets of one stream in a segment.
pub open spec fn stream_packets(bytes: Seq<u8>, pid: u16) -> Seq<Seq<u8>> {
    with_pid(cut_packets(bytes).0, pid)
}

/// What a receiver that has seen nothing gets out of one stream in a segment.
pub open spec fn stream_data(bytes: Seq<u8>, pid: u16) -> Seq<Seq<u8>> {
    received(
        PesState { buf: Seq::empty(), collecting: false, expected_len: 0 },
        stream_packets(bytes, pid),
    )
}

/// The packets of a run of whole packets stand one behind the other, each with
/// the sync byte at its start.
pub proof fn lemma_packets_stand_in_a_row(bytes: Seq<u8>, k: int)
    requires
        is_whole(bytes),
        0 <= k < cut_packets(bytes).0.len(),
    ensures
        bytes.len() % 188 == 0,
        bytes[188 * k] == SYNC_BYTE,
        cut_packets(bytes).0[k] == bytes.subrange(188 * k, 188 * k + 188),
    decreases bytes.len(),
{
    lemma_cut_length(bytes);
    if bytes[0] == SYNC_BYTE {
        let rest = bytes.skip(188);
        assert(bytes.take(188) =~= bytes.subrange(0, 188));
        if k > 0 {
            lemma_packets_stand_in_a_row(rest, k - 1);
            assert(cut_packets(bytes).0[k] == cut_packets(rest).0[k - 1]);
            assert(rest.subrange(188 * (k - 1), 188 * (k - 1) + 188) =~= bytes.subrange(
                188 * k,
                188 * k + 188,
            ));
        }
    } else {
        lemma_sync_byte_from(bytes, 0);
        match sync_byte_from(bytes, 0) {
            Some(at) => {
                lemma_cut_length(bytes.skip(at));
            },
            None => {},
        }
    }
}

pub(crate) proof fn lemma_append_packets(
    bytes: Seq<u8>,
    pes: Seq<u8>,
    pid: u16,
    cc: u8,
    pcr: Option<u64>,
    other: u16,
)
    requires
        is_whole(bytes),
        pid < 0x2000,
    ensures
        ({
            let more = pes_packets(pes, pid, true, cc, pcr);
            let list = packet_list(pes, pid, true, cc, pcr);
            &&& is_whole(bytes + more)
            &&& cut_packets(bytes + more).0 == cut_packets(bytes).0 + list
            &&& more.len() == 188 * list.len()
            &&& stream_packets(bytes + more, pid) == stream_packets(bytes, pid) + list
            &&& other != pid ==> stream_packets(bytes + more, other) == stream_packets(
                bytes,
                other,
            )
        }),
{
    let more = pes_packets(pes, pid, true, cc, pcr);
    let list = packet_list(pes, pid, true, cc, pcr);
    let (packets, rest) = cut_packets(bytes);
    let nothing = Seq::<u8>::empty();
    lemma_cut_append_whole(bytes, more);
    lemma_packets_are_cut(pes, pid, true, cc, pcr, nothing);
    assert(more + nothing == more);
    assert(list + cut_packets(nothing).0 == list);
    assert forall|k: int| 0 <= k < list.len() implies pid_of(#[trigger] list[k]) == pid by {
        lemma_counters_are_consecutive(pes, pid, true, cc, pcr, k);
    }
    lemma_with_pid_concat(packets, list, pid);
    lemma_with_pid_all(list, pid);
    if other != pid {
        lemma_with_pid_concat(packets, list, other);
        lemma_with_pid_none(list, other);
        assert(with_pid(packets, other) + Seq::<Seq<u8>>::empty() == with_pid(packets, other));
    }
}

/// Cutting the bytes behind a run of whole packets.
proof fn lemma_cut_append_whole(a: Seq<u8>, b: Seq<u8>)
    requires
        is_whole(a),
    ensures
        cut_packets(a + b) == (cut_packets(a).0 + cut_packets(b).0, cut_packets(b).1),
    decreases a.len(),
{
    if a.len() < 188 {
        assert(a + b == b);
        assert(cut_packets(a).0 + cut_packets(b).0 == cut_packets(b).0);
    } else {
        lemma_cut_length(a);
        if a[0] == SYNC_BYTE {
            assert((a + b).take(188) == a.take(188));
            assert((a + b).skip(188) == a.skip(188) + b);
            lemma_cut_append_whole(a.skip(188), b);
            let (p, rest) = cut_packets(a.skip(188));
            assert(seq![a.take(188)] + (p + cut_packets(b).0) == (seq![a.take(188)] + p)
                + cut_packets(b).0);
        } else {
            lemma_sync_byte_from(a, 0);
            match sync_byte_from(a, 0) {
                Some(at) => {
                    lemma_cut_length(a.skip(at));
                },
                None => {},
            }
        }
    }
}

/// Packets and what is left over make up at most the bytes they were cut from.
proof fn lemma_cut_length(a: Seq<u8>)
    ensures
        188 * cut_packets(a).0.len() + cut_packets(a).1.len() <= a.len(),
    decreases a.len(),
{
    if a.len() >= 188 {
        if a[0] == SYNC_BYTE {
            lemma_cut_length(a.skip(188));
        } else {
            lemma_sync_byte_from(a, 0);
            match sync_byte_from(a, 0) {
                Some(at) => {
                    lemma_cut_length(a.skip(at));
                },
                None => {},
            }
        }
    }
}

proof fn lemma_received_concat(
    bytes: Seq<u8>,
    pes: Seq<u8>,
    pid: u16,
    cc: u8,
    pcr: Option<u64>,
)
    requires
        is_whole(bytes),
        pid < 0x2000,
        is_whole_pes(pes),
    ensures
        stream_data(bytes + pes_packets(pes, pid, true, cc, pcr), pid) == stream_data(
            bytes,
            pid,
        ).push(audio_data(pes)),
{
    let nothing = PesState { buf: Seq::empty(), collecting: false, expected_len: 0 };
    let list = packet_list(pes, pid, true, cc, pcr);
    let before = stream_packets(bytes, pid);
    lemma_append_packets(bytes, pes, pid, cc, pcr, pid);
    lemma_assemble_concat(nothing, before, list);
    let (data1, mid) = assemble_all(nothing, before);
    lemma_pes_is_received(mid, pes, pid, cc, pcr);
    let (data2, end) = assemble_all(mid, list);
    assert((data1 + data2) + held(end) == data1 + (data2 + held(end)));
    assert(data1 + (held(mid) + seq![audio_data(pes)]) =~= (data1 + held(mid)).push(
        audio_data(pes),
    ));
}

/// What a segment opens with: a run of whole packets, the first a PAT, the
/// second the PMT that it names, both with intact checksums. A receiver gets
/// the ID3 tag out of the metadata stream, where there is one, and nothing yet
/// out of the audio stream. All further packets are of the metadata stream, and
/// none of them all has a clock reference.
pub proof fn lemma_segment_head(m: MuxerState, pts: u64)
    ensures
        ({
            let bytes = begin(m, pts).bytes;
            let packets = cut_packets(bytes).0;
            &&& is_whole(bytes)
            &&& packets.len() >= 2
            &&& pid_of(packets[0]) == PAT_PID
            &&& pmt_pid_of(packets[0]) == Some(PMT_PID)
            &&& payload_of(packets[0]) == seq![0x00u8] + pat_section()
            &&& crc_of(pat_section()) == 0
            &&& continuity_of(packets[0]) == m.pat_cc as int % 16
            &&& pid_of(packets[1]) == PMT_PID
            &&& continuity_of(packets[1]) == m.pmt_cc as int % 16
            &&& payload_of(packets[1]) == seq![0x00u8] + pmt_section(m.id3.len() > 0)
            &&& crc_of(pmt_section(m.id3.len() > 0)) == 0
            &&& tag_fits(m.id3) ==> stream_data(bytes, META_PID) == if m.id3.len() > 0 {
                seq![m.id3]
            } else {
                Seq::empty()
            }
            &&& stream_packets(bytes, META_PID) == if m.id3.len() > 0 {
                packet_list(metadata_pes(m.id3, pts), META_PID, true, m.meta_cc, None)
            } else {
                Seq::empty()
            }
            &&& stream_packets(bytes, AUDIO_PID).len() == 0
            &&& stream_data(bytes, AUDIO_PID) == Seq::<Seq<u8>>::empty()
            &&& forall|k: int|
                2 <= k < packets.len() ==> pid_of(#[trigger] packets[k]) == META_PID
            &&& forall|k: int| 0 <= k < packets.len() ==> !has_clock(#[trigger] packets[k])
        }),
{
    let pat = section_packet(PAT_PID, m.pat_cc, pat_section());
    let pmt = section_packet(PMT_PID, m.pmt_cc, pmt_section(m.id3.len() > 0));
    let pat_payload = seq![0x00u8] + pat_section();
    let pmt_payload = seq![0x00u8] + pmt_section(m.id3.len() > 0);
    assert(pat_payload.len() == 17);
    assert(pmt_payload.len() <= 33);
    lemma_packet_reads_back(PAT_PID, true, m.pat_cc, None, pat_payload);
    lemma_packet_reads_back(PMT_PID, true, m.pmt_cc, None, pmt_payload);
    lemma_clock_is_where_written(PAT_PID, true, m.pat_cc, None, pat_payload);
    lemma_clock_is_where_written(PMT_PID, true, m.pmt_cc, None, pmt_payload);
    lemma_section_checksums(m.id3.len() > 0);

    let tables = pat + pmt;
    let nothing = Seq::<u8>::empty();
    let list = seq![pat, pmt];
    assert(tables.take(188) == pat);
    assert(tables.skip(188) == pmt);
    assert(pmt.take(188) == pmt);
    assert(pmt.skip(188) == nothing);
    assert(cut_packets(nothing).0 == Seq::<Seq<u8>>::empty());
    assert(cut_packets(pmt).0 =~= seq![pmt]);
    assert(cut_packets(tables).0 =~= list);
    assert(is_whole(tables));
    assert(with_pid(list, AUDIO_PID) == Seq::<Seq<u8>>::empty()) by {
        lemma_with_pid_none(list, AUDIO_PID);
    }
    assert(with_pid(list, META_PID) == Seq::<Seq<u8>>::empty()) by {
        lemma_with_pid_none(list, META_PID);
    }
    assert(pmt_pid_of(pat) == Some(PMT_PID)) by {
        let s = 188 - 17 + 1;
        assert(pat.skip(171) == pat_payload);
        assert(pat[171] == pat_payload[0]);
        assert(pat[172] == pat_payload[1]);
        assert(pat[182] == pat_payload[11]);
        assert(pat[183] == pat_payload[12]);
    }
    let pes = metadata_pes(m.id3, pts);
    assert(stream_data(tables, META_PID) =~= Seq::empty());
    if m.id3.len() > 0 {
        lemma_append_packets(tables, pes, META_PID, m.meta_cc, None, AUDIO_PID);
        assert(Seq::<Seq<u8>>::empty() + packet_list(pes, META_PID, true, m.meta_cc, None)
            =~= packet_list(pes, META_PID, true, m.meta_cc, None));
        if tag_fits(m.id3) {
            lemma_metadata_pes_holds_tag(m.id3, pts);
            lemma_received_concat(tables, pes, META_PID, m.meta_cc, None);
            assert(Seq::<Seq<u8>>::empty().push(m.id3) =~= seq![m.id3]);
        }
    } else {
        assert(tables + nothing == tables);
    }
    let bytes = begin(m, pts).bytes;
    assert(bytes == tables + metadata_packets(m.id3, pts, m.meta_cc));
    assert(cut_packets(bytes).0[0] == pat);
    assert(cut_packets(bytes).0[1] == pmt);
    assert(stream_data(bytes, AUDIO_PID) =~= Seq::empty());
    let packets = cut_packets(bytes).0;
    let tags = packet_list(pes, META_PID, true, m.meta_cc, None);
    assert forall|k: int| 2 <= k < packets.len() implies pid_of(#[trigger] packets[k]) == META_PID
        && !has_clock(packets[k]) by {
        assert(packets[k] == tags[k - 2]);
        lemma_counters_are_consecutive(pes, META_PID, true, m.meta_cc, None, k - 2);
        lemma_clock_is_in_first_packet(pes, META_PID, true, m.meta_cc, None, k - 2);
    }
}

/// The checksums of both tables hold.
proof fn lemma_section_checksums(metadata: bool)
    ensures
        crc_of(pat_section()) == 0,
        crc_of(pmt_section(metadata)) == 0,
{
    let pat = pat_section().take(12);
    assert(pat_section() =~= pat + be_bytes(crc_of(pat))) by {
        assert(pat =~= seq![
            0x00u8, 0xB0, 0x0D, 0x00, 0x01, 0xC1, 0x00, 0x00, 0x00, 0x01, 0xF0, 0x00,
        ]);
    }
    lemma_checksummed_data_has_crc_zero(pat);
    let n: int = if metadata {
        28
    } else {
        17
    };
    let pmt = pmt_section(metadata).take(n);
    lemma_checksummed_prefix(metadata);
    lemma_checksummed_data_has_crc_zero(pmt);
}

proof fn lemma_checksummed_prefix(metadata: bool)
    ensures
        ({
            let n: int = if metadata {
                28
            } else {
                17
            };
            let pmt = pmt_section(metadata).take(n);
            pmt_section(metadata) == pmt + be_bytes(crc_of(pmt))
        }),
{
    let n: int = if metadata {
        28
    } else {
        17
    };
    let length: u8 = if metadata {
        29
    } else {
        18
    };
    let body = seq![
        0x02u8, 0xB0, length, 0x00, 0x01, 0xC1, 0x00, 0x00, 0xE1, 0x00, 0xF0, 0x00,
    ] + super::packets::audio_stream_entry() + (if metadata {
        super::packets::metadata_stream_entry()
    } else {
        Seq::empty()
    });
    assert(pmt_section(metadata) == checksummed(body));
    assert(pmt_section(metadata).take(n) =~= body);
}

/// Whether a frame is short enough for a receiver to reassemble.
pub open spec fn frame_fits(frame: FrameView) -> bool {
    frame.data.len() + 14 <= MAX_PES_SIZE
}

/// Writing a frame into a segment adds it to what a receiver gets out of the
/// audio stream, and leaves the metadata stream alone.
pub proof fn lemma_frame_is_received(m: MuxerState, frame: FrameView)
    requires
        is_whole(m.bytes),
    ensures
        is_whole(write_frame(m, frame).bytes),
        frame_fits(frame) ==> stream_data(write_frame(m, frame).bytes, AUDIO_PID) == stream_data(
            m.bytes,
            AUDIO_PID,
        ).push(frame.data),
        stream_data(write_frame(m, frame).bytes, META_PID) == stream_data(m.bytes, META_PID),
{
    let pes = audio_pes(frame.data, frame.pts);
    let pcr = if m.frames == 0 {
        Some(frame.pts)
    } else {
        None
    };
    lemma_append_packets(m.bytes, pes, AUDIO_PID, m.audio_cc, pcr, META_PID);
    if frame_fits(frame) {
        lemma_audio_pes_holds_frame(frame.data, frame.pts);
        lemma_received_concat(m.bytes, pes, AUDIO_PID, m.audio_cc, pcr);
    }
}

/// What every state of the muxer keeps: the segment being written is a run of
/// whole packets, and it is empty before the first frame.
pub open spec fn is_sound(m: MuxerState) -> bool {
    &&& is_whole(m.bytes)
    &&& !m.started ==> m.bytes.len() == 0
}

/// A new muxer is sound.
pub proof fn lemma_fresh_is_sound(target: u64)
    ensures
        is_sound(fresh(target)),
{
}

/// A frame, and the tag that is set when it comes.
pub struct TaggedFrame {
    pub tag: Seq<u8>,
    pub frame: FrameView,
}

/// Sets the tag, and takes in the frame.
pub open spec fn mux_tagged(m: MuxerState, next: TaggedFrame) -> (Option<SegmentView>, MuxerState) {
    mux(MuxerState { id3: next.tag, ..m }, next.frame)
}

/// Muxing a run of frames, each with the tag that is set when it comes: the
/// segments that come out, and the state after.
pub open spec fn mux_all(m: MuxerState, run: Seq<TaggedFrame>) -> (Seq<SegmentView>, MuxerState)
    decreases run.len(),
{
    if run.len() == 0 {
        (Seq::empty(), m)
    } else {
        let (before, mid) = mux_all(m, run.drop_last());
        let (segment, end) = mux_tagged(mid, run.last());
        match segment {
            Some(s) => (before.push(s), end),
            None => (before, end),
        }
    }
}

/// What a receiver gets out of the audio streams of a run of segments.
pub open spec fn audio_of(segments: Seq<SegmentView>) -> Seq<Seq<u8>>
    decreases segments.len(),
{
    if segments.len() == 0 {
        Seq::empty()
    } else {
        audio_of(segments.drop_last()) + stream_data(segments.last().data, AUDIO_PID)
    }
}

proof fn lemma_audio_of_push(segments: Seq<SegmentView>, last: SegmentView)
    ensures
        audio_of(segments.push(last)) == audio_of(segments) + stream_data(last.data, AUDIO_PID),
{
    assert(segments.push(last).drop_last() =~= segments);
}

/// One step of the muxer: a closed segment holds what was written so far, the
/// frame is in the segment being written, and both are runs of whole packets.
pub proof fn lemma_mux_keeps_frames(m: MuxerState, frame: FrameView)
    requires
        is_sound(m),
        frame_fits(frame),
    ensures
        ({
            let (segment, end) = mux(m, frame);
            &&& is_sound(end)
            &&& match segment {
                Some(s) => {
                    &&& is_whole(s.data)
                    &&& s.data == m.bytes
                    &&& stream_data(end.bytes, AUDIO_PID) == seq![frame.data]
                },
                None => stream_data(end.bytes, AUDIO_PID) == stream_data(
                    m.bytes,
                    AUDIO_PID,
                ).push(frame.data),
            }
        }),
{
    let rated = MuxerState { sample_rate: frame.sample_rate, ..m };
    let ready = prepared(m, frame);
    let nothing = Seq::<Seq<u8>>::empty();
    lemma_segment_head(rated, frame.pts);
    if !m.started {
        assert(cut_packets(m.bytes).0 == nothing);
        assert(stream_data(m.bytes, AUDIO_PID) =~= nothing);
    }
    if closes(ready, frame.pts) {
        lemma_segment_head(ready, frame.pts);
        lemma_frame_is_received(begin(ready, frame.pts), frame);
        assert(nothing.push(frame.data) =~= seq![frame.data]);
    } else {
        lemma_frame_is_received(ready, frame);
    }
}

proof fn lemma_step_adds_frame(before: Seq<SegmentView>, m: MuxerState, next: TaggedFrame)
    requires
        is_sound(m),
        frame_fits(next.frame),
    ensures
        ({
            let (segment, end) = mux_tagged(m, next);
            let segments = match segment {
                Some(s) => before.push(s),
                None => before,
            };
            &&& is_sound(end)
            &&& audio_of(segments) + stream_data(end.bytes, AUDIO_PID) == (audio_of(before)
                + stream_data(m.bytes, AUDIO_PID)).push(next.frame.data)
        }),
{
    let frame = next.frame;
    lemma_mux_keeps_frames(MuxerState { id3: next.tag, ..m }, frame);
    let (segment, end) = mux_tagged(m, next);
    let audio = audio_of(before);
    let held = stream_data(m.bytes, AUDIO_PID);
    match segment {
        Some(s) => {
            lemma_audio_of_push(before, s);
            assert((audio + held) + seq![frame.data] =~= (audio + held).push(frame.data));
        },
        None => {
            assert(audio + held.push(frame.data) =~= (audio + held).push(frame.data));
        },
    }
}

/// No frame is lost, altered or moved, however tags change meanwhile: what a
/// receiver gets out of the segments, and out of the one still being written,
/// is the frames that went in, in order.
#[verifier::spinoff_prover]
#[verifier::rlimit(30)]
pub proof fn lemma_no_frame_is_lost(m: MuxerState, run: Seq<TaggedFrame>)
    requires
        is_sound(m),
        forall|i: int| 0 <= i < run.len() ==> frame_fits((#[trigger] run[i]).frame),
    ensures
        ({
            let (segments, end) = mux_all(m, run);
            &&& is_sound(end)
            &&& audio_of(segments) + stream_data(end.bytes, AUDIO_PID) == stream_data(
                m.bytes,
                AUDIO_PID,
            ) + Seq::new(run.len(), |i: int| run[i].frame.data)
        }),
    decreases run.len(),
{
    let (segments, end) = mux_all(m, run);
    let held_before = stream_data(m.bytes, AUDIO_PID);
    if run.len() == 0 {
        assert(audio_of(segments) + stream_data(end.bytes, AUDIO_PID) =~= held_before + Seq::new(
            run.len(),
            |i: int| run[i].frame.data,
        ));
    } else {
        let earlier = run.drop_last();
        let next = run.last();
        assert forall|i: int| 0 <= i < earlier.len() implies frame_fits(
            (#[trigger] earlier[i]).frame,
        ) by {
            assert(earlier[i] == run[i]);
        }
        lemma_no_frame_is_lost(m, earlier);
        let (before, mid) = mux_all(m, earlier);
        assert(frame_fits(run[run.len() - 1].frame));
        lemma_step_adds_frame(before, mid, next);
        assert((held_before + Seq::new(earlier.len(), |i: int| earlier[i].frame.data)).push(
            next.frame.data,
        ) =~= held_before + Seq::new(run.len(), |i: int| run[i].frame.data));
    }
}

/// Whether the audio packets of the segment being written count up by one,
/// modulo sixteen, from `first`, and the muxer goes on from there.
pub open spec fn audio_counters_run(m: MuxerState, first: int) -> bool {
    let packets = stream_packets(m.bytes, AUDIO_PID);
    &&& m.audio_cc == (first + packets.len()) % 16
    &&& forall|k: int|
        0 <= k < packets.len() ==> continuity_of(#[trigger] packets[k]) == (first + k) % 16
}

/// The continuity counter of the audio stream has no gap: it runs on within a
/// segment, and a new segment starts where the last one ended.
pub proof fn lemma_audio_counters_run(m: MuxerState, frame: FrameView, first: int)
    requires
        is_sound(m),
        audio_counters_run(m, first),
    ensures
        ({
            let (segment, end) = mux(m, frame);
            &&& is_sound(end)
            &&& segment matches Some(s) ==> s.data == m.bytes
            &&& audio_counters_run(
                end,
                if segment is Some {
                    m.audio_cc as int
                } else {
                    first
                },
            )
        }),
{
    let rated = MuxerState { sample_rate: frame.sample_rate, ..m };
    let ready = prepared(m, frame);
    lemma_segment_head(rated, frame.pts);
    if !m.started {
        assert(stream_packets(m.bytes, AUDIO_PID).len() == 0);
    }
    if closes(ready, frame.pts) {
        lemma_segment_head(ready, frame.pts);
        lemma_write_keeps_counters(begin(ready, frame.pts), frame, m.audio_cc as int);
    } else {
        lemma_write_keeps_counters(ready, frame, first);
    }
}

proof fn lemma_write_keeps_counters(m: MuxerState, frame: FrameView, first: int)
    requires
        is_whole(m.bytes),
        audio_counters_run(m, first),
    ensures
        is_whole(write_frame(m, frame).bytes),
        audio_counters_run(write_frame(m, frame), first),
{
    let pes = audio_pes(frame.data, frame.pts);
    let pcr = if m.frames == 0 {
        Some(frame.pts)
    } else {
        None
    };
    let before = stream_packets(m.bytes, AUDIO_PID);
    let list = packet_list(pes, AUDIO_PID, true, m.audio_cc, pcr);
    lemma_append_packets(m.bytes, pes, AUDIO_PID, m.audio_cc, pcr, META_PID);
    let after = stream_packets(write_frame(m, frame).bytes, AUDIO_PID);
    assert(after == before + list);
    assert forall|k: int| 0 <= k < after.len() implies continuity_of(#[trigger] after[k]) == (first
        + k) % 16 by {
        if k < before.len() {
            assert(after[k] == before[k]);
        } else {
            let j = k - before.len();
            assert(after[k] == list[j]);
            lemma_counters_are_consecutive(pes, AUDIO_PID, true, m.audio_cc, pcr, j);
            lemma_counts_add_up(m.audio_cc as int, first, before.len() as int, j);
        }
    }
    lemma_counts_add_up(m.audio_cc as int, first, before.len() as int, list.len() as int);
}

proof fn lemma_counts_add_up(cc: int, first: int, n: int, j: int)
    requires
        cc == (first + n) % 16,
    ensures
        (cc + j) % 16 == (first + (n + j)) % 16,
{
    lemma_add_mod_noop(first + n, j, 16);
    lemma_add_mod_noop(cc, j, 16);
}

/// The audio packets of a run of segments.
pub open spec fn audio_packets_of(segments: Seq<SegmentView>) -> Seq<Seq<u8>>
    decreases segments.len(),
{
    if segments.len() == 0 {
        Seq::empty()
    } else {
        audio_packets_of(segments.drop_last()) + stream_packets(segments.last().data, AUDIO_PID)
    }
}

/// Whether the audio packets of all segments count up by one, modulo sixteen,
/// from 0, and the segment being written goes on from there.
pub open spec fn counts_on(segments: Seq<SegmentView>, end: MuxerState) -> bool {
    let packets = audio_packets_of(segments);
    &&& is_sound(end)
    &&& forall|k: int| 0 <= k < packets.len() ==> continuity_of(#[trigger] packets[k]) == k % 16
    &&& audio_counters_run(end, packets.len() as int)
}

/// The continuity counter of the audio stream has no gap in a whole run,
/// however tags change.
pub proof fn lemma_audio_counter_has_no_gap(target: u64, run: Seq<TaggedFrame>)
    ensures
        counts_on(mux_all(fresh(target), run).0, mux_all(fresh(target), run).1),
    decreases run.len(),
{
    if run.len() == 0 {
        assert(stream_packets(fresh(target).bytes, AUDIO_PID).len() == 0);
    } else {
        lemma_audio_counter_has_no_gap(target, run.drop_last());
        let (before, mid) = mux_all(fresh(target), run.drop_last());
        lemma_step_counts_on(before, mid, run.last());
    }
}

#[verifier::spinoff_prover]
#[verifier::rlimit(30)]
proof fn lemma_step_counts_on(before: Seq<SegmentView>, m: MuxerState, next: TaggedFrame)
    requires
        counts_on(before, m),
    ensures
        ({
            let (segment, end) = mux_tagged(m, next);
            counts_on(
                match segment {
                    Some(s) => before.push(s),
                    None => before,
                },
                end,
            )
        }),
{
    let packets = audio_packets_of(before);
    let tagged = MuxerState { id3: next.tag, ..m };
    let (segment, end) = mux_tagged(m, next);
    assert(audio_counters_run(tagged, packets.len() as int));
    lemma_audio_counters_run(tagged, next.frame, packets.len() as int);
    if let Some(s) = segment {
        let more = stream_packets(m.bytes, AUDIO_PID);
        assert(before.push(s).drop_last() =~= before);
        assert(audio_packets_of(before.push(s)) == packets + more);
        lemma_counters_run_from(end, m.audio_cc as int, (packets + more).len() as int);
    }
}

proof fn lemma_counters_run_from(m: MuxerState, first: int, same: int)
    requires
        audio_counters_run(m, first),
        first == same % 16,
    ensures
        audio_counters_run(m, same),
{
    let packets = stream_packets(m.bytes, AUDIO_PID);
    lemma_counts_add_up(first, same, 0, packets.len() as int);
    assert forall|k: int| 0 <= k < packets.len() implies continuity_of(#[trigger] packets[k]) == (
    same + k) % 16 by {
        lemma_counts_add_up(first, same, 0, k);
    }
}

/// The first packet of the first frame of a segment carries the clock, set to
/// the timestamp of that frame.
#[verifier::spinoff_prover]
#[verifier::rlimit(30)]
pub proof fn lemma_first_frame_carries_clock(m: MuxerState, frame: FrameView)
    requires
        m.frames == 0,
    ensures
        ({
            let packet = frame_packets(m, frame).take(188);
            &&& pid_of(packet) == AUDIO_PID
            &&& packet[5] == 0x10
            &&& pcr_of_bytes(packet.subrange(6, 12)) == frame.pts % 0x2_0000_0000
        }),
{
    let pes = audio_pes(frame.data, frame.pts);
    let payload = if pes.len() <= 176 {
        pes
    } else {
        pes.take(176)
    };
    let packet = ts_packet(AUDIO_PID, true, m.audio_cc, Some(frame.pts), payload);
    lemma_packet_reads_back(AUDIO_PID, true, m.audio_cc, Some(frame.pts), payload);
    lemma_clock_reads_back(AUDIO_PID, true, m.audio_cc, frame.pts, payload);
    lemma_pcr_round_trip(frame.pts);
    assert(frame_packets(m, frame).take(188) =~= packet);
}

/// Flushing hands out the segment being written as it stands.
pub proof fn lemma_flush_hands_out_the_rest(m: MuxerState)
    requires
        is_sound(m),
        m.frames > 0,
    ensures
        flushed(m).0 == Some(finished(m)),
        finished(m).data == m.bytes,
        is_whole(finished(m).data),
        has_layout(m) ==> is_playable(finished(m).data),
        flushed(m).1.bytes.len() == 0,
        m.started ==> is_sound(flushed(m).1),
{
}

/// What a receiver gets out of the metadata stream of a segment opened with a
/// tag.
pub open spec fn metadata_for(tag: Seq<u8>) -> Seq<Seq<u8>> {
    if tag.len() > 0 {
        seq![tag]
    } else {
        Seq::empty()
    }
}

/// A receiver gets one tag out of each segment: the one that was set when the
/// first frame of the segment came. A segment opened without a tag has none,
/// and the tag of a segment does not change while it is written.
pub proof fn lemma_segment_carries_tag(m: MuxerState, frame: FrameView)
    requires
        is_sound(m),
        tag_fits(m.id3),
    ensures
        ({
            let (segment, end) = mux(m, frame);
            &&& is_sound(end)
            &&& segment matches Some(s) ==> s.data == m.bytes
            &&& stream_data(end.bytes, META_PID) == if segment is Some || !m.started {
                metadata_for(m.id3)
            } else {
                stream_data(m.bytes, META_PID)
            }
        }),
{
    let rated = MuxerState { sample_rate: frame.sample_rate, ..m };
    let ready = prepared(m, frame);
    lemma_segment_head(rated, frame.pts);
    if closes(ready, frame.pts) {
        lemma_segment_head(ready, frame.pts);
        lemma_frame_is_received(begin(ready, frame.pts), frame);
    } else {
        lemma_frame_is_received(ready, frame);
    }
}

/// How a segment is laid out: whole packets, a PAT, the PMT that it names, both
/// with intact checksums, then the packets of the metadata stream, and from
/// `audio` on only packets of the audio stream. The first audio packet and no
/// other packet has a clock reference.
pub open spec fn is_laid_out(bytes: Seq<u8>, audio: int) -> bool {
    let packets = cut_packets(bytes).0;
    &&& is_whole(bytes)
    &&& 2 <= audio <= packets.len()
    &&& pid_of(packets[0]) == PAT_PID
    &&& pmt_pid_of(packets[0]) == Some(PMT_PID)
    &&& payload_of(packets[0]) == seq![0x00u8] + pat_section()
    &&& crc_of(payload_of(packets[0]).skip(1)) == 0
    &&& pid_of(packets[1]) == PMT_PID
    &&& exists|metadata: bool|
        payload_of(packets[1]) == seq![0x00u8] + #[trigger] pmt_section(metadata)
    &&& crc_of(payload_of(packets[1]).skip(1)) == 0
    &&& forall|k: int| 2 <= k < audio ==> pid_of(#[trigger] packets[k]) == META_PID
    &&& forall|k: int| audio <= k < packets.len() ==> pid_of(#[trigger] packets[k]) == AUDIO_PID
    &&& forall|k: int| 0 <= k < packets.len() ==> has_clock(#[trigger] packets[k]) == (k == audio)
}

/// Whether a finished segment is laid out so, with audio in it.
pub open spec fn is_playable(bytes: Seq<u8>) -> bool {
    exists|audio: int| #[trigger]
        is_laid_out(bytes, audio) && audio < cut_packets(bytes).0.len()
}

/// What a muxer keeps while it takes in frames: once it has started, the
/// segment being written is laid out so, and has audio once it has frames.
pub open spec fn has_layout(m: MuxerState) -> bool {
    if m.started {
        exists|audio: int| #[trigger]
            is_laid_out(m.bytes, audio) && (audio < cut_packets(m.bytes).0.len()) == (m.frames > 0)
    } else {
        m.bytes.len() == 0 && m.frames == 0
    }
}

proof fn lemma_begin_lays_out(m: MuxerState, pts: u64)
    ensures
        is_laid_out(begin(m, pts).bytes, cut_packets(begin(m, pts).bytes).0.len() as int),
{
    lemma_segment_head(m, pts);
    let packets = cut_packets(begin(m, pts).bytes).0;
    let pmt = pmt_section(m.id3.len() > 0);
    assert(payload_of(packets[0]).skip(1) =~= pat_section());
    assert(payload_of(packets[1]).skip(1) =~= pmt);
}

proof fn lemma_write_keeps_layout(m: MuxerState, frame: FrameView, audio: int)
    requires
        is_laid_out(m.bytes, audio),
        (audio < cut_packets(m.bytes).0.len()) == (m.frames > 0),
    ensures
        is_laid_out(write_frame(m, frame).bytes, audio),
        audio < cut_packets(write_frame(m, frame).bytes).0.len(),
{
    let pes = audio_pes(frame.data, frame.pts);
    let pcr = if m.frames == 0 {
        Some(frame.pts)
    } else {
        None
    };
    lemma_append_packets(m.bytes, pes, AUDIO_PID, m.audio_cc, pcr, META_PID);
    let before = cut_packets(m.bytes).0;
    let list = packet_list(pes, AUDIO_PID, true, m.audio_cc, pcr);
    let after = cut_packets(write_frame(m, frame).bytes).0;
    assert(after == before + list);
    assert(list.len() > 0);
    assert(after[0] == before[0] && after[1] == before[1]);
    assert forall|k: int| 2 <= k < audio implies pid_of(#[trigger] after[k]) == META_PID by {
        assert(after[k] == before[k]);
    }
    assert forall|k: int| audio <= k < after.len() implies pid_of(#[trigger] after[k])
        == AUDIO_PID by {
        if k < before.len() {
            assert(after[k] == before[k]);
        } else {
            lemma_counters_are_consecutive(
                pes,
                AUDIO_PID,
                true,
                m.audio_cc,
                pcr,
                k - before.len(),
            );
        }
    }
    assert forall|k: int| 0 <= k < after.len() implies has_clock(#[trigger] after[k]) == (k
        == audio) by {
        if k < before.len() {
            assert(after[k] == before[k]);
        } else {
            lemma_clock_is_in_first_packet(
                pes,
                AUDIO_PID,
                true,
                m.audio_cc,
                pcr,
                k - before.len(),
            );
        }
    }
}

/// Every segment that comes out of a muxer is laid out as it should be, however
/// tags change: tables, metadata, and then only audio, of which the first
/// packet alone has the clock. A player can start with any of them.
pub proof fn lemma_segments_are_playable(m: MuxerState, run: Seq<TaggedFrame>)
    requires
        has_layout(m),
    ensures
        ({
            let (segments, end) = mux_all(m, run);
            &&& has_layout(end)
            &&& forall|i: int|
                0 <= i < segments.len() ==> is_playable((#[trigger] segments[i]).data)
        }),
    decreases run.len(),
{
    if run.len() > 0 {
        lemma_segments_are_playable(m, run.drop_last());
        let (before, mid) = mux_all(m, run.drop_last());
        lemma_step_keeps_layout(mid, run.last());
    }
}

proof fn lemma_step_keeps_layout(m: MuxerState, next: TaggedFrame)
    requires
        has_layout(m),
    ensures
        ({
            let (segment, end) = mux_tagged(m, next);
            &&& has_layout(end)
            &&& segment matches Some(s) ==> is_playable(s.data)
        }),
{
    let frame = next.frame;
    let tagged = MuxerState { id3: next.tag, ..m };
    let rated = MuxerState { sample_rate: frame.sample_rate, ..tagged };
    let ready = prepared(tagged, frame);
    lemma_begin_lays_out(rated, frame.pts);
    assert(has_layout(ready));
    let audio = choose|audio: int| #[trigger]
        is_laid_out(ready.bytes, audio) && (audio < cut_packets(ready.bytes).0.len()) == (
        ready.frames > 0);
    if closes(ready, frame.pts) {
        let fresh_segment = begin(ready, frame.pts);
        lemma_begin_lays_out(ready, frame.pts);
        lemma_write_keeps_layout(
            fresh_segment,
            frame,
            cut_packets(fresh_segment.bytes).0.len() as int,
        );
    } else {
        lemma_write_keeps_layout(ready, frame, audio);
    }
}

/// A new muxer has its first segment still to lay out.
pub proof fn lemma_fresh_has_layout(target: u64)
    ensures
        has_layout(fresh(target)),
{
}

/// The tags that the segments of a run were opened with: those of the segments
/// that came out, and that of the one still being written.
pub open spec fn opening_tags(m: MuxerState, run: Seq<TaggedFrame>) -> (Seq<Seq<u8>>, Seq<u8>)
    decreases run.len(),
{
    if run.len() == 0 {
        (Seq::empty(), Seq::empty())
    } else {
        let mid = mux_all(m, run.drop_last()).1;
        let (tags, current) = opening_tags(m, run.drop_last());
        if mux_tagged(mid, run.last()).0 is Some {
            (tags.push(current), run.last().tag)
        } else if !mid.started {
            (tags, run.last().tag)
        } else {
            (tags, current)
        }
    }
}

/// A receiver gets out of each segment of a run the one tag that was set when
/// the segment was opened, and none where none was set.
pub proof fn lemma_segments_carry_their_tags(target: u64, run: Seq<TaggedFrame>)
    requires
        forall|i: int| 0 <= i < run.len() ==> tag_fits((#[trigger] run[i]).tag),
    ensures
        ({
            let (segments, end) = mux_all(fresh(target), run);
            let (tags, current) = opening_tags(fresh(target), run);
            &&& segments.len() == tags.len()
            &&& forall|i: int|
                0 <= i < segments.len() ==> stream_data((#[trigger] segments[i]).data, META_PID)
                    == metadata_for(tags[i])
            &&& stream_data(end.bytes, META_PID) == metadata_for(current)
            &&& is_sound(end)
        }),
    decreases run.len(),
{
    let m = fresh(target);
    if run.len() == 0 {
        assert(cut_packets(m.bytes).0 == Seq::<Seq<u8>>::empty());
        assert(stream_data(m.bytes, META_PID) =~= Seq::empty());
    } else {
        let earlier = run.drop_last();
        assert forall|i: int| 0 <= i < earlier.len() implies tag_fits(
            (#[trigger] earlier[i]).tag,
        ) by {
            assert(earlier[i] == run[i]);
        }
        lemma_segments_carry_their_tags(target, earlier);
        let (before, mid) = mux_all(m, earlier);
        let next = run.last();
        assert(tag_fits(run[run.len() - 1].tag));
        lemma_segment_carries_tag(MuxerState { id3: next.tag, ..mid }, next.frame);
    }
}

/// A segment is closed by the first frame at which its target length has
/// passed, and holds at least one frame.
pub proof fn lemma_segment_reaches_target(m: MuxerState, frame: FrameView)
    requires
        m.started,
    ensures
        mux(m, frame).0 is Some <==> m.frames > 0 && (frame.pts >= m.start + m.target || m.target
            == 0),
        mux(m, frame).0 matches Some(s) ==> s.duration.frames == m.frames as u32
            && s.duration.sample_rate == frame.sample_rate,
{
}


} // verus!
