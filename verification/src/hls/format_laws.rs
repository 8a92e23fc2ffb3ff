//! What is written into segments, held against how the formats are laid out.
use super::codes::{
    crc_byte, crc_of, crc_shift, crc_shifts, lemma_checksummed_data_has_crc_zero,
    lemma_pcr_round_trip, lemma_pts_round_trip, pcr_bytes, pts_bytes,
};
use super::muxer::{
    begin, closes, flushed, fresh, mux, prepared, write_frame, MuxerState,
};
use super::packets::{
    adaptation_field, audio_pes, metadata_pes, pat_section, payload_space, pmt_section, ts_packet,
    AUDIO_PID, META_PID, PAT_PID, PMT_PID,
};
use super::segment_laws::{
    is_sound, is_whole, lemma_append_packets, lemma_fresh_is_sound, lemma_segment_head, mux_all,
    mux_tagged, TaggedFrame,
};
use super::unit_laws::{lemma_step_carries_frame, stream_units};
use crate::mpegts::{continuity_of, has_adaptation};
use crate::transcoder::demux::cut_packets;
use crate::transcoder::frame::FrameView;
use crate::transcoder::stream_laws::write_pes;
use crate::transcoder::table_laws::{
    write_entries, write_entry, write_pat, write_pmt, write_programs, StreamEntry,
};
use vstd::arithmetic::div_mod::lemma_mod_multiples_basic;
use vstd::prelude::*;

verus! {

/// The association table names one program, 1, and puts its map into packets
/// 0x1000.
#[verifier::spinoff_prover]
#[verifier::rlimit(60)]
pub proof fn lemma_pat_layout()
    ensures
        pat_section().len() == 16,
        pat_section() == write_pat(
            seq![0x00u8, 0x01, 0xC1, 0x00, 0x00],
            seq![(1u16, 0x1000u16)],
            pat_section().skip(12),
        ),
        crc_of(pat_section()) == 0,
{
    let programs = seq![(1u16, 0x1000u16)];
    let fixed = seq![0x00u8, 0x01, 0xC1, 0x00, 0x00];
    let n = pat_section().len() - 4;
    let crc = pat_section().skip(n);
    assert(programs.drop_first() =~= Seq::empty());
    reveal_with_fuel(write_programs, 2);
    assert(write_programs(programs) =~= seq![0x00u8, 0x01, 0xF0, 0x00]);
    assert(pat_section() =~= write_pat(fixed, programs, crc));
    lemma_checksummed_data_has_crc_zero(pat_section().take(n));
    assert(pat_section().take(n) =~= seq![
        0x00u8, 0xB0, 0x0D, 0x00, 0x01, 0xC1, 0x00, 0x00, 0x00, 0x01, 0xF0, 0x00,
    ]);
}

/// The streams of a segment: AAC in packets 0x100, and, where there is
/// metadata, timed metadata in packets 0x150, registered as "ID3 ".
pub open spec fn segment_streams(metadata: bool) -> Seq<StreamEntry> {
    let audio = StreamEntry { kind: 0x0F, pid: 0x100, descriptors: Seq::empty() };
    let tags = StreamEntry {
        kind: 0x15,
        pid: 0x150,
        descriptors: seq![0x05u8, 0x04, 0x49, 0x44, 0x33, 0x20],
    };
    if metadata {
        seq![audio, tags]
    } else {
        seq![audio]
    }
}

/// The map lists the streams of a segment, and the audio carries the clock.
#[verifier::spinoff_prover]
#[verifier::rlimit(60)]
pub proof fn lemma_pmt_layout(metadata: bool)
    ensures
        pmt_section(metadata).len() > 4,
        pmt_section(metadata) == write_pmt(
            seq![0x00u8, 0x01, 0xC1, 0x00, 0x00],
            0x100,
            Seq::empty(),
            segment_streams(metadata),
            pmt_section(metadata).skip(pmt_section(metadata).len() - 4),
        ),
        crc_of(pmt_section(metadata)) == 0,
{
    let list = segment_streams(metadata);
    let fixed = seq![0x00u8, 0x01, 0xC1, 0x00, 0x00];
    let n = pmt_section(metadata).len() - 4;
    let crc = pmt_section(metadata).skip(n);
    reveal_with_fuel(write_entries, 3);
    let audio = seq![0x0Fu8, 0xE1, 0x00, 0xF0, 0x00];
    let tags = seq![0x15u8, 0xE1, 0x50, 0xF0, 0x06, 0x05, 0x04, 0x49, 0x44, 0x33, 0x20];
    assert(write_entry(list[0]) =~= audio);
    if metadata {
        assert(list.drop_first() =~= seq![list[1]]);
        assert(list.drop_first().drop_first() =~= Seq::empty());
        assert(write_entry(list[1]) =~= tags);
        assert(write_entries(list) =~= audio + tags);
    } else {
        assert(list.drop_first() =~= Seq::empty());
        assert(write_entries(list) =~= audio);
    }
    assert(pmt_section(metadata) =~= write_pmt(fixed, 0x100, Seq::empty(), list, crc));
    let body = pmt_section(metadata).take(n);
    lemma_checksummed_data_has_crc_zero(body);
    let length: u8 = if metadata {
        29
    } else {
        18
    };
    assert(body =~= seq![
        0x02u8, 0xB0, length, 0x00, 0x01, 0xC1, 0x00, 0x00, 0xE1, 0x00, 0xF0, 0x00,
    ] + audio + (if metadata {
        tags
    } else {
        Seq::empty()
    }));
}

/// Whether five bytes are a presentation timestamp: four bits 0010, then 3, 15
/// and 15 bits of it, each run closed by a set bit.
pub open spec fn is_timestamp(b: Seq<u8>, pts: int) -> bool {
    &&& b.len() == 5
    &&& b[0] / 16 == 2
    &&& b[0] % 2 == 1 && b[2] % 2 == 1 && b[4] % 2 == 1
    &&& ((b[0] / 2) % 8) * 0x4000_0000 + b[1] * 0x40_0000 + (b[2] / 2) * 0x8000 + b[3] * 0x80 + b[4]
        / 2 == pts
}

/// A frame goes into a PES packet of stream 0xC0 and a tag into one of stream
/// 0xBD, flagged as aligned. Both hold the low 33 bits of the timestamp and
/// nothing else before the data. Lengths are given where they fit sixteen bits;
/// that of a longer frame is left open.
#[verifier::spinoff_prover]
#[verifier::rlimit(60)]
pub proof fn lemma_pes_layout(data: Seq<u8>, pts: u64)
    ensures
        is_timestamp(pts_bytes(pts), pts as int % 0x2_0000_0000),
        audio_pes(data, pts) == write_pes(
            0xC0,
            data.len() + 8 <= 0xFFFF,
            (0x80, 0x80),
            pts_bytes(pts),
            data,
        ),
        data.len() + 8 <= 0xFFFF ==> metadata_pes(data, pts) == write_pes(
            0xBD,
            true,
            (0x84, 0x80),
            pts_bytes(pts),
            data,
        ),
        metadata_pes(data, pts).skip(6) == write_pes(
            0xBD,
            false,
            (0x84, 0x80),
            pts_bytes(pts),
            data,
        ).skip(6),
{
    lemma_pts_round_trip(pts);
    let a = write_pes(0xC0, data.len() + 8 <= 0xFFFF, (0x80, 0x80), pts_bytes(pts), data);
    assert(audio_pes(data, pts) =~= a);
    if data.len() + 8 <= 0xFFFF {
        assert(metadata_pes(data, pts) =~= write_pes(
            0xBD,
            true,
            (0x84, 0x80),
            pts_bytes(pts),
            data,
        ));
    }
    assert(metadata_pes(data, pts).skip(6) =~= write_pes(
        0xBD,
        false,
        (0x84, 0x80),
        pts_bytes(pts),
        data,
    ).skip(6));
}

/// A clock reference is 33 bits of the clock, six set bits, and an extension of
/// zero.
pub proof fn lemma_clock_layout(pcr: u64)
    ensures
        ({
            let b = pcr_bytes(pcr);
            &&& b.len() == 6
            &&& b[0] * 0x200_0000 + b[1] * 0x2_0000 + b[2] * 0x200 + b[3] * 2 + b[4] / 128 == pcr
                as int % 0x2_0000_0000
            &&& b[4] % 128 == 0x7E
            &&& b[5] == 0
        }),
{
    lemma_pcr_round_trip(pcr);
}

// ---------------------------------------------------------------------------
// The checksum
// ---------------------------------------------------------------------------
/// The checksum register after one more bit: where the bit that leaves it
/// differs from the one that comes, the generator is added.
pub open spec fn crc_bit(crc: u32, one: bool) -> u32 {
    let shifted = ((crc * 2) % 0x1_0000_0000) as u32;
    if (crc >= 0x8000_0000) != one {
        shifted ^ 0x04C1_1DB7
    } else {
        shifted
    }
}

/// What is left of a byte once its `n` highest bits are taken.
pub open spec fn bits_left(byte: u32, n: nat) -> u32
    decreases n,
{
    if n == 0 {
        byte
    } else {
        ((bits_left(byte, (n - 1) as nat) * 2) % 256) as u32
    }
}

/// The checksum register after the `n` highest bits of a byte, one by one.
pub open spec fn crc_bits(crc: u32, byte: u32, n: nat) -> u32
    decreases n,
{
    if n == 0 {
        crc
    } else {
        crc_bit(
            crc_bits(crc, byte, (n - 1) as nat),
            bits_left(byte, (n - 1) as nat) >= 0x80,
        )
    }
}

/// One bit of a byte at the top of the register does what it does as it comes.
proof fn lemma_crc_bit_step(crc: u32, byte: u32, one: bool)
    requires
        one == (byte >= 0x80),
        byte < 0x100,
    ensures
        crc_shift(crc ^ (byte << 24)) == crc_bit(crc, one) ^ (((byte * 2) % 256) as u32) << 24,
{
    let x = crc ^ (byte << 24);
    let shifted = ((crc * 2) % 0x1_0000_0000) as u32;
    let rest = ((byte * 2) % 256) as u32;
    assert(shifted == crc << 1) by {
        assert(crc << 1 == (crc * 2) % 0x1_0000_0000) by (bit_vector);
    }
    assert(rest == (byte << 1) & 0xFF) by {
        assert((byte << 1) & 0xFF == (byte * 2) % 256) by (bit_vector)
            requires
                byte < 0x100,
        ;
    }
    assert({
        let y = crc ^ (byte << 24);
        let r = (byte << 1) & 0xFF;
        &&& (y & 0x8000_0000 != 0) == ((crc >= 0x8000_0000) != (byte >= 0x80))
        &&& y << 1 == (crc << 1) ^ (r << 24)
        &&& (y << 1) ^ 0x04C1_1DB7 == ((crc << 1) ^ 0x04C1_1DB7) ^ (r << 24)
    }) by (bit_vector)
        requires
            byte < 0x100,
    ;
}

/// The checksum is CRC-32/MPEG-2: the register starts with all bits set, takes
/// each byte bit by bit, the highest first, and divides by 0x04C11DB7; nothing
/// is reflected or added at the end.
#[verifier::spinoff_prover]
#[verifier::rlimit(60)]
pub proof fn lemma_crc_takes_bits(data: Seq<u8>, byte: u8)
    ensures
        crc_of(Seq::empty()) == 0xFFFF_FFFF,
        crc_of(data.push(byte)) == crc_bits(crc_of(data), byte as u32, 8),
{
    let crc = crc_of(data);
    assert(data.push(byte).drop_last() =~= data);
    lemma_crc_steps(crc, byte as u32, 8);
    lemma_no_bits_left(byte as u32);
    let after = crc_bits(crc, byte as u32, 8);
    assert(after ^ (0u32 << 24) == after) by (bit_vector);
    assert(crc_byte(crc, byte) == after);
}

proof fn lemma_no_bits_left(byte: u32)
    requires
        byte < 0x100,
    ensures
        bits_left(byte, 8) == 0,
{
    lemma_one_bit_less(byte, 0, 1);
    lemma_one_bit_less(byte, 1, 2);
    lemma_one_bit_less(byte, 2, 4);
    lemma_one_bit_less(byte, 3, 8);
    lemma_one_bit_less(byte, 4, 16);
    lemma_one_bit_less(byte, 5, 32);
    lemma_one_bit_less(byte, 6, 64);
    lemma_one_bit_less(byte, 7, 128);
}

proof fn lemma_one_bit_less(byte: u32, n: nat, d: u32)
    requires
        d == 1 || d == 2 || d == 4 || d == 8 || d == 16 || d == 32 || d == 64 || d == 128,
        bits_left(byte, n) % d == 0,
        bits_left(byte, n) < 0x100,
    ensures
        bits_left(byte, n + 1) < 0x100,
        bits_left(byte, n + 1) as int % (2 * d) == 0,
{
    lemma_doubling(bits_left(byte, n) as int, d as int);
}

proof fn lemma_doubling(x: int, d: int)
    requires
        d == 1 || d == 2 || d == 4 || d == 8 || d == 16 || d == 32 || d == 64 || d == 128,
        x % d == 0,
        0 <= x < 0x100,
    ensures
        ((x * 2) % 256) % (2 * d) == 0,
{
    let q = x / d;
    let e = 128int / d;
    assert(x == d * q) by (nonlinear_arith)
        requires
            d > 0,
            q == x / d,
            x % d == 0,
    ;
    assert(d * e == 128);
    if x < 128 {
        assert(2 * x == q * (2 * d)) by (nonlinear_arith)
            requires
                x == d * q,
        ;
        lemma_mod_multiples_basic(q, 2 * d);
    } else {
        assert(2 * x - 256 == (q - e) * (2 * d)) by (nonlinear_arith)
            requires
                x == d * q,
                d * e == 128,
        ;
        lemma_mod_multiples_basic(q - e, 2 * d);
    }
}

proof fn lemma_crc_steps(crc: u32, byte: u32, n: nat)
    requires
        byte < 0x100,
    ensures
        bits_left(byte, n) < 0x100,
        crc_shifts(crc ^ (byte << 24), n) == crc_bits(crc, byte, n) ^ (bits_left(byte, n) << 24),
    decreases n,
{
    if n > 0 {
        let before = (n - 1) as nat;
        lemma_crc_steps(crc, byte, before);
        lemma_crc_bit_step(
            crc_bits(crc, byte, before),
            bits_left(byte, before),
            bits_left(byte, before) >= 0x80,
        );
    }
}

// ---------------------------------------------------------------------------
// The lengths of segments
// ---------------------------------------------------------------------------
/// What a muxer keeps while it takes in frames: it counts those of the segment
/// being written.
pub open spec fn counts_frames(m: MuxerState) -> bool {
    &&& is_sound(m)
    &&& m.frames == stream_units(m.bytes, AUDIO_PID).len()
}

#[verifier::spinoff_prover]
#[verifier::rlimit(60)]
proof fn lemma_step_counts_frames(m: MuxerState, next: TaggedFrame)
    requires
        counts_frames(m),
    ensures
        ({
            let (segment, end) = mux_tagged(m, next);
            &&& counts_frames(end)
            &&& segment matches Some(s) ==> s.data == m.bytes && s.duration.frames == m.frames
                as u32
        }),
{
    lemma_step_carries_frame(MuxerState { id3: next.tag, ..m }, next.frame);
}

/// The length that a segment of a run is said to have is that of the frames in
/// it, as many as 32 bits count.
pub proof fn lemma_segments_have_their_length(target: u64, run: Seq<TaggedFrame>)
    ensures
        ({
            let (segments, end) = mux_all(fresh(target), run);
            &&& counts_frames(end)
            &&& forall|i: int|
                0 <= i < segments.len() ==> (#[trigger] segments[i]).duration.frames
                    == stream_units(segments[i].data, AUDIO_PID).len() as u32
            &&& flushed(end).0 matches Some(s) ==> s.duration.frames == stream_units(
                s.data,
                AUDIO_PID,
            ).len() as u32
        }),
    decreases run.len(),
{
    if run.len() == 0 {
        lemma_fresh_is_sound(target);
        assert(stream_units(fresh(target).bytes, AUDIO_PID).len() == 0);
    } else {
        lemma_segments_have_their_length(target, run.drop_last());
        let mid = mux_all(fresh(target), run.drop_last()).1;
        lemma_step_counts_frames(mid, run.last());
    }
}

/// A segment starts with the frame that opens it, and its sample rate is that
/// of the frame that closes it. It is closed by the first frame that comes its
/// target length or more behind its start.
#[verifier::spinoff_prover]
#[verifier::rlimit(60)]
pub proof fn lemma_segment_runs_for_its_target(m: MuxerState, frame: FrameView)
    ensures
        ({
            let (segment, end) = mux(m, frame);
            &&& m.started ==> (segment is Some) == (m.frames > 0 && (frame.pts >= m.start + m.target
                || m.target == 0))
            &&& !m.started ==> segment is None
            &&& end.start == if segment is Some || !m.started {
                frame.pts
            } else {
                m.start
            }
            &&& segment matches Some(s) ==> s.duration.sample_rate == frame.sample_rate
            &&& end.target == m.target
            &&& end.started
        }),
{
}

/// The streams are in the packets that the tables say, and the tables in those
/// that receivers look for.
pub proof fn lemma_streams_are_where_tables_say()
    ensures
        PAT_PID == 0,
        PMT_PID == 0x1000,
        segment_streams(true)[0].pid == AUDIO_PID,
        segment_streams(true)[1].pid == META_PID,
        segment_streams(false)[0].pid == AUDIO_PID,
{
}

/// The length field of a metadata PES packet has the low sixteen bits of the
/// length of what follows it.
pub proof fn lemma_metadata_length(id3: Seq<u8>, pts: u64)
    ensures
        metadata_pes(id3, pts)[4] * 256 + metadata_pes(id3, pts)[5] == (metadata_pes(
            id3,
            pts,
        ).len() - 6) % 0x1_0000,
{
}

/// A packet that is not full is stuffed in its adaptation field: the field's
/// first byte is the length of the rest; its flags, where there is room, say
/// only whether there is a clock; and all that is left is set bits.
#[verifier::spinoff_prover]
#[verifier::rlimit(60)]
pub proof fn lemma_stuffing_is_set(
    pid: u16,
    starts: bool,
    cc: u8,
    pcr: Option<u64>,
    payload: Seq<u8>,
    i: int,
)
    requires
        payload.len() <= payload_space(pcr),
    ensures
        ({
            let p = ts_packet(pid, starts, cc, pcr, payload);
            let end = 188 - payload.len();
            &&& p.len() == 188
            &&& p[0] == 0x47
            &&& p[1] < 0x80
            &&& p[3] < 0x40
            &&& end > 4 ==> p[4] == end - 5 && has_adaptation(p)
            &&& end > 5 ==> p[5] == if pcr is Some {
                0x10u8
            } else {
                0x00u8
            }
            &&& pcr is None && 6 <= i < end ==> p[i] == 0xFF
            &&& pcr is Some && 12 <= i < end ==> p[i] == 0xFF
        }),
{
    let p = ts_packet(pid, starts, cc, pcr, payload);
    let field = adaptation_field(pcr, payload_space(pcr) - payload.len());
    let end = 188 - payload.len();
    assert(field.len() == end - 4);
    assert forall|k: int| 4 <= k < end implies #[trigger] p[k] == field[k - 4] by {}
    if end > 4 {
        assert(p[4] == field[0]);
    }
    if end > 5 {
        assert(p[5] == field[1]);
    }
    if 6 <= i < end {
        assert(p[i] == field[i - 4]);
    }
}

/// Whether the tables of a segment have a counter.
pub open spec fn tables_count(bytes: Seq<u8>, n: int) -> bool {
    let packets = cut_packets(bytes).0;
    &&& packets.len() >= 2
    &&& continuity_of(packets[0]) == n % 16
    &&& continuity_of(packets[1]) == n % 16
}

/// What a muxer keeps while it takes in frames, `n` segments being done: the
/// counters of both tables are those of the segment being written.
pub open spec fn tables_run(m: MuxerState, n: int) -> bool {
    &&& is_sound(m)
    &&& if m.started {
        &&& tables_count(m.bytes, n)
        &&& m.pat_cc == (n + 1) % 16
        &&& m.pmt_cc == (n + 1) % 16
    } else {
        n == 0 && m.pat_cc == 0 && m.pmt_cc == 0
    }
}

proof fn lemma_write_keeps_table_counters(m: MuxerState, frame: FrameView, n: int)
    requires
        is_whole(m.bytes),
        tables_count(m.bytes, n),
    ensures
        is_whole(write_frame(m, frame).bytes),
        tables_count(write_frame(m, frame).bytes, n),
{
    let pcr = if m.frames == 0 {
        Some(frame.pts)
    } else {
        None
    };
    let pes = audio_pes(frame.data, frame.pts);
    lemma_append_packets(m.bytes, pes, AUDIO_PID, m.audio_cc, pcr, META_PID);
    let before = cut_packets(m.bytes).0;
    let after = cut_packets(write_frame(m, frame).bytes).0;
    assert(after[0] == before[0] && after[1] == before[1]);
}

#[verifier::spinoff_prover]
#[verifier::rlimit(60)]
proof fn lemma_step_runs_tables(m: MuxerState, next: TaggedFrame, n: int)
    requires
        tables_run(m, n),
        n >= 0,
    ensures
        ({
            let (segment, end) = mux_tagged(m, next);
            &&& segment matches Some(s) ==> s.data == m.bytes && tables_count(s.data, n)
            &&& tables_run(
                end,
                if segment is Some {
                    n + 1
                } else {
                    n
                },
            )
        }),
{
    let frame = next.frame;
    let tagged = MuxerState { id3: next.tag, ..m };
    let rated = MuxerState { sample_rate: frame.sample_rate, ..tagged };
    let ready = prepared(tagged, frame);
    lemma_segment_head(rated, frame.pts);
    if closes(ready, frame.pts) {
        lemma_segment_head(ready, frame.pts);
        lemma_write_keeps_table_counters(begin(ready, frame.pts), frame, n + 1);
    } else {
        lemma_write_keeps_table_counters(ready, frame, n);
    }
}

/// The counters of both tables go up by one from segment to segment, from 0 on
/// and modulo sixteen.
pub proof fn lemma_table_counters_run(target: u64, run: Seq<TaggedFrame>)
    ensures
        ({
            let (segments, end) = mux_all(fresh(target), run);
            &&& forall|i: int|
                0 <= i < segments.len() ==> tables_count((#[trigger] segments[i]).data, i)
            &&& tables_run(end, segments.len() as int)
        }),
    decreases run.len(),
{
    if run.len() == 0 {
        lemma_fresh_is_sound(target);
    } else {
        lemma_table_counters_run(target, run.drop_last());
        let (before, mid) = mux_all(fresh(target), run.drop_last());
        lemma_step_runs_tables(mid, run.last(), before.len() as int);
    }
}

} // verus!
