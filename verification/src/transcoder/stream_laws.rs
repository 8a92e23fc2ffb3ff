//! What is read out of streams, held against how streams are written.
use super::adts::{
    cut_frames, header_of, lemma_complete_frame_comes_out, lemma_sync_from, rate_of_index,
    sync_from, AdtsState,
};
use super::demux::{
    announced_len, assemble, audio_data, audio_pid_of, cut_packets, demux_chunk, demux_packet,
    demux_packets, lemma_sync_byte_from, opens_pes, pmt_pid_of, sync_byte_from, DemuxState, PesState,
};
use super::frame::{frame_ticks, next_pts, FrameView};
use crate::hls::receiver::{assemble_all, held, lemma_assemble_concat, received};
use crate::hls::segment_laws::with_pid;
use crate::mpegts::{
    continuity_of, has_adaptation, has_payload, payload_of, payload_offset, pid_of, starts_unit,
};
use vstd::prelude::*;

verus! {

// ---------------------------------------------------------------------------
// Transport packets
// ---------------------------------------------------------------------------
/// A bit as a number.
pub open spec fn bit(b: bool) -> int {
    if b {
        1
    } else {
        0
    }
}

/// The four bytes that a transport packet opens with, field by field: the sync
/// byte; an error flag, the start flag, a priority flag and the identifier; two
/// bits of scrambling, the flags for an adaptation field and a payload, and the
/// counter.
pub open spec fn write_packet_header(
    error: bool,
    start: bool,
    priority: bool,
    pid: u16,
    scrambling: u8,
    adaptation: bool,
    payload: bool,
    counter: u8,
) -> Seq<u8> {
    seq![
        0x47u8,
        (bit(error) * 128 + bit(start) * 64 + bit(priority) * 32 + pid / 256) as u8,
        (pid % 256) as u8,
        (scrambling * 64 + bit(adaptation) * 32 + bit(payload) * 16 + counter) as u8,
    ]
}

/// The fields of a transport packet read back as they were written.
#[verifier::spinoff_prover]
#[verifier::rlimit(60)]
pub proof fn lemma_packet_fields_read_back(
    error: bool,
    start: bool,
    priority: bool,
    pid: u16,
    scrambling: u8,
    adaptation: bool,
    payload: bool,
    counter: u8,
    rest: Seq<u8>,
)
    requires
        pid < 0x2000,
        scrambling < 4,
        counter < 16,
    ensures
        ({
            let p = write_packet_header(
                error,
                start,
                priority,
                pid,
                scrambling,
                adaptation,
                payload,
                counter,
            ) + rest;
            &&& pid_of(p) == pid
            &&& starts_unit(p) == start
            &&& has_adaptation(p) == adaptation
            &&& has_payload(p) == payload
            &&& continuity_of(p) == counter
        }),
{
}

/// Whether a packet of 188 bytes carries a payload behind a header and an
/// adaptation field of any length, or none.
pub open spec fn is_carrier(packet: Seq<u8>, start: bool, payload: Seq<u8>) -> bool {
    &&& packet.len() == 188
    &&& 0 < payload.len()
    &&& exists|flags: Seq<u8>, field: Option<Seq<u8>>| #[trigger]
        carries(packet, flags, field, start, payload)
}

/// Whether a packet is a header with these flags, this adaptation field, and
/// the payload.
pub open spec fn carries(
    packet: Seq<u8>,
    flags: Seq<u8>,
    field: Option<Seq<u8>>,
    start: bool,
    payload: Seq<u8>,
) -> bool {
    &&& flags.len() == 3
    &&& ((flags[0] / 64) % 2 == 1) == start
    &&& (flags[2] / 16) % 2 == 1
    &&& ((flags[2] / 32) % 2 == 1) == (field is Some)
    &&& packet == seq![0x47u8] + flags + (match field {
        Some(f) => seq![f.len() as u8] + f,
        None => Seq::empty(),
    }) + payload
}

/// The payload of a packet reads back, behind an adaptation field of any
/// length.
#[verifier::spinoff_prover]
#[verifier::rlimit(60)]
pub proof fn lemma_payload_reads_back(packet: Seq<u8>, start: bool, payload: Seq<u8>)
    requires
        is_carrier(packet, start, payload),
    ensures
        payload_of(packet) == payload,
        packet.skip(payload_offset(packet)) == payload,
        payload_offset(packet) < 188,
        has_payload(packet),
        starts_unit(packet) == start,
{
    let (flags, field) = choose|flags: Seq<u8>, field: Option<Seq<u8>>| #[trigger]
        carries(packet, flags, field, start, payload);
    assert(packet[1] == flags[0]);
    assert(packet[3] == flags[2]);
    match field {
        Some(f) => {
            assert(packet[4] == f.len() as u8);
            assert(packet.skip(5 + f.len() as int) =~= payload);
        },
        None => {
            assert(packet.skip(4) =~= payload);
        },
    }
}

// ---------------------------------------------------------------------------
// PES packets
// ---------------------------------------------------------------------------
/// A PES packet, field by field: the start code, the stream, the length of the
/// rest or zero, two bytes of flags, the length of the optional fields, those,
/// and the data.
pub open spec fn write_pes(
    stream: u8,
    bounded: bool,
    flags: (u8, u8),
    fields: Seq<u8>,
    data: Seq<u8>,
) -> Seq<u8> {
    let length = if bounded {
        3 + fields.len() + data.len()
    } else {
        0
    };
    seq![
        0x00u8,
        0x00,
        0x01,
        stream,
        (length / 256) as u8,
        (length % 256) as u8,
        flags.0,
        flags.1,
        fields.len() as u8,
    ] + fields + data
}

/// The data of a PES packet stands behind its optional fields, however many
/// there are.
pub proof fn lemma_pes_data_reads_back(
    stream: u8,
    bounded: bool,
    flags: (u8, u8),
    fields: Seq<u8>,
    data: Seq<u8>,
)
    requires
        fields.len() < 256,
    ensures
        audio_data(write_pes(stream, bounded, flags, fields, data)) == data,
{
    let pes = write_pes(stream, bounded, flags, fields, data);
    assert(pes[8] == fields.len() as u8);
    assert(pes.skip(9 + fields.len() as int) =~= data);
}

/// The payloads of a run of packets, joined.
pub open spec fn joined(payloads: Seq<Seq<u8>>) -> Seq<u8>
    decreases payloads.len(),
{
    if payloads.len() == 0 {
        Seq::empty()
    } else {
        payloads[0] + joined(payloads.drop_first())
    }
}

#[verifier::spinoff_prover]
#[verifier::rlimit(60)]
proof fn lemma_payloads_are_collected(
    s: PesState,
    packets: Seq<Seq<u8>>,
    payloads: Seq<Seq<u8>>,
)
    requires
        packets.len() == payloads.len(),
        s.collecting,
        s.buf.len() > 0,
        packets.len() > 0,
        forall|i: int|
            0 <= i < packets.len() ==> is_carrier(#[trigger] packets[i], false, payloads[i]),
        s.buf.len() + joined(payloads).len() <= 262_144,
        s.expected_len == 0 || s.expected_len == s.buf.len() + joined(payloads).len(),
    ensures
        ({
            let (data, end) = assemble_all(s, packets);
            let all = s.buf + joined(payloads);
            &&& end.buf == all
            &&& end.collecting == (s.expected_len == 0)
            &&& data == if s.expected_len == 0 {
                Seq::empty()
            } else {
                seq![audio_data(all)]
            }
        }),
    decreases packets.len(),
{
    reveal_with_fuel(assemble_all, 2);
    let later = packets.drop_first();
    let later_payloads = payloads.drop_first();
    assert(is_carrier(packets[0], false, payloads[0]));
    lemma_payload_reads_back(packets[0], false, payloads[0]);
    let (data, next) = assemble(s, packets[0]);
    if later.len() == 0 {
        assert(joined(later_payloads) =~= Seq::empty());
        assert(joined(payloads) =~= payloads[0]);
        assert(seq![audio_data(s.buf + payloads[0])] + Seq::<Seq<u8>>::empty() =~= seq![
            audio_data(s.buf + payloads[0]),
        ]);
    } else {
        assert forall|i: int| 0 <= i < later.len() implies is_carrier(
            #[trigger] later[i],
            false,
            later_payloads[i],
        ) by {
            assert(is_carrier(packets[i + 1], false, payloads[i + 1]));
        }
        assert(is_carrier(packets[1], false, payloads[1]));
        assert(later_payloads[0] == payloads[1]);
        assert(joined(later_payloads).len() > 0);
        assert(data is None);
        assert(next.buf == s.buf + payloads[0]);
        assert(next.buf + joined(later_payloads) =~= s.buf + joined(payloads));
        lemma_payloads_are_collected(next, later, later_payloads);
    }
}

/// A PES packet that came in any number of transport packets, cut anywhere
/// behind its length field, comes out of reassembly with its data unaltered, at
/// its announced end or when the next one starts. What was being collected
/// before comes out first.
#[verifier::spinoff_prover]
#[verifier::rlimit(60)]
pub proof fn lemma_cut_pes_is_reassembled(
    s: PesState,
    packets: Seq<Seq<u8>>,
    payloads: Seq<Seq<u8>>,
    stream: u8,
    bounded: bool,
    flags: (u8, u8),
    fields: Seq<u8>,
    data: Seq<u8>,
)
    requires
        packets.len() == payloads.len(),
        packets.len() > 0,
        is_carrier(packets[0], true, payloads[0]),
        forall|i: int|
            0 < i < packets.len() ==> is_carrier(#[trigger] packets[i], false, payloads[i]),
        payloads[0].len() >= 6,
        joined(payloads) == write_pes(stream, bounded, flags, fields, data),
        fields.len() < 256,
        bounded ==> 3 + fields.len() + data.len() <= 0xFFFF,
        9 + fields.len() + data.len() <= 262_144,
    ensures
        received(s, packets) == held(s) + seq![data],
{
    reveal_with_fuel(assemble_all, 2);
    let pes = write_pes(stream, bounded, flags, fields, data);
    let first = payloads[0];
    let later = packets.drop_first();
    let later_payloads = payloads.drop_first();
    lemma_payload_reads_back(packets[0], true, first);
    lemma_pes_data_reads_back(stream, bounded, flags, fields, data);
    assert(joined(payloads) == first + joined(later_payloads));
    assert(first[0] == pes[0] && first[1] == pes[1] && first[2] == pes[2]);
    assert(first[4] == pes[4] && first[5] == pes[5]);
    assert(opens_pes(first));
    assert(announced_len(first) == if bounded {
        pes.len() as int
    } else {
        0
    });
    let (out, next) = assemble(s, packets[0]);
    assert(next.buf == first);
    if later.len() == 0 {
        assert(joined(later_payloads) =~= Seq::empty());
        assert(first =~= pes);
        assert(received(s, packets) =~= held(s) + seq![data]);
    } else {
        assert forall|i: int| 0 <= i < later.len() implies is_carrier(
            #[trigger] later[i],
            false,
            later_payloads[i],
        ) by {
            assert(is_carrier(packets[i + 1], false, payloads[i + 1]));
        }
        lemma_payloads_are_collected(next, later, later_payloads);
        assert(received(s, packets) =~= held(s) + seq![data]);
    }
}

// ---------------------------------------------------------------------------
// The demultiplexer
// ---------------------------------------------------------------------------
/// Once the audio stream is known, what comes out is what reassembly gets from
/// its packets alone, in order; packets of other streams are passed over, and
/// no later table changes which stream it is.
pub proof fn lemma_only_audio_is_assembled(s: DemuxState, packets: Seq<Seq<u8>>, audio: u16)
    requires
        s.audio_pid == Some(audio),
        s.pmt_pid is Some,
    ensures
        ({
            let (data, end) = demux_packets(s, packets);
            let (expected, pes) = assemble_all(s.pes, with_pid(packets, audio));
            &&& data == expected
            &&& end.pes == pes
            &&& end.audio_pid == Some(audio)
            &&& end.pmt_pid == s.pmt_pid
        }),
    decreases packets.len(),
{
    if packets.len() > 0 {
        let before = packets.drop_last();
        let last = packets.last();
        lemma_only_audio_is_assembled(s, before, audio);
        let (data, mid) = demux_packets(s, before);
        if pid_of(last) == audio {
            let seen = with_pid(before, audio);
            reveal_with_fuel(assemble_all, 2);
            lemma_assemble_concat(s.pes, seen, seq![last]);
            assert(seen + seq![last] =~= seen.push(last));
            assert(seq![last].drop_first() =~= Seq::<Seq<u8>>::empty());
            match assemble(mid.pes, last).0 {
                Some(d) => {
                    assert(seq![d] + Seq::<Seq<u8>>::empty() =~= seq![d]);
                    assert(data + seq![d] =~= data.push(d));
                },
                None => {
                    assert(data + Seq::<Seq<u8>>::empty() =~= data);
                },
            }
        }
    }
}

/// Which stream is the audio: a PAT in packets of identifier 0 gives the
/// packets of the map, and the map gives the stream. Until then no packet of
/// another identifier has any effect.
pub proof fn lemma_tables_lead_to_audio(s: DemuxState, pat: Seq<u8>, pmt: Seq<u8>, other: Seq<u8>)
    requires
        s.pmt_pid is None,
        s.audio_pid is None,
        pid_of(pat) == 0,
        pmt_pid_of(pat) matches Some(p) && p != 0 && p == pid_of(pmt),
        audio_pid_of(pmt) matches Some(a) && a != pid_of(pmt),
        pid_of(other) != 0,
    ensures
        demux_packet(s, other) == (None::<Seq<u8>>, s),
        ({
            let (nothing, found) = demux_packet(s, pat);
            let (still_nothing, end) = demux_packet(found, pmt);
            &&& nothing is None && still_nothing is None
            &&& found.pmt_pid == pmt_pid_of(pat)
            &&& end.pmt_pid == pmt_pid_of(pat)
            &&& end.audio_pid == audio_pid_of(pmt)
            &&& end.pes == s.pes
            &&& pid_of(other) != pid_of(pmt) ==> demux_packet(found, other) == (
                None::<Seq<u8>>,
                found,
            )
        }),
{
}

// ---------------------------------------------------------------------------
// ADTS
// ---------------------------------------------------------------------------
/// The fields of an ADTS header.
pub struct AdtsFields {
    pub mpeg2: bool,
    pub layer: u8,
    pub unprotected: bool,
    pub profile: u8,
    pub rate_index: u8,
    pub private: bool,
    pub channels: u8,
    pub copyright: u8,
    pub frame_length: u16,
    pub fullness: u16,
    pub blocks: u8,
}

/// Whether each field fits its bits.
pub open spec fn fit(f: AdtsFields) -> bool {
    &&& f.layer < 4
    &&& f.profile < 4
    &&& f.rate_index < 16
    &&& f.channels < 8
    &&& f.copyright < 16
    &&& f.frame_length < 0x2000
    &&& f.fullness < 0x800
    &&& f.blocks < 4
}

/// An ADTS header in bytes, field by field behind the twelve bits of the sync
/// word.
pub open spec fn write_adts(f: AdtsFields) -> Seq<u8> {
    seq![
        0xFFu8,
        (0xF0 + bit(f.mpeg2) * 8 + f.layer * 2 + bit(f.unprotected)) as u8,
        (f.profile * 64 + f.rate_index * 4 + bit(f.private) * 2 + f.channels / 4) as u8,
        ((f.channels % 4) * 64 + f.copyright * 4 + f.frame_length / 2048) as u8,
        ((f.frame_length / 8) % 256) as u8,
        ((f.frame_length % 8) * 32 + f.fullness / 64) as u8,
        ((f.fullness % 64) * 4 + f.blocks) as u8,
    ]
}

/// The fields of an ADTS header read back as they were written. A header is
/// refused exactly where its rate is reserved or its frame is shorter than
/// itself: seven bytes, nine with a checksum.
#[verifier::spinoff_prover]
#[verifier::rlimit(60)]
pub proof fn lemma_adts_reads_back(f: AdtsFields, rest: Seq<u8>)
    requires
        fit(f),
    ensures
        ({
            let own = if f.unprotected {
                7int
            } else {
                9
            };
            match header_of(write_adts(f) + rest) {
                Some(h) => {
                    &&& f.rate_index < 13
                    &&& f.frame_length >= own
                    &&& h.frame_length == f.frame_length
                    &&& h.header_length == own
                    &&& h.channel_config == f.channels
                    &&& Some(h.sample_rate) == rate_of_index(f.rate_index as int)
                },
                None => f.rate_index >= 13 || f.frame_length < own,
            }
        }),
{
    let b = write_adts(f) + rest;
    let (channels, length, index, profile) = (f.channels, f.frame_length, f.rate_index, f.profile);
    assert(b[1] == write_adts(f)[1] && b[2] == write_adts(f)[2] && b[3] == write_adts(f)[3]);
    assert(b[4] == write_adts(f)[4] && b[5] == write_adts(f)[5]);
    assert(b[2] % 2 == channels / 4);
    assert(b[3] / 64 == channels % 4);
    assert((b[2] as int / 4) % 16 == index);
    assert(b[3] % 4 == length / 2048);
    assert(b[5] / 32 == length % 8);
}

/// The sample rates that ADTS knows: three families, each halved from one to
/// the next, and 7350 behind them.
pub proof fn lemma_adts_rates()
    ensures
        rate_of_index(0) == Some(96000u32),
        rate_of_index(1) == Some(88200u32),
        rate_of_index(2) == Some(64000u32),
        forall|i: int|
            0 <= i < 9 ==> (#[trigger] rate_of_index(i) matches Some(r) && rate_of_index(i + 3)
                == Some((r / 2) as u32)),
        rate_of_index(12) == Some(7350u32),
        forall|i: int| i < 0 || i >= 13 ==> #[trigger] rate_of_index(i) is None,
{
    assert forall|i: int| 0 <= i < 9 implies (#[trigger] rate_of_index(i) matches Some(r)
        && rate_of_index(i + 3) == Some((r / 2) as u32)) by {
        assert(i == 0 || i == 1 || i == 2 || i == 3 || i == 4 || i == 5 || i == 6 || i == 7 || i
            == 8);
    }
}

/// Whether bytes are one whole ADTS frame at a sample rate.
pub open spec fn is_adts_frame(frame: Seq<u8>, sample_rate: u32) -> bool {
    exists|f: AdtsFields|
        {
            &&& fit(f)
            &&& frame.len() == f.frame_length
            &&& frame.len() >= if f.unprotected {
                7int
            } else {
                9
            }
            &&& frame.take(7) == #[trigger] write_adts(f)
            &&& rate_of_index(f.rate_index as int) == Some(sample_rate)
        }
}

/// A run of whole frames comes out frame by frame, each as it went in, with its
/// sample rate and the clock moved on by each before; no byte is left over.
#[verifier::spinoff_prover]
#[verifier::rlimit(60)]
pub proof fn lemma_frames_come_out(s: AdtsState, frames: Seq<Seq<u8>>, sample_rate: u32, i: int)
    requires
        forall|k: int|
            0 <= k < frames.len() ==> is_adts_frame(#[trigger] frames[k], sample_rate),
        s.pending == joined(frames),
        0 <= i < frames.len(),
    ensures
        ({
            let (out, end) = cut_frames(s);
            &&& out.len() == frames.len()
            &&& out[i].data == frames[i]
            &&& out[i].sample_rate == sample_rate
            &&& out[i].samples == 1024
            &&& out[0].pts == s.pts
            &&& i > 0 ==> out[i].pts == next_pts(out[i - 1].pts, sample_rate)
            &&& end.pending.len() == 0
        }),
    decreases frames.len(),
{
    let first = frames[0];
    let later = frames.drop_first();
    assert(is_adts_frame(first, sample_rate));
    let f = choose|f: AdtsFields|
        {
            &&& fit(f)
            &&& first.len() == f.frame_length
            &&& first.len() >= if f.unprotected {
                7int
            } else {
                9
            }
            &&& first.take(7) == #[trigger] write_adts(f)
            &&& rate_of_index(f.rate_index as int) == Some(sample_rate)
        };
    lemma_adts_reads_back(f, first.skip(7));
    assert(write_adts(f) + first.skip(7) =~= first);
    assert(f.rate_index < 13);
    lemma_complete_frame_comes_out(s, first, joined(later));
    let next = AdtsState {
        pending: joined(later),
        pts: next_pts(s.pts, sample_rate),
        sample_rate: if s.sample_rate == 0 {
            sample_rate
        } else {
            s.sample_rate
        },
    };
    assert forall|k: int| 0 <= k < later.len() implies is_adts_frame(
        #[trigger] later[k],
        sample_rate,
    ) by {
        assert(is_adts_frame(frames[k + 1], sample_rate));
    }
    if later.len() == 0 {
        assert(sync_from(next.pending, 0) is None);
    } else {
        lemma_frames_come_out(
            next,
            later,
            sample_rate,
            if i > 0 {
                i - 1
            } else {
                0
            },
        );
        if i > 1 {
            assert(later[i - 1] == frames[i]);
        }
    }
}

proof fn lemma_frame_opens(frame: Seq<u8>, sample_rate: u32)
    requires
        is_adts_frame(frame, sample_rate),
    ensures
        frame.len() >= 7,
        frame[0] == 0xFF,
        frame[1] >= 0xF0,
{
    assert(frame[0] == frame.take(7)[0] && frame[1] == frame.take(7)[1]);
}

/// Bytes before a frame among which none has all its bits set are dropped.
#[verifier::spinoff_prover]
#[verifier::rlimit(60)]
pub proof fn lemma_garbage_before_frame_is_dropped(
    s: AdtsState,
    garbage: Seq<u8>,
    frame: Seq<u8>,
    rest: Seq<u8>,
    sample_rate: u32,
)
    requires
        forall|i: int| 0 <= i < garbage.len() ==> #[trigger] garbage[i] != 0xFF,
        is_adts_frame(frame, sample_rate),
        s.pending == garbage + frame + rest,
    ensures
        cut_frames(s) == cut_frames(AdtsState { pending: frame + rest, ..s }),
{
    lemma_frame_opens(frame, sample_rate);
    let n = garbage.len() as int;
    let clean = frame + rest;
    assert(s.pending[n] == frame[0] && s.pending[n + 1] == frame[1]);
    lemma_sync_from(s.pending, 0);
    lemma_sync_from(clean, 0);
    match sync_from(s.pending, 0) {
        Some(at) => {
            if at < n {
                assert(s.pending[at] == garbage[at]);
            }
        },
        None => {},
    }
    assert(sync_from(s.pending, 0) == Some(n));
    assert(sync_from(clean, 0) == Some(0int));
    assert(s.pending.skip(n) =~= clean);
    assert(clean.skip(0) =~= clean);
}

/// A frame of 1024 samples moves the 90 kHz clock by its length in time, cut to
/// whole ticks.
pub proof fn lemma_frame_length_in_ticks(sample_rate: u32, pts: u64)
    requires
        sample_rate > 0,
        pts <= u64::MAX - 1024 * 90_000,
    ensures
        frame_ticks(sample_rate) * sample_rate <= 1024 * 90_000,
        (frame_ticks(sample_rate) + 1) * sample_rate > 1024 * 90_000,
        next_pts(pts, sample_rate) > pts || sample_rate > 1024 * 90_000,
        (next_pts(pts, sample_rate) - pts) * sample_rate <= 1024 * 90_000,
        (next_pts(pts, sample_rate) - pts + 1) * sample_rate > 1024 * 90_000,
{
    let rate = sample_rate as int;
    let ticks = 92_160_000int / rate;
    assert(0 <= ticks <= 92_160_000 && ticks * rate <= 92_160_000 && (ticks + 1) * rate
        > 92_160_000) by (nonlinear_arith)
        requires
            rate > 0,
            ticks == 92_160_000int / rate,
    ;
    assert(frame_ticks(sample_rate) == ticks);
    assert(next_pts(pts, sample_rate) == pts + ticks);
    if ticks == 0 {
        assert((ticks + 1) * rate == rate) by (nonlinear_arith)
            requires
                ticks == 0,
        ;
    }
}

// ---------------------------------------------------------------------------
// What is refused
// ---------------------------------------------------------------------------
/// Every header that is taken opens with twelve set bits: it is one that could
/// have been written.
pub proof fn lemma_header_is_adts(buf: Seq<u8>)
    ensures
        header_of(buf) is Some ==> buf.len() >= 7 && buf[0] == 0xFF && buf[1] >= 0xF0,
        buf.len() < 7 ==> header_of(buf) is None,
{
}

/// A frame is looked for where the first twelve set bits stand.
pub proof fn lemma_sync_is_twelve_bits(buf: Seq<u8>)
    ensures
        match sync_from(buf, 0) {
            Some(at) => {
                &&& 0 <= at < buf.len() - 1
                &&& buf[at] == 0xFF && buf[at + 1] >= 0xF0
                &&& forall|i: int|
                    0 <= i < at ==> (#[trigger] buf[i]) != 0xFF || buf[i + 1] < 0xF0
            },
            None => forall|i: int|
                0 <= i < buf.len() - 1 ==> (#[trigger] buf[i]) != 0xFF || buf[i + 1] < 0xF0,
        },
{
    lemma_sync_from(buf, 0);
}

/// A frame that is not whole stays, with its bytes, until more come.
#[verifier::spinoff_prover]
#[verifier::rlimit(60)]
pub proof fn lemma_partial_frame_waits(s: AdtsState, frame: Seq<u8>, n: int, sample_rate: u32)
    requires
        is_adts_frame(frame, sample_rate),
        2 <= n < frame.len(),
        s.pending == frame.take(n),
    ensures
        cut_frames(s) == (Seq::<FrameView>::empty(), s),
{
    let f = choose|f: AdtsFields|
        {
            &&& fit(f)
            &&& frame.len() == f.frame_length
            &&& frame.len() >= if f.unprotected {
                7int
            } else {
                9
            }
            &&& frame.take(7) == #[trigger] write_adts(f)
            &&& rate_of_index(f.rate_index as int) == Some(sample_rate)
        };
    assert(frame[0] == frame.take(7)[0] && frame[1] == frame.take(7)[1]);
    assert(s.pending[0] == frame[0] && s.pending[1] == frame[1]);
    lemma_sync_from(s.pending, 0);
    assert(sync_from(s.pending, 0) == Some(0int));
    assert(s.pending.skip(0) =~= s.pending);
    if n >= 7 {
        lemma_adts_reads_back(f, s.pending.skip(7));
        assert(write_adts(f) + s.pending.skip(7) =~= s.pending);
    }
}

/// What starts in a transport packet is collected where it opens with 00 00 01
/// and has its length field, and passed over where not. Either way what was
/// being collected is handed out.
pub proof fn lemma_start_is_collected(s: PesState, packet: Seq<u8>, payload: Seq<u8>)
    requires
        is_carrier(packet, true, payload),
    ensures
        ({
            let (out, next) = assemble(s, packet);
            let opens = payload.len() >= 6 && payload[0] == 0 && payload[1] == 0 && payload[2] == 1;
            &&& next.collecting == opens
            &&& opens ==> next.buf == payload
            &&& !opens ==> next.buf.len() == 0
            &&& out == if s.collecting && s.buf.len() > 0 {
                Some(audio_data(s.buf))
            } else {
                None
            }
        }),
{
    lemma_payload_reads_back(packet, true, payload);
}

/// What goes on in a transport packet is lost where nothing is being collected,
/// and where it makes more than 262144 bytes, all that was collected is dropped.
pub proof fn lemma_rest_is_bounded(s: PesState, packet: Seq<u8>, payload: Seq<u8>)
    requires
        is_carrier(packet, false, payload),
    ensures
        !s.collecting ==> assemble(s, packet) == (None::<Seq<u8>>, s),
        s.collecting && s.buf.len() + payload.len() > 262_144 ==> {
            let (out, next) = assemble(s, packet);
            out is None && !next.collecting && next.buf.len() == 0
        },
{
    lemma_payload_reads_back(packet, false, payload);
}

/// A packet without a payload has no effect on reassembly.
pub proof fn lemma_no_payload_no_effect(s: PesState, packet: Seq<u8>)
    requires
        packet.len() == 188,
        (packet[3] / 16) % 2 == 0,
    ensures
        assemble(s, packet) == (None::<Seq<u8>>, s),
{
}

/// Packets one behind the other are cut apart as they are, and what follows is
/// cut as if it had come alone.
pub proof fn lemma_packets_are_cut_apart(packets: Seq<Seq<u8>>, rest: Seq<u8>)
    requires
        forall|i: int|
            0 <= i < packets.len() ==> (#[trigger] packets[i]).len() == 188 && packets[i][0]
                == 0x47,
    ensures
        cut_packets(joined(packets) + rest) == (packets + cut_packets(rest).0, cut_packets(rest).1),
    decreases packets.len(),
{
    if packets.len() == 0 {
        assert(joined(packets) + rest =~= rest);
        assert(packets + cut_packets(rest).0 =~= cut_packets(rest).0);
    } else {
        let first = packets[0];
        let later = packets.drop_first();
        assert(packets[0].len() == 188 && packets[0][0] == 0x47);
        assert forall|i: int| 0 <= i < later.len() implies (#[trigger] later[i]).len() == 188
            && later[i][0] == 0x47 by {
            assert(later[i] == packets[i + 1]);
        }
        lemma_packets_are_cut_apart(later, rest);
        let all = joined(packets) + rest;
        assert(all =~= first + (joined(later) + rest));
        assert(all.take(188) =~= first);
        assert(all.skip(188) =~= joined(later) + rest);
        assert(seq![first] + (later + cut_packets(rest).0) =~= packets + cut_packets(rest).0);
    }
}

/// Bytes among which there is no sync byte are dropped before a packet.
pub proof fn lemma_garbage_before_packet_is_dropped(
    garbage: Seq<u8>,
    packet: Seq<u8>,
    rest: Seq<u8>,
)
    requires
        forall|i: int| 0 <= i < garbage.len() ==> #[trigger] garbage[i] != 0x47,
        packet.len() == 188,
        packet[0] == 0x47,
    ensures
        cut_packets(garbage + packet + rest) == cut_packets(packet + rest),
{
    let all = garbage + packet + rest;
    let n = garbage.len() as int;
    lemma_sync_byte_from(all, 0);
    assert(all[n] == 0x47);
    if n > 0 {
        assert(all[0] == garbage[0]);
        match sync_byte_from(all, 0) {
            Some(at) => {
                if at < n {
                    assert(all[at] == garbage[at]);
                }
            },
            None => {},
        }
        assert(all.skip(n) =~= packet + rest);
    } else {
        assert(all =~= packet + rest);
    }
}

/// Whole packets in one chunk are taken in one by one, and nothing of them is
/// left for the next chunk.
pub proof fn lemma_chunk_of_packets(s: DemuxState, packets: Seq<Seq<u8>>)
    requires
        s.pending.len() == 0,
        forall|i: int|
            0 <= i < packets.len() ==> (#[trigger] packets[i]).len() == 188 && packets[i][0]
                == 0x47,
    ensures
        demux_chunk(s, joined(packets)).0 == demux_packets(s, packets).0,
        demux_chunk(s, joined(packets)).1.pending.len() == 0,
        demux_chunk(s, joined(packets)).1.pes == demux_packets(s, packets).1.pes,
        demux_chunk(s, joined(packets)).1.audio_pid == demux_packets(s, packets).1.audio_pid,
        demux_chunk(s, joined(packets)).1.pmt_pid == demux_packets(s, packets).1.pmt_pid,
{
    let none = Seq::<u8>::empty();
    lemma_packets_are_cut_apart(packets, none);
    assert(joined(packets) + none =~= joined(packets));
    assert(s.pending + joined(packets) =~= joined(packets));
    assert(packets + cut_packets(none).0 =~= packets);
}

} // verus!
