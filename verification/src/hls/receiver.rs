//! What a receiver reads back from the segments that the muxer writes.
use super::codes::pcr_bytes;
use super::packets::{
    adaptation_field, audio_pes, metadata_pes, next_cc, packet_header, payload_space, pes_packets,
    ts_packet,
};
use crate::mpegts::{
    continuity_of, has_clock, has_payload, payload_of, payload_offset, pid_of, starts_unit,
    SYNC_BYTE,
};
use crate::transcoder::demux::{
    announced_len, assemble, audio_data, cut_packets, opens_pes, PesState, MAX_PES_SIZE,
};
use vstd::prelude::*;

verus! {

/// A written packet reads back as what it was written for: its identifier,
/// its flags, its counter and its payload.
pub proof fn lemma_packet_reads_back(
    pid: u16,
    starts: bool,
    cc: u8,
    pcr: Option<u64>,
    payload: Seq<u8>,
)
    requires
        pid < 0x2000,
        payload.len() <= payload_space(pcr),
    ensures
        ({
            let p = ts_packet(pid, starts, cc, pcr, payload);
            &&& p.len() == 188
            &&& p[0] == SYNC_BYTE
            &&& pid_of(p) == pid
            &&& starts_unit(p) == starts
            &&& continuity_of(p) == cc as int % 16
            &&& has_payload(p)
            &&& payload_offset(p) == 188 - payload.len()
            &&& p.skip(payload_offset(p)) == payload
            &&& payload_of(p) == payload
        }),
{
    let p = ts_packet(pid, starts, cc, pcr, payload);
    let field = adaptation_field(pcr, payload_space(pcr) - payload.len());
    let header = packet_header(pid, starts, field.len() > 0, cc);
    assert(p == header + field + payload);
    assert(p[1] == header[1]);
    assert(p[2] == header[2]);
    assert(p[3] == header[3]);
    if field.len() > 0 {
        assert(p[4] == field[0]);
    }
    assert(p.skip(188 - payload.len()) =~= payload);
}

/// A packet written with a clock reference holds it behind its flag.
pub proof fn lemma_clock_reads_back(pid: u16, starts: bool, cc: u8, clock: u64, payload: Seq<u8>)
    requires
        payload.len() <= payload_space(Some(clock)),
    ensures
        ({
            let p = ts_packet(pid, starts, cc, Some(clock), payload);
            &&& p[5] == 0x10
            &&& p.subrange(6, 12) == pcr_bytes(clock)
        }),
{
    let p = ts_packet(pid, starts, cc, Some(clock), payload);
    let field = adaptation_field(Some(clock), payload_space(Some(clock)) - payload.len());
    assert(p[5] == field[1]);
    assert(p.subrange(6, 12) =~= pcr_bytes(clock));
}

/// A packet has a clock reference exactly where it was written with one.
pub proof fn lemma_clock_is_where_written(
    pid: u16,
    starts: bool,
    cc: u8,
    pcr: Option<u64>,
    payload: Seq<u8>,
)
    requires
        payload.len() <= payload_space(pcr),
    ensures
        has_clock(ts_packet(pid, starts, cc, pcr, payload)) == (pcr is Some),
{
    let p = ts_packet(pid, starts, cc, pcr, payload);
    let field = adaptation_field(pcr, payload_space(pcr) - payload.len());
    let header = packet_header(pid, starts, field.len() > 0, cc);
    assert(p == header + field + payload);
    assert(p[3] == header[3]);
    if field.len() > 0 {
        assert(p[4] == field[0]);
        if field.len() > 1 {
            assert(p[5] == field[1]);
        }
    }
}

/// Of the packets that carry a PES packet only the first can have a clock
/// reference, and has one exactly where one was to be written.
pub proof fn lemma_clock_is_in_first_packet(
    pes: Seq<u8>,
    pid: u16,
    starts: bool,
    cc: u8,
    pcr: Option<u64>,
    k: int,
)
    requires
        0 <= k < packet_list(pes, pid, starts, cc, pcr).len(),
    ensures
        has_clock(packet_list(pes, pid, starts, cc, pcr)[k]) == (k == 0 && pcr is Some),
    decreases pes.len(),
{
    let n = payload_space(pcr);
    if pes.len() <= n {
        lemma_clock_is_where_written(pid, starts, cc, pcr, pes);
    } else {
        lemma_clock_is_where_written(pid, starts, cc, pcr, pes.take(n));
        if k > 0 {
            lemma_clock_is_in_first_packet(pes.skip(n), pid, false, next_cc(cc), None, k - 1);
            assert(packet_list(pes, pid, starts, cc, pcr)[k] == packet_list(
                pes.skip(n),
                pid,
                false,
                next_cc(cc),
                None,
            )[k - 1]);
        }
    }
}

/// The packets that carry `pes`, one by one.
pub open spec fn packet_list(pes: Seq<u8>, pid: u16, starts: bool, cc: u8, pcr: Option<u64>) -> Seq<
    Seq<u8>,
>
    decreases pes.len(),
{
    if pes.len() == 0 {
        Seq::empty()
    } else if pes.len() <= payload_space(pcr) {
        seq![ts_packet(pid, starts, cc, pcr, pes)]
    } else {
        seq![ts_packet(pid, starts, cc, pcr, pes.take(payload_space(pcr)))] + packet_list(
            pes.skip(payload_space(pcr)),
            pid,
            false,
            next_cc(cc),
            None,
        )
    }
}

/// Cutting written packets out of a stream gives them one by one.
pub proof fn lemma_packets_are_cut(
    pes: Seq<u8>,
    pid: u16,
    starts: bool,
    cc: u8,
    pcr: Option<u64>,
    rest: Seq<u8>,
)
    requires
        pid < 0x2000,
    ensures
        cut_packets(pes_packets(pes, pid, starts, cc, pcr) + rest) == (
            packet_list(pes, pid, starts, cc, pcr) + cut_packets(rest).0,
            cut_packets(rest).1,
        ),
        pes_packets(pes, pid, starts, cc, pcr).len() == 188 * packet_list(
            pes,
            pid,
            starts,
            cc,
            pcr,
        ).len(),
    decreases pes.len(),
{
    let list = packet_list(pes, pid, starts, cc, pcr);
    if pes.len() == 0 {
        assert(pes_packets(pes, pid, starts, cc, pcr) + rest == rest);
        assert(list + cut_packets(rest).0 == cut_packets(rest).0);
    } else if pes.len() <= payload_space(pcr) {
        lemma_packet_reads_back(pid, starts, cc, pcr, pes);
        let p = ts_packet(pid, starts, cc, pcr, pes);
        assert((p + rest).take(188) == p);
        assert((p + rest).skip(188) == rest);
    } else {
        let n = payload_space(pcr);
        lemma_packet_reads_back(pid, starts, cc, pcr, pes.take(n));
        lemma_packets_are_cut(pes.skip(n), pid, false, next_cc(cc), None, rest);
        let p = ts_packet(pid, starts, cc, pcr, pes.take(n));
        let later = pes_packets(pes.skip(n), pid, false, next_cc(cc), None);
        let later_list = packet_list(pes.skip(n), pid, false, next_cc(cc), None);
        assert(p + later + rest =~= p + (later + rest));
        assert((p + (later + rest)).take(188) == p);
        assert((p + (later + rest)).skip(188) == later + rest);
        assert(seq![p] + (later_list + cut_packets(rest).0) =~= list + cut_packets(rest).0);
    }
}

/// The counter of the packets of one PES packet rises by one from each to the
/// next, modulo sixteen.
pub proof fn lemma_counters_are_consecutive(
    pes: Seq<u8>,
    pid: u16,
    starts: bool,
    cc: u8,
    pcr: Option<u64>,
    k: int,
)
    requires
        pid < 0x2000,
        0 <= k < packet_list(pes, pid, starts, cc, pcr).len(),
    ensures
        continuity_of(packet_list(pes, pid, starts, cc, pcr)[k]) == (cc + k) % 16,
        pid_of(packet_list(pes, pid, starts, cc, pcr)[k]) == pid,
        starts_unit(packet_list(pes, pid, starts, cc, pcr)[k]) == (starts && k == 0),
    decreases pes.len(),
{
    if pes.len() <= payload_space(pcr) {
        lemma_packet_reads_back(pid, starts, cc, pcr, pes);
    } else {
        let n = payload_space(pcr);
        lemma_packet_reads_back(pid, starts, cc, pcr, pes.take(n));
        if k > 0 {
            lemma_counters_are_consecutive(pes.skip(n), pid, false, next_cc(cc), None, k - 1);
            assert(packet_list(pes, pid, starts, cc, pcr)[k] == packet_list(
                pes.skip(n),
                pid,
                false,
                next_cc(cc),
                None,
            )[k - 1]);
        }
    }
}

// ---------------------------------------------------------------------------
// Reassembly
// ---------------------------------------------------------------------------
/// Feeds a run of packets to PES reassembly, and gathers what it yields.
pub open spec fn assemble_all(s: PesState, packets: Seq<Seq<u8>>) -> (Seq<Seq<u8>>, PesState)
    decreases packets.len(),
{
    if packets.len() == 0 {
        (Seq::empty(), s)
    } else {
        let (data, next) = assemble(s, packets[0]);
        let (later, end) = assemble_all(next, packets.drop_first());
        match data {
            Some(d) => (seq![d] + later, end),
            None => (later, end),
        }
    }
}

/// The data of the PES packet still being collected, which the start of the
/// next one would yield.
pub open spec fn held(s: PesState) -> Seq<Seq<u8>> {
    if s.collecting && s.buf.len() > 0 {
        seq![audio_data(s.buf)]
    } else {
        Seq::empty()
    }
}

/// Everything that reassembly gets out of a run of packets once the next unit
/// starts.
pub open spec fn received(s: PesState, packets: Seq<Seq<u8>>) -> Seq<Seq<u8>> {
    let (data, end) = assemble_all(s, packets);
    data + held(end)
}

pub(crate) proof fn lemma_assemble_concat(s: PesState, p: Seq<Seq<u8>>, q: Seq<Seq<u8>>)
    ensures
        ({
            let (data1, mid) = assemble_all(s, p);
            let (data2, end) = assemble_all(mid, q);
            assemble_all(s, p + q) == (data1 + data2, end)
        }),
    decreases p.len(),
{
    if p.len() == 0 {
        assert(p + q == q);
        let (data2, end) = assemble_all(s, q);
        assert(Seq::<Seq<u8>>::empty() + data2 == data2);
    } else {
        assert((p + q).drop_first() == p.drop_first() + q);
        let (d, next) = assemble(s, p[0]);
        lemma_assemble_concat(next, p.drop_first(), q);
        let (data1, mid) = assemble_all(next, p.drop_first());
        let (data2, end) = assemble_all(mid, q);
        match d {
            Some(x) => {
                assert(seq![x] + (data1 + data2) == (seq![x] + data1) + data2);
            },
            None => {},
        }
    }
}

/// Continuation packets add their payloads to what is being collected. The
/// data comes out as soon as the announced length is reached.
proof fn lemma_collect(s: PesState, rest: Seq<u8>, pid: u16, cc: u8)
    requires
        pid < 0x2000,
        s.collecting,
        s.buf.len() + rest.len() <= MAX_PES_SIZE,
        s.expected_len == 0 || s.expected_len == s.buf.len() + rest.len(),
        s.buf.len() > 0,
        rest.len() > 0,
    ensures
        ({
            let (data, end) = assemble_all(s, packet_list(rest, pid, false, cc, None));
            &&& end.buf == s.buf + rest
            &&& end.collecting == (s.expected_len == 0)
            &&& data == if s.expected_len == 0 {
                Seq::empty()
            } else {
                seq![audio_data(s.buf + rest)]
            }
        }),
    decreases rest.len(),
{
    reveal_with_fuel(assemble_all, 2);
    let list = packet_list(rest, pid, false, cc, None);
    if rest.len() <= 184 {
        lemma_packet_reads_back(pid, false, cc, None, rest);
        assert(list.drop_first() == Seq::<Seq<u8>>::empty());
        assert(seq![audio_data(s.buf + rest)] + Seq::<Seq<u8>>::empty() =~= seq![
            audio_data(s.buf + rest),
        ]);
    } else {
        lemma_packet_reads_back(pid, false, cc, None, rest.take(184));
        let later = packet_list(rest.skip(184), pid, false, next_cc(cc), None);
        assert(list.drop_first() =~= later);
        let (data, next) = assemble(s, list[0]);
        assert(next.buf == s.buf + rest.take(184));
        assert(data is None);
        assert(next.buf + rest.skip(184) =~= s.buf + rest);
        lemma_collect(next, rest.skip(184), pid, next_cc(cc));
    }
}

/// Whether a PES packet is one that reassembly takes as a whole: it opens with
/// a start code, announces its own length or none, and is not too long.
pub open spec fn is_whole_pes(pes: Seq<u8>) -> bool {
    &&& 9 <= pes.len() <= MAX_PES_SIZE
    &&& opens_pes(pes)
    &&& announced_len(pes) == 0 || announced_len(pes) == pes.len()
}

/// What the packets of one PES packet do to reassembly: what was being
/// collected comes out first, and then the data of this PES packet, at its
/// end or when the next unit starts.
pub proof fn lemma_pes_is_received(
    s: PesState,
    pes: Seq<u8>,
    pid: u16,
    cc: u8,
    pcr: Option<u64>,
)
    requires
        pid < 0x2000,
        is_whole_pes(pes),
    ensures
        received(s, packet_list(pes, pid, true, cc, pcr)) == held(s) + seq![audio_data(pes)],
{
    reveal_with_fuel(assemble_all, 2);
    let list = packet_list(pes, pid, true, cc, pcr);
    let n = payload_space(pcr);
    if pes.len() <= n {
        lemma_packet_reads_back(pid, true, cc, pcr, pes);
        assert(list.drop_first() == Seq::<Seq<u8>>::empty());
        assert(received(s, list) =~= held(s) + seq![audio_data(pes)]);
    } else {
        let head = pes.take(n);
        lemma_packet_reads_back(pid, true, cc, pcr, head);
        let later = packet_list(pes.skip(n), pid, false, next_cc(cc), None);
        assert(list.drop_first() =~= later);
        let (data, next) = assemble(s, list[0]);
        assert(opens_pes(head));
        assert(announced_len(head) == announced_len(pes));
        assert(next.buf == head);
        assert(next.buf + pes.skip(n) =~= pes);
        lemma_collect(next, pes.skip(n), pid, next_cc(cc));
        assert(received(s, list) =~= held(s) + seq![audio_data(pes)]);
    }
}

/// The audio PES packet around a frame holds the frame, and is one that a
/// receiver takes whole as long as it is not too long.
pub proof fn lemma_audio_pes_holds_frame(data: Seq<u8>, pts: u64)
    ensures
        audio_data(audio_pes(data, pts)) == data,
        data.len() + 14 <= MAX_PES_SIZE ==> is_whole_pes(audio_pes(data, pts)),
{
    let pes = audio_pes(data, pts);
    assert(pes[8] == 5);
    assert(audio_data(pes) =~= data);
}

/// Whether the length field of the metadata PES packet around a tag is true:
/// the length fits, or its low sixteen bits are zero, which a receiver takes
/// as unbounded.
pub open spec fn tag_fits(id3: Seq<u8>) -> bool {
    ||| id3.len() + 8 <= 0xFFFF
    ||| (id3.len() + 8) % 0x1_0000 == 0 && id3.len() + 14 <= MAX_PES_SIZE
}

/// The metadata PES packet around a tag holds the tag, and is one that a
/// receiver takes whole as long as its length field is true.
pub proof fn lemma_metadata_pes_holds_tag(id3: Seq<u8>, pts: u64)
    ensures
        audio_data(metadata_pes(id3, pts)) == id3,
        tag_fits(id3) ==> is_whole_pes(metadata_pes(id3, pts)),
{
    let pes = metadata_pes(id3, pts);
    assert(pes[8] == 5);
    assert(audio_data(pes) =~= id3);
}

} // verus!
