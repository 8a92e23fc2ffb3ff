//! The byte layout of what a segment is made of: transport packets, the PAT
//! and PMT sections, and PES packets.
use super::codes::{
    be_bytes, crc32_mpeg2, crc_of, encode_pts, pcr_bytes, pts_bytes, push_be_bytes, write_pcr,
};
use crate::buffers::append_bytes;
use crate::mpegts::SYNC_BYTE;
use vstd::prelude::*;
use vstd::slice::slice_subrange;

verus! {

/// The packets of the program association table.
pub const PAT_PID: u16 = 0x0000;

/// The packets of the program map table.
pub const PMT_PID: u16 = 0x1000;

/// The packets of the audio stream.
pub const AUDIO_PID: u16 = 0x0100;

/// The packets of the metadata stream.
pub const META_PID: u16 = 0x0150;

// ---------------------------------------------------------------------------
// Transport packets
// ---------------------------------------------------------------------------
/// The four bytes that every packet opens with.
pub open spec fn packet_header(pid: u16, starts: bool, adaptation: bool, cc: u8) -> Seq<u8> {
    seq![
        SYNC_BYTE,
        ((if starts {
            0x40int
        } else {
            0
        }) + (pid / 256) % 32) as u8,
        (pid % 256) as u8,
        ((if adaptation {
            0x30int
        } else {
            0x10
        }) + cc % 16) as u8,
    ]
}

/// `n` stuffing bytes.
pub open spec fn filler(n: int) -> Seq<u8> {
    Seq::new(n as nat, |i: int| 0xFFu8)
}

/// An adaptation field that holds a clock reference, if one is given, and
/// makes the packet `stuffing` bytes longer. Its first byte is the length of
/// the rest, its second byte holds the flags; a field of one byte has no
/// flags, and where there is nothing to hold there is no field.
pub open spec fn adaptation_field(pcr: Option<u64>, stuffing: int) -> Seq<u8> {
    match pcr {
        Some(clock) => seq![(7 + stuffing) as u8, 0x10] + pcr_bytes(clock) + filler(stuffing),
        None => if stuffing <= 0 {
            Seq::empty()
        } else if stuffing == 1 {
            seq![0x00]
        } else {
            seq![(stuffing - 1) as u8, 0x00] + filler(stuffing - 2)
        },
    }
}

/// How many payload bytes fit into a packet.
pub open spec fn payload_space(pcr: Option<u64>) -> int {
    if pcr is Some {
        176
    } else {
        184
    }
}

/// One packet around a payload, stuffed to full size.
pub open spec fn ts_packet(
    pid: u16,
    starts: bool,
    cc: u8,
    pcr: Option<u64>,
    payload: Seq<u8>,
) -> Seq<u8> {
    let field = adaptation_field(pcr, payload_space(pcr) - payload.len());
    packet_header(pid, starts, field.len() > 0, cc) + field + payload
}

/// The continuity counter of the next packet.
pub open spec fn next_cc(cc: u8) -> u8 {
    ((cc + 1) % 16) as u8
}

/// The packets that carry `pes`. The first one starts a unit if `starts`, and
/// holds the clock reference if there is one; each is filled before the next
/// begins, and the counter rises by one from packet to packet.
pub open spec fn pes_packets(pes: Seq<u8>, pid: u16, starts: bool, cc: u8, pcr: Option<u64>) -> Seq<
    u8,
>
    decreases pes.len(),
{
    if pes.len() == 0 {
        Seq::empty()
    } else if pes.len() <= payload_space(pcr) {
        ts_packet(pid, starts, cc, pcr, pes)
    } else {
        ts_packet(pid, starts, cc, pcr, pes.take(payload_space(pcr))) + pes_packets(
            pes.skip(payload_space(pcr)),
            pid,
            false,
            next_cc(cc),
            None,
        )
    }
}

/// The counter after `n` packets.
pub open spec fn cc_after(cc: u8, n: int) -> u8 {
    ((cc + n) % 16) as u8
}

/// Steps the continuity counter.
pub(crate) fn step_cc(cc: u8) -> (r: u8)
    ensures
        r == next_cc(cc),
{
    if cc % 16 == 15 {
        0
    } else {
        cc % 16 + 1
    }
}

fn push_filler(out: &mut Vec<u8>, n: usize)
    ensures
        final(out)@ == old(out)@ + filler(n as int),
{
    let mut i: usize = 0;
    while i < n
        invariant
            i <= n,
            out@ =~= old(out)@ + filler(i as int),
        decreases n - i,
    {
        out.push(0xFF);
        i += 1;
    }
}

/// Appends one packet.
pub(crate) fn push_packet(
    out: &mut Vec<u8>,
    pid: u16,
    starts: bool,
    cc: u8,
    pcr: Option<u64>,
    payload: &[u8],
)
    requires
        payload@.len() <= payload_space(pcr),
    ensures
        final(out)@ == old(out)@ + ts_packet(pid, starts, cc, pcr, payload@),
{
    let ghost before = out@;
    let space: usize = if pcr.is_some() {
        176
    } else {
        184
    };
    let stuffing: usize = space - payload.len();
    let adaptation = pcr.is_some() || stuffing > 0;
    let ghost field = adaptation_field(pcr, stuffing as int);
    assert(adaptation == (field.len() > 0));

    out.push(SYNC_BYTE);
    out.push(
        (if starts {
            0x40u8
        } else {
            0
        }) + ((pid / 256) % 32) as u8,
    );
    out.push((pid % 256) as u8);
    out.push(
        (if adaptation {
            0x30u8
        } else {
            0x10
        }) + cc % 16,
    );
    assert(out@ =~= before + packet_header(pid, starts, adaptation, cc));
    let ghost headed = out@;
    match pcr {
        Some(clock) => {
            out.push((7 + stuffing) as u8);
            out.push(0x10);
            write_pcr(out, clock);
            push_filler(out, stuffing);
        },
        None => if stuffing == 1 {
            out.push(0x00);
        } else if stuffing > 1 {
            out.push((stuffing - 1) as u8);
            out.push(0x00);
            push_filler(out, stuffing - 2);
        },
    }
    assert(out@ =~= headed + field);
    append_bytes(out, payload);
    assert(out@ =~= before + ts_packet(pid, starts, cc, pcr, payload@));
}

/// Appends the packets that carry `pes`, and returns the counter after them.
pub(crate) fn push_pes(out: &mut Vec<u8>, pes: &[u8], pid: u16, first_cc: u8, pcr: Option<u64>) -> (r:
    u8)
    ensures
        final(out)@ == old(out)@ + pes_packets(pes@, pid, true, first_cc, pcr),
        pes@.len() > 0 ==> r == cc_after(
            first_cc,
            pes_packets(pes@, pid, true, first_cc, pcr).len() as int / 188,
        ),
        pes@.len() == 0 ==> r == first_cc,
{
    let ghost before = out@;
    let ghost all = pes_packets(pes@, pid, true, first_cc, pcr);
    let mut offset: usize = 0;
    let mut starts: bool = true;
    let mut cc: u8 = first_cc;
    let mut clock: Option<u64> = pcr;
    let ghost mut written: int = 0;
    assert(pes@.skip(0) == pes@);
    assert(before + all == before + all);
    while offset < pes.len()
        invariant
            offset <= pes@.len(),
            before + all == out@ + pes_packets(pes@.skip(offset as int), pid, starts, cc, clock),
            written >= 0,
            all.len() == written * 188 + pes_packets(
                pes@.skip(offset as int),
                pid,
                starts,
                cc,
                clock,
            ).len(),
            written == 0 ==> cc == first_cc && offset == 0,
            written > 0 ==> cc == cc_after(first_cc, written),
        decreases pes@.len() - offset,
    {
        let ghost rest = pes@.skip(offset as int);
        let space: usize = if clock.is_some() {
            176
        } else {
            184
        };
        let remaining: usize = pes.len() - offset;
        let payload_len: usize = if remaining < space {
            remaining
        } else {
            space
        };
        let payload: &[u8] = slice_subrange(pes, offset, offset + payload_len);
        assert(payload@ == rest.take(payload_len as int));
        assert(rest.skip(payload_len as int) == pes@.skip(offset + payload_len));
        proof {
            lemma_packet_size(pid, starts, cc, clock, payload@);
            if remaining <= space {
                assert(rest.take(payload_len as int) == rest);
                assert(pes@.skip(offset + payload_len).len() == 0);
            }
        }
        push_packet(out, pid, starts, cc, clock, payload);
        assert(before + all =~= out@ + pes_packets(
            pes@.skip(offset + payload_len),
            pid,
            false,
            next_cc(cc),
            None,
        ));
        offset += payload_len;
        cc = step_cc(cc);
        starts = false;
        clock = None;
        proof {
            written = written + 1;
        }
    }
    assert(pes@.skip(offset as int).len() == 0);
    assert(out@ =~= before + all);
    cc
}

/// Every packet has 188 bytes.
pub proof fn lemma_packet_size(
    pid: u16,
    starts: bool,
    cc: u8,
    pcr: Option<u64>,
    payload: Seq<u8>,
)
    requires
        payload.len() <= payload_space(pcr),
    ensures
        ts_packet(pid, starts, cc, pcr, payload).len() == 188,
{
}

// ---------------------------------------------------------------------------
// Sections
// ---------------------------------------------------------------------------
/// A table section with its checksum.
pub open spec fn checksummed(section: Seq<u8>) -> Seq<u8> {
    section + be_bytes(crc_of(section))
}

/// The program association table: one program, and where its map is.
pub open spec fn pat_section() -> Seq<u8> {
    checksummed(
        seq![
            0x00,  // table
            0xB0, 0x0D,  // section syntax, length of the rest
            0x00, 0x01,  // transport stream
            0xC1, 0x00, 0x00,  // version, section number, last section number
            0x00, 0x01,  // program
            0xF0, 0x00,  // packet identifier of its map
        ],
    )
}

/// The stream entry for AAC audio.
pub open spec fn audio_stream_entry() -> Seq<u8> {
    seq![0x0F, 0xE1, 0x00, 0xF0, 0x00]
}

/// The stream entry for timed metadata, with a registration descriptor that
/// holds the identifier "ID3 ".
pub open spec fn metadata_stream_entry() -> Seq<u8> {
    seq![0x15, 0xE1, 0x50, 0xF0, 0x06, 0x05, 0x04, 0x49, 0x44, 0x33, 0x20]
}

/// The program map table: the audio stream, which also carries the clock, and
/// the metadata stream where there is metadata.
pub open spec fn pmt_section(metadata: bool) -> Seq<u8> {
    let length: u8 = if metadata {
        29
    } else {
        18
    };
    checksummed(
        seq![
            0x02,  // table
            0xB0, length,  // section syntax, length of the rest
            0x00, 0x01,  // program
            0xC1, 0x00, 0x00,  // version, section number, last section number
            0xE1, 0x00,  // packet identifier of the clock
            0xF0, 0x00,  // no program descriptors
        ] + audio_stream_entry() + (if metadata {
            metadata_stream_entry()
        } else {
            Seq::empty()
        }),
    )
}

/// The packet that carries a section, behind a pointer field of zero.
pub open spec fn section_packet(pid: u16, cc: u8, section: Seq<u8>) -> Seq<u8> {
    ts_packet(pid, true, cc, None, seq![0x00u8] + section)
}

/// Builds the program association table.
pub fn build_pat() -> (r: Vec<u8>)
    ensures
        r@ == pat_section(),
{
    let mut section: Vec<u8> = vec![
        0x00, 0xB0, 0x0D, 0x00, 0x01, 0xC1, 0x00, 0x00, 0x00, 0x01, 0xF0, 0x00,
    ];
    let crc: u32 = crc32_mpeg2(section.as_slice());
    let ghost body = section@;
    assert(body =~= seq![
        0x00u8, 0xB0, 0x0D, 0x00, 0x01, 0xC1, 0x00, 0x00, 0x00, 0x01, 0xF0, 0x00,
    ]);
    push_be_bytes(&mut section, crc);
    section
}

/// Builds the program map table.
pub fn build_pmt(metadata: bool) -> (r: Vec<u8>)
    ensures
        r@ == pmt_section(metadata),
{
    let length: u8 = if metadata {
        29
    } else {
        18
    };
    let mut section: Vec<u8> = vec![
        0x02, 0xB0, length, 0x00, 0x01, 0xC1, 0x00, 0x00, 0xE1, 0x00, 0xF0, 0x00,
        0x0F, 0xE1, 0x00, 0xF0, 0x00,
    ];
    if metadata {
        append_bytes(
            &mut section,
            &[0x15, 0xE1, 0x50, 0xF0, 0x06, 0x05, 0x04, 0x49, 0x44, 0x33, 0x20],
        );
    }
    assert(section@ =~= seq![
        0x02u8, 0xB0, length, 0x00, 0x01, 0xC1, 0x00, 0x00, 0xE1, 0x00, 0xF0, 0x00,
    ] + audio_stream_entry() + (if metadata {
        metadata_stream_entry()
    } else {
        Seq::empty()
    }));
    let crc: u32 = crc32_mpeg2(section.as_slice());
    push_be_bytes(&mut section, crc);
    section
}

/// Appends the packet that carries a section.
pub(crate) fn push_section(out: &mut Vec<u8>, pid: u16, cc: u8, section: &[u8])
    requires
        section@.len() <= 183,
    ensures
        final(out)@ == old(out)@ + section_packet(pid, cc, section@),
{
    let mut payload: Vec<u8> = vec![0x00];
    append_bytes(&mut payload, section);
    assert(payload@ =~= seq![0x00u8] + section@);
    push_packet(out, pid, true, cc, None, payload.as_slice());
}

// ---------------------------------------------------------------------------
// PES packets
// ---------------------------------------------------------------------------
/// The header of a PES packet that holds a timestamp: start code, stream,
/// length of the rest, flags, and the timestamp.
pub open spec fn pes_header(stream: u8, length: int, flags: u8, pts: u64) -> Seq<u8> {
    seq![
        0x00,
        0x00,
        0x01,
        stream,
        (length / 256) as u8,
        (length % 256) as u8,
        flags,
        0x80,
        0x05,
    ] + pts_bytes(pts)
}

/// A PES packet around one AAC frame. A length that does not fit its field is
/// left at zero, which stands for unbounded.
pub open spec fn audio_pes(data: Seq<u8>, pts: u64) -> Seq<u8> {
    let length = if data.len() + 8 <= 0xFFFF {
        data.len() + 8
    } else {
        0
    };
    pes_header(0xC0, length as int, 0x80, pts) + data
}

/// A PES packet around an ID3 tag, flagged as aligned data. The length field
/// keeps the low sixteen bits.
pub open spec fn metadata_pes(id3: Seq<u8>, pts: u64) -> Seq<u8> {
    pes_header(0xBD, (id3.len() + 8) as int % 0x1_0000, 0x84, pts) + id3
}

fn build_pes(stream: u8, length: u16, flags: u8, pts: u64, data: &[u8]) -> (r: Vec<u8>)
    ensures
        r@ == pes_header(stream, length as int, flags, pts) + data@,
{
    let mut pes: Vec<u8> = vec![
        0x00,
        0x00,
        0x01,
        stream,
        (length / 256) as u8,
        (length % 256) as u8,
        flags,
        0x80,
        0x05,
    ];
    append_bytes(&mut pes, encode_pts(pts).as_slice());
    assert(pes@ =~= pes_header(stream, length as int, flags, pts));
    append_bytes(&mut pes, data);
    pes
}

/// Builds the PES packet around one AAC frame.
pub fn build_audio_pes(aac_data: &[u8], pts: u64) -> (r: Vec<u8>)
    ensures
        r@ == audio_pes(aac_data@, pts),
{
    let length: u16 = if aac_data.len() <= 0xFFF7 {
        aac_data.len() as u16 + 8
    } else {
        0
    };
    build_pes(0xC0, length, 0x80, pts, aac_data)
}

/// Builds the PES packet around an ID3 tag.
pub fn build_metadata_pes(id3_bytes: &[u8], pts: u64) -> (r: Vec<u8>)
    ensures
        r@ == metadata_pes(id3_bytes@, pts),
{
    let length: u16 = ((id3_bytes.len() % 0x1_0000 + 8) % 0x1_0000) as u16;
    proof {
        vstd::arithmetic::div_mod::lemma_add_mod_noop(id3_bytes@.len() as int, 8, 0x1_0000);
    }
    assert(length == (id3_bytes@.len() + 8) as int % 0x1_0000);
    build_pes(0xBD, length, 0x84, pts, id3_bytes)
}

} // verus!
