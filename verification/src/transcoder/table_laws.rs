//! What is read out of program tables, held against how tables are written.
use super::demux::{audio_entry, audio_pid_of, pmt_pid_of, section_start};
use vstd::prelude::*;

verus! {

/// One stream of a program: its type, its packet identifier, and its
/// descriptors.
pub struct StreamEntry {
    pub kind: u8,
    pub pid: u16,
    pub descriptors: Seq<u8>,
}

/// Thirteen bits below three reserved ones.
pub open spec fn write_pid(pid: u16) -> Seq<u8> {
    seq![(0xE0 + pid / 256) as u8, (pid % 256) as u8]
}

/// Twelve bits below four reserved ones.
pub open spec fn write_length(n: nat, reserved: u8) -> Seq<u8> {
    seq![(reserved + n / 256) as u8, (n % 256) as u8]
}

/// A stream entry in bytes: five bytes, and the descriptors.
pub open spec fn write_entry(e: StreamEntry) -> Seq<u8> {
    seq![e.kind] + write_pid(e.pid) + write_length(e.descriptors.len(), 0xF0) + e.descriptors
}

/// Stream entries in bytes, one behind the other.
pub open spec fn write_entries(list: Seq<StreamEntry>) -> Seq<u8>
    decreases list.len(),
{
    if list.len() == 0 {
        Seq::empty()
    } else {
        write_entry(list[0]) + write_entries(list.drop_first())
    }
}

/// A program map section: its table identifier and length, five bytes of
/// program number, version and section numbers, the identifier of the clock,
/// the descriptors of the program, the streams, and the checksum.
pub open spec fn write_pmt(
    fixed: Seq<u8>,
    clock_pid: u16,
    program: Seq<u8>,
    list: Seq<StreamEntry>,
    crc: Seq<u8>,
) -> Seq<u8> {
    seq![0x02u8] + write_length(13 + program.len() + write_entries(list).len(), 0xB0) + fixed
        + write_pid(clock_pid) + write_length(program.len(), 0xF0) + program + write_entries(list)
        + crc
}

/// A program association section that lists programs, each by its number and
/// the identifier of its map.
pub open spec fn write_pat(
    fixed: Seq<u8>,
    programs: Seq<(u16, u16)>,
    crc: Seq<u8>,
) -> Seq<u8> {
    seq![0x00u8] + write_length(9 + write_programs(programs).len(), 0xB0) + fixed
        + write_programs(programs) + crc
}

/// Programs in bytes, one behind the other.
pub open spec fn write_programs(programs: Seq<(u16, u16)>) -> Seq<u8>
    decreases programs.len(),
{
    if programs.len() == 0 {
        Seq::empty()
    } else {
        seq![(programs[0].0 / 256) as u8, (programs[0].0 % 256) as u8] + write_pid(programs[0].1)
            + write_programs(programs.drop_first())
    }
}

/// A transport packet of 188 bytes in which a section starts: the sync byte,
/// three bytes with the start flag set, the adaptation field where there is
/// one, the pointer and the bytes that it skips, the section, and stuffing.
pub open spec fn is_section_packet(
    packet: Seq<u8>,
    flags: Seq<u8>,
    adaptation: Option<Seq<u8>>,
    skipped: Seq<u8>,
    section: Seq<u8>,
    stuffing: Seq<u8>,
) -> bool {
    let field = match adaptation {
        Some(a) => seq![a.len() as u8] + a,
        None => Seq::empty(),
    };
    &&& packet.len() == 188
    &&& packet == seq![0x47u8] + flags + field + seq![skipped.len() as u8] + skipped + section
        + stuffing
    &&& flags.len() == 3
    &&& (flags[0] / 64) % 2 == 1
    &&& ((flags[2] / 32) % 2 == 1) == (adaptation is Some)
}

/// Where the section of such a packet starts.
spec fn start_of(adaptation: Option<Seq<u8>>, skipped: Seq<u8>) -> int {
    match adaptation {
        Some(a) => a.len() + skipped.len() + 6int,
        None => skipped.len() + 5int,
    }
}

#[verifier::spinoff_prover]
#[verifier::rlimit(60)]
proof fn lemma_section_is_found(
    packet: Seq<u8>,
    flags: Seq<u8>,
    adaptation: Option<Seq<u8>>,
    skipped: Seq<u8>,
    section: Seq<u8>,
    stuffing: Seq<u8>,
)
    requires
        is_section_packet(packet, flags, adaptation, skipped, section, stuffing),
    ensures
        section_start(packet) == Some(start_of(adaptation, skipped)),
        start_of(adaptation, skipped) + section.len() <= 188,
        packet.subrange(
            start_of(adaptation, skipped),
            start_of(adaptation, skipped) + section.len(),
        ) == section,
{
    let s = start_of(adaptation, skipped);
    assert(packet[0] == 0x47);
    assert(packet[1] == flags[0]);
    assert(packet[3] == flags[2]);
    match adaptation {
        Some(a) => {
            assert(packet[4] == a.len() as u8);
            assert(packet[a.len() + 5int] == skipped.len() as u8);
        },
        None => {
            assert(packet[4] == skipped.len() as u8);
        },
    }
    assert(packet.subrange(s, s + section.len()) =~= section);
}

/// The first stream of MPEG audio that comes of a walk over written entries.
#[verifier::spinoff_prover]
#[verifier::rlimit(60)]
proof fn lemma_entries_are_walked(
    packet: Seq<u8>,
    pos: int,
    end: int,
    list: Seq<StreamEntry>,
    i: int,
)
    requires
        0 <= pos,
        end <= packet.len(),
        pos + write_entries(list).len() == end - 4,
        packet.subrange(pos, end - 4) == write_entries(list),
        forall|k: int|
            0 <= k < list.len() ==> (#[trigger] list[k]).pid < 0x2000 && list[k].descriptors.len()
                < 0x1000,
        0 <= i <= list.len(),
        forall|k: int|
            0 <= k < i ==> (#[trigger] list[k]).kind != 0x03 && list[k].kind != 0x04,
        i < list.len() ==> list[i].kind == 0x03 || list[i].kind == 0x04,
    ensures
        audio_entry(packet, pos, end) == if i < list.len() {
            Some(list[i].pid)
        } else {
            None
        },
    decreases list.len(),
{
    if list.len() > 0 {
        let first = list[0];
        let n = first.descriptors.len() as int;
        let bytes = write_entry(first);
        let later = list.drop_first();
        let whole = packet.subrange(pos, end - 4);
        assert(bytes.len() == 5 + n);
        assert(whole == bytes + write_entries(later));
        assert(packet[pos] == whole[0] && whole[0] == first.kind);
        assert(packet[pos + 1] == whole[1] && whole[1] == write_pid(first.pid)[0]);
        assert(packet[pos + 2] == whole[2] && whole[2] == write_pid(first.pid)[1]);
        assert(packet[pos + 3] == whole[3] && whole[3] == write_length(n as nat, 0xF0)[0]);
        assert(packet[pos + 4] == whole[4] && whole[4] == write_length(n as nat, 0xF0)[1]);
        if i > 0 {
            assert(list[0].kind != 0x03 && list[0].kind != 0x04);
            assert(packet.subrange(pos + 5 + n, end - 4) =~= write_entries(later)) by {
                assert(packet.subrange(pos + 5 + n, end - 4) =~= whole.skip(5 + n));
            }
            assert forall|k: int| 0 <= k < later.len() implies (#[trigger] later[k]).pid < 0x2000
                && later[k].descriptors.len() < 0x1000 by {
                assert(later[k] == list[k + 1]);
            }
            assert forall|k: int| 0 <= k < i - 1 implies (#[trigger] later[k]).kind != 0x03
                && later[k].kind != 0x04 by {
                assert(later[k] == list[k + 1]);
            }
            lemma_entries_are_walked(packet, pos + 5 + n, end, later, i - 1);
        }
    }
}

/// Out of a PMT with any streams, each with any descriptors, behind any
/// descriptors of the program, comes the identifier of the first stream in the
/// list of type 0x03 or 0x04, and none where the list has no such stream.
#[verifier::spinoff_prover]
#[verifier::rlimit(60)]
pub proof fn lemma_first_audio_stream_is_found(
    packet: Seq<u8>,
    flags: Seq<u8>,
    adaptation: Option<Seq<u8>>,
    skipped: Seq<u8>,
    fixed: Seq<u8>,
    clock_pid: u16,
    program: Seq<u8>,
    list: Seq<StreamEntry>,
    crc: Seq<u8>,
    stuffing: Seq<u8>,
)
    requires
        is_section_packet(
            packet,
            flags,
            adaptation,
            skipped,
            write_pmt(fixed, clock_pid, program, list, crc),
            stuffing,
        ),
        fixed.len() == 5,
        crc.len() == 4,
        clock_pid < 0x2000,
        forall|k: int| 0 <= k < list.len() ==> (#[trigger] list[k]).pid < 0x2000,
    ensures
        forall|i: int|
            #![trigger list[i]]
            0 <= i < list.len() && (list[i].kind == 0x03 || list[i].kind == 0x04) && (forall|k: int|
                0 <= k < i ==> (#[trigger] list[k]).kind != 0x03 && list[k].kind != 0x04)
                ==> audio_pid_of(packet) == Some(list[i].pid),
        (forall|k: int|
            0 <= k < list.len() ==> (#[trigger] list[k]).kind != 0x03 && list[k].kind != 0x04)
            ==> audio_pid_of(packet) is None,
{
    let section = write_pmt(fixed, clock_pid, program, list, crc);
    let streams = write_entries(list);
    let s = start_of(adaptation, skipped);
    let n = program.len() as int;
    let end = s + section.len();
    lemma_section_is_found(packet, flags, adaptation, skipped, section, stuffing);
    let read = packet.subrange(s, end);
    assert(section.len() == 16 + n + streams.len());
    assert(packet[s] == read[0] && section[0] == 0x02);
    assert(packet[s + 1] == read[1]);
    assert(packet[s + 2] == read[2]);
    assert(section[1] == write_length((13 + n + streams.len()) as nat, 0xB0)[0]);
    assert(section[2] == write_length((13 + n + streams.len()) as nat, 0xB0)[1]);
    assert(packet[s + 10] == read[10] && section[10] == write_length(n as nat, 0xF0)[0]);
    assert(packet[s + 11] == read[11] && section[11] == write_length(n as nat, 0xF0)[1]);
    assert(packet.subrange(s + 12 + n, end - 4) =~= streams) by {
        assert(packet.subrange(s + 12 + n, end - 4) =~= read.subrange(
            12 + n,
            section.len() - 4,
        ));
        assert(section.subrange(12 + n, section.len() - 4) =~= streams);
    }
    lemma_entries_are_short(list);
    assert forall|i: int|
        #![trigger list[i]]
        0 <= i < list.len() && (list[i].kind == 0x03 || list[i].kind == 0x04) && (forall|k: int|
            0 <= k < i ==> (#[trigger] list[k]).kind != 0x03 && list[k].kind
                != 0x04) implies audio_pid_of(packet) == Some(list[i].pid) by {
        lemma_entries_are_walked(packet, s + 12 + n, end, list, i);
    }
    if forall|k: int|
        0 <= k < list.len() ==> (#[trigger] list[k]).kind != 0x03 && list[k].kind != 0x04 {
        lemma_entries_are_walked(packet, s + 12 + n, end, list, list.len() as int);
    }
}

proof fn lemma_entries_are_short(list: Seq<StreamEntry>)
    ensures
        forall|k: int|
            0 <= k < list.len() ==> (#[trigger] list[k]).descriptors.len() <= write_entries(
                list,
            ).len(),
    decreases list.len(),
{
    if list.len() > 0 {
        let later = list.drop_first();
        lemma_entries_are_short(later);
        assert forall|k: int| 0 <= k < list.len() implies (#[trigger] list[k]).descriptors.len()
            <= write_entries(list).len() by {
            if k > 0 {
                assert(later[k - 1] == list[k]);
            }
        }
    }
}

/// Out of a PAT that lists at least one program comes the identifier of the
/// map of the first.
#[verifier::spinoff_prover]
#[verifier::rlimit(60)]
pub proof fn lemma_first_program_is_found(
    packet: Seq<u8>,
    flags: Seq<u8>,
    adaptation: Option<Seq<u8>>,
    skipped: Seq<u8>,
    fixed: Seq<u8>,
    programs: Seq<(u16, u16)>,
    crc: Seq<u8>,
    stuffing: Seq<u8>,
)
    requires
        is_section_packet(
            packet,
            flags,
            adaptation,
            skipped,
            write_pat(fixed, programs, crc),
            stuffing,
        ),
        fixed.len() == 5,
        programs.len() > 0,
        programs[0].1 < 0x2000,
    ensures
        pmt_pid_of(packet) == Some(programs[0].1),
{
    let section = write_pat(fixed, programs, crc);
    let s = start_of(adaptation, skipped);
    lemma_section_is_found(packet, flags, adaptation, skipped, section, stuffing);
    let read = packet.subrange(s, s + section.len());
    assert(packet[s] == read[0] && section[0] == 0x00);
    assert(packet[s + 10] == read[10] && section[10] == write_pid(programs[0].1)[0]);
    assert(packet[s + 11] == read[11] && section[11] == write_pid(programs[0].1)[1]);
}

/// A map is not taken for an association table, nor the other way round.
pub proof fn lemma_tables_are_told_apart(packet: Seq<u8>)
    ensures
        pmt_pid_of(packet) is Some ==> audio_pid_of(packet) is None,
{
}

/// Only a section that starts in a packet with a sync byte is read, and only
/// one of the right table: 0x00 for the association, 0x02 for the map.
pub proof fn lemma_other_tables_are_passed_over(
    packet: Seq<u8>,
    flags: Seq<u8>,
    adaptation: Option<Seq<u8>>,
    skipped: Seq<u8>,
    section: Seq<u8>,
    stuffing: Seq<u8>,
)
    requires
        is_section_packet(packet, flags, adaptation, skipped, section, stuffing),
        section.len() > 0,
    ensures
        section[0] != 0x00 ==> pmt_pid_of(packet) is None,
        section[0] != 0x02 ==> audio_pid_of(packet) is None,
{
    lemma_section_is_found(packet, flags, adaptation, skipped, section, stuffing);
    let s = start_of(adaptation, skipped);
    assert(packet[s] == packet.subrange(s, s + section.len())[0]);
}

/// A packet without a sync byte or without the start of a section gives nothing.
pub proof fn lemma_no_start_no_table(packet: Seq<u8>)
    requires
        packet.len() < 188 || packet[0] != 0x47 || (packet[1] / 64) % 2 == 0,
    ensures
        pmt_pid_of(packet) is None,
        audio_pid_of(packet) is None,
{
}

} // verus!
