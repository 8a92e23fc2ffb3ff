//! The fields of an MPEG transport stream packet.
use vstd::prelude::*;

verus! {

/// The size of every transport stream packet.
pub const TS_PACKET_SIZE: usize = 188;

/// The byte that every packet starts with.
pub const SYNC_BYTE: u8 = 0x47;

/// The packet identifier: thirteen bits over the second and third byte.
pub open spec fn pid_of(packet: Seq<u8>) -> u16 {
    ((packet[1] % 32) * 256 + packet[2]) as u16
}

/// Whether a payload unit (a section or a PES packet) starts in this packet.
pub open spec fn starts_unit(packet: Seq<u8>) -> bool {
    (packet[1] / 64) % 2 == 1
}

/// Whether an adaptation field follows the four header bytes.
pub open spec fn has_adaptation(packet: Seq<u8>) -> bool {
    (packet[3] / 32) % 2 == 1
}

/// Whether the packet carries a payload.
pub open spec fn has_payload(packet: Seq<u8>) -> bool {
    (packet[3] / 16) % 2 == 1
}

/// Whether the adaptation field holds a clock reference. Its first byte is its
/// remaining length, and its flags follow where there is any.
pub open spec fn has_clock(packet: Seq<u8>) -> bool {
    has_adaptation(packet) && packet[4] > 0 && (packet[5] / 16) % 2 == 1
}

/// The continuity counter.
pub open spec fn continuity_of(packet: Seq<u8>) -> int {
    packet[3] as int % 16
}

/// Where the payload starts: after the header and the adaptation field, whose
/// first byte is its remaining length.
pub open spec fn payload_offset(packet: Seq<u8>) -> int {
    if has_adaptation(packet) {
        5 + packet[4]
    } else {
        4
    }
}

/// The payload of a packet, empty where it has none.
pub open spec fn payload_of(packet: Seq<u8>) -> Seq<u8> {
    if has_payload(packet) && payload_offset(packet) < 188 {
        packet.skip(payload_offset(packet))
    } else {
        Seq::empty()
    }
}

/// Reads the packet identifier.
pub fn read_pid(packet: &[u8]) -> (r: u16)
    requires
        packet@.len() >= 3,
    ensures
        r == pid_of(packet@),
{
    let (b1, b2): (u8, u8) = (packet[1], packet[2]);
    assert(((b1 as u16 & 0x1F) << 8) | b2 as u16 == (b1 % 32) * 256 + b2) by (bit_vector);
    ((b1 as u16 & 0x1F) << 8) | b2 as u16
}

/// Reads the payload unit start indicator.
pub fn read_starts_unit(packet: &[u8]) -> (r: bool)
    requires
        packet@.len() >= 2,
    ensures
        r == starts_unit(packet@),
{
    let b: u8 = packet[1];
    assert((b >> 6) & 1 == (b / 64) % 2) by (bit_vector);
    (b >> 6) & 1 == 1
}

/// Reads the adaptation field flag.
pub fn read_has_adaptation(packet: &[u8]) -> (r: bool)
    requires
        packet@.len() >= 4,
    ensures
        r == has_adaptation(packet@),
{
    let b: u8 = packet[3];
    assert((b >> 5) & 1 == (b / 32) % 2) by (bit_vector);
    (b >> 5) & 1 == 1
}

/// Reads the payload flag.
pub fn read_has_payload(packet: &[u8]) -> (r: bool)
    requires
        packet@.len() >= 4,
    ensures
        r == has_payload(packet@),
{
    let b: u8 = packet[3];
    assert((b >> 4) & 1 == (b / 16) % 2) by (bit_vector);
    (b >> 4) & 1 == 1
}

/// Reads where the payload starts.
pub fn read_payload_offset(packet: &[u8]) -> (r: usize)
    requires
        packet@.len() >= 4,
        has_adaptation(packet@) ==> packet@.len() >= 5,
    ensures
        r == payload_offset(packet@),
{
    if read_has_adaptation(packet) {
        5 + packet[4] as usize
    } else {
        4
    }
}

/// A thirteen-bit packet identifier at `pos`, below three reserved bits.
pub open spec fn pid_at(bytes: Seq<u8>, pos: int) -> u16 {
    ((bytes[pos] % 32) * 256 + bytes[pos + 1]) as u16
}

/// A twelve-bit length at `pos`, below four reserved bits.
pub open spec fn length_at(bytes: Seq<u8>, pos: int) -> int {
    (bytes[pos] % 16) * 256 + bytes[pos + 1]
}

/// Reads a thirteen-bit packet identifier.
pub fn read_pid_at(bytes: &[u8], pos: usize) -> (r: u16)
    requires
        pos + 1 < bytes@.len(),
    ensures
        r == pid_at(bytes@, pos as int),
{
    let (hi, lo): (u8, u8) = (bytes[pos], bytes[pos + 1]);
    assert(((hi as u16 & 0x1F) << 8) | lo as u16 == (hi % 32) * 256 + lo) by (bit_vector);
    ((hi as u16 & 0x1F) << 8) | lo as u16
}

/// Reads a twelve-bit length.
pub fn read_length_at(bytes: &[u8], pos: usize) -> (r: usize)
    requires
        pos + 1 < bytes@.len(),
    ensures
        r == length_at(bytes@, pos as int),
        r < 4096,
{
    let (hi, lo): (u8, u8) = (bytes[pos], bytes[pos + 1]);
    assert(((hi as usize & 0x0F) << 8) | lo as usize == (hi % 16) * 256 + lo) by (bit_vector);
    ((hi as usize & 0x0F) << 8) | lo as usize
}

} // verus!
