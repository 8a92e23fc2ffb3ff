//! How timestamps, clock references and checksums are written in a transport
//! stream.
use vstd::prelude::*;

verus! {

// ---------------------------------------------------------------------------
// Timestamps
// ---------------------------------------------------------------------------
/// The five bytes of a presentation timestamp: 33 bits in groups of three,
/// fifteen and fifteen, each closed by a marker bit, behind the prefix `0010`.
pub open spec fn pts_bytes(pts: u64) -> Seq<u8> {
    seq![
        (0x21 + (pts / 0x4000_0000) % 8 * 2) as u8,
        ((pts / 0x40_0000) % 256) as u8,
        (0x01 + (pts / 0x8000) % 128 * 2) as u8,
        ((pts / 0x80) % 256) as u8,
        (0x01 + pts % 128 * 2) as u8,
    ]
}

/// The timestamp that five such bytes stand for.
pub open spec fn pts_of_bytes(b: Seq<u8>) -> int {
    (b[0] / 2) % 8 * 0x4000_0000 + b[1] * 0x40_0000 + b[2] / 2 * 0x8000 + b[3] * 0x80 + b[4] / 2
}

/// Encodes a presentation timestamp.
pub fn encode_pts(pts: u64) -> (r: [u8; 5])
    ensures
        r@ == pts_bytes(pts),
{
    proof {
        assert(0x21 | (((pts >> 29) & 0x0E) as u8) == 0x21 + (pts / 0x4000_0000) % 8 * 2)
            by (bit_vector);
        assert((pts >> 22) & 0xFF == (pts / 0x40_0000) % 256) by (bit_vector);
        assert(0x01 | (((pts >> 14) & 0xFE) as u8) == 0x01 + (pts / 0x8000) % 128 * 2)
            by (bit_vector);
        assert((pts >> 7) & 0xFF == (pts / 0x80) % 256) by (bit_vector);
        assert(0x01 | (((pts << 1) & 0xFE) as u8) == 0x01 + pts % 128 * 2) by (bit_vector);
    }
    let r: [u8; 5] = [
        0x21 | (((pts >> 29) & 0x0E) as u8),
        ((pts >> 22) & 0xFF) as u8,
        0x01 | (((pts >> 14) & 0xFE) as u8),
        ((pts >> 7) & 0xFF) as u8,
        0x01 | (((pts << 1) & 0xFE) as u8),
    ];
    assert(r@ =~= pts_bytes(pts));
    r
}

/// Reading an encoded timestamp gives it back, modulo its 33 bits.
pub proof fn lemma_pts_round_trip(pts: u64)
    ensures
        pts_of_bytes(pts_bytes(pts)) == pts % 0x2_0000_0000,
{
    assert((pts / 0x4000_0000) % 8 * 0x4000_0000 + (pts / 0x40_0000) % 256 * 0x40_0000 + (pts
        / 0x8000) % 128 * 0x8000 + (pts / 0x80) % 256 * 0x80 + pts % 128 == pts % 0x2_0000_0000)
        by (bit_vector);
}

/// The six bytes of a program clock reference: a 33-bit base, six reserved
/// bits, and a nine-bit extension that is zero.
pub open spec fn pcr_bytes(pcr: u64) -> Seq<u8> {
    seq![
        ((pcr / 0x200_0000) % 256) as u8,
        ((pcr / 0x2_0000) % 256) as u8,
        ((pcr / 0x200) % 256) as u8,
        ((pcr / 2) % 256) as u8,
        (pcr % 2 * 128 + 0x7E) as u8,
        0x00,
    ]
}

/// The base of the clock reference that six such bytes stand for.
pub open spec fn pcr_of_bytes(b: Seq<u8>) -> int {
    b[0] * 0x200_0000 + b[1] * 0x2_0000 + b[2] * 0x200 + b[3] * 2 + b[4] / 128
}

/// Appends a program clock reference to `buf`.
pub fn write_pcr(buf: &mut Vec<u8>, pcr: u64)
    ensures
        final(buf)@ == old(buf)@ + pcr_bytes(pcr),
{
    proof {
        assert((pcr >> 25) & 0xFF == (pcr / 0x200_0000) % 256) by (bit_vector);
        assert((pcr >> 17) & 0xFF == (pcr / 0x2_0000) % 256) by (bit_vector);
        assert((pcr >> 9) & 0xFF == (pcr / 0x200) % 256) by (bit_vector);
        assert((pcr >> 1) & 0xFF == (pcr / 2) % 256) by (bit_vector);
        assert((((pcr & 1) << 7) as u8) | 0x7E == pcr % 2 * 128 + 0x7E) by (bit_vector);
    }
    buf.push(((pcr >> 25) & 0xFF) as u8);
    buf.push(((pcr >> 17) & 0xFF) as u8);
    buf.push(((pcr >> 9) & 0xFF) as u8);
    buf.push(((pcr >> 1) & 0xFF) as u8);
    buf.push((((pcr & 1) << 7) as u8) | 0x7E);
    buf.push(0x00);
    assert(buf@ =~= old(buf)@ + pcr_bytes(pcr));
}

/// Reading a written clock reference gives its base back, modulo its 33 bits.
pub proof fn lemma_pcr_round_trip(pcr: u64)
    ensures
        pcr_of_bytes(pcr_bytes(pcr)) == pcr % 0x2_0000_0000,
{
    assert((pcr / 0x200_0000) % 256 * 0x200_0000 + (pcr / 0x2_0000) % 256 * 0x2_0000 + (pcr
        / 0x200) % 256 * 0x200 + (pcr / 2) % 256 * 2 + pcr % 2 == pcr % 0x2_0000_0000)
        by (bit_vector);
}

// ---------------------------------------------------------------------------
// Checksums
// ---------------------------------------------------------------------------
/// One step of the CRC-32/MPEG-2 shift register.
pub open spec fn crc_shift(crc: u32) -> u32 {
    if crc & 0x8000_0000 != 0 {
        (crc << 1) ^ 0x04C1_1DB7
    } else {
        crc << 1
    }
}

/// `n` steps of the shift register.
pub open spec fn crc_shifts(crc: u32, n: nat) -> u32
    decreases n,
{
    if n == 0 {
        crc
    } else {
        crc_shift(crc_shifts(crc, (n - 1) as nat))
    }
}

/// The register after one more byte.
pub open spec fn crc_byte(crc: u32, byte: u8) -> u32 {
    crc_shifts(crc ^ ((byte as u32) << 24), 8)
}

/// The CRC-32/MPEG-2 checksum: the register starts with all bits set.
pub open spec fn crc_of(data: Seq<u8>) -> u32
    decreases data.len(),
{
    if data.len() == 0 {
        0xFFFF_FFFF
    } else {
        crc_byte(crc_of(data.drop_last()), data.last())
    }
}

/// Computes the CRC-32/MPEG-2 checksum.
pub fn crc32_mpeg2(data: &[u8]) -> (r: u32)
    ensures
        r == crc_of(data@),
{
    let mut crc: u32 = 0xFFFF_FFFF;
    let mut i: usize = 0;
    while i < data.len()
        invariant
            i <= data@.len(),
            crc == crc_of(data@.take(i as int)),
        decreases data@.len() - i,
    {
        assert(data@.take(i + 1).drop_last() == data@.take(i as int));
        crc = crc ^ ((data[i] as u32) << 24);
        let ghost mixed = crc;
        let mut bit: u32 = 0;
        while bit < 8
            invariant
                bit <= 8,
                crc == crc_shifts(mixed, bit as nat),
            decreases 8 - bit,
        {
            if crc & 0x8000_0000 != 0 {
                crc = (crc << 1) ^ 0x04C1_1DB7;
            } else {
                crc = crc << 1;
            }
            bit += 1;
        }
        i += 1;
    }
    assert(data@.take(i as int) == data@);
    crc
}

/// A checksum as four bytes, the highest first.
pub open spec fn be_bytes(v: u32) -> Seq<u8> {
    seq![
        (v / 0x100_0000) as u8,
        ((v / 0x1_0000) % 256) as u8,
        ((v / 0x100) % 256) as u8,
        (v % 256) as u8,
    ]
}

pub(crate) fn push_be_bytes(buf: &mut Vec<u8>, v: u32)
    ensures
        final(buf)@ == old(buf)@ + be_bytes(v),
{
    buf.push((v / 0x100_0000) as u8);
    buf.push(((v / 0x1_0000) % 256) as u8);
    buf.push(((v / 0x100) % 256) as u8);
    buf.push((v % 256) as u8);
    assert(buf@ =~= old(buf)@ + be_bytes(v));
}

proof fn lemma_crc_absorbs_top_byte(crc: u32, byte: u8)
    requires
        byte == crc / 0x100_0000,
    ensures
        crc_byte(crc, byte) == crc << 8,
{
    reveal_with_fuel(crc_shifts, 9);
    assert(byte == crc / 0x100_0000 ==> {
        let c0 = crc ^ ((byte as u32) << 24);
        let c1 = c0 << 1;
        let c2 = c1 << 1;
        let c3 = c2 << 1;
        let c4 = c3 << 1;
        let c5 = c4 << 1;
        let c6 = c5 << 1;
        let c7 = c6 << 1;
        &&& c0 & 0x8000_0000 == 0
        &&& c1 & 0x8000_0000 == 0
        &&& c2 & 0x8000_0000 == 0
        &&& c3 & 0x8000_0000 == 0
        &&& c4 & 0x8000_0000 == 0
        &&& c5 & 0x8000_0000 == 0
        &&& c6 & 0x8000_0000 == 0
        &&& c7 & 0x8000_0000 == 0
        &&& c7 << 1 == crc << 8
    }) by (bit_vector);
}

/// A section followed by its checksum has checksum zero, which is how a
/// receiver tells that it is intact.
pub proof fn lemma_checksummed_data_has_crc_zero(data: Seq<u8>)
    ensures
        crc_of(data + be_bytes(crc_of(data))) == 0,
{
    let c = crc_of(data);
    let b = be_bytes(c);
    let d1 = data.push(b[0]);
    let d2 = d1.push(b[1]);
    let d3 = d2.push(b[2]);
    let d4 = d3.push(b[3]);
    assert(d4 =~= data + b);
    assert(d1.drop_last() =~= data);
    assert(d2.drop_last() =~= d1);
    assert(d3.drop_last() =~= d2);
    assert(d4.drop_last() =~= d3);
    assert({
        &&& (c / 0x1_0000) % 256 == (c << 8) / 0x100_0000
        &&& (c / 0x100) % 256 == ((c << 8) << 8) / 0x100_0000
        &&& c % 256 == (((c << 8) << 8) << 8) / 0x100_0000
        &&& (((c << 8) << 8) << 8) << 8 == 0
    }) by (bit_vector);
    lemma_crc_absorbs_top_byte(c, b[0]);
    lemma_crc_absorbs_top_byte(c << 8, b[1]);
    lemma_crc_absorbs_top_byte((c << 8) << 8, b[2]);
    lemma_crc_absorbs_top_byte(((c << 8) << 8) << 8, b[3]);
    assert(crc_of(d1) == c << 8);
    assert(crc_of(d2) == (c << 8) << 8);
    assert(crc_of(d3) == ((c << 8) << 8) << 8);
    assert(crc_of(d4) == 0);
}

} // verus!
