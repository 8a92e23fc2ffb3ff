//! Takes the audio elementary stream out of a transport stream: packet
//! alignment, PAT and PMT lookup, and reassembly of PES packets.
use crate::buffers::append_bytes;
use crate::mpegts::{
    has_adaptation, has_payload, length_at, payload_offset, pid_at, pid_of, read_has_payload,
    read_length_at, read_payload_offset, read_pid, read_pid_at, read_starts_unit, starts_unit,
    SYNC_BYTE, TS_PACKET_SIZE,
};
use vstd::prelude::*;
use vstd::slice::{slice_subrange, slice_to_vec};

verus! {

/// A PES packet that grows beyond this is dropped.
pub const MAX_PES_SIZE: usize = 262_144;

/// The state of PES reassembly: the bytes collected so far, whether a PES
/// packet is being collected, and its full length where that is announced
/// (zero where it is not).
pub struct PesState {
    pub buf: Seq<u8>,
    pub collecting: bool,
    pub expected_len: int,
}

/// The elementary stream data in a PES packet: what follows the nine fixed
/// header bytes and the optional fields whose length the ninth gives.
pub open spec fn audio_data(pes: Seq<u8>) -> Seq<u8> {
    if pes.len() >= 9 && 9 + pes[8] < pes.len() {
        pes.skip(9 + pes[8])
    } else {
        Seq::empty()
    }
}

/// Whether a payload opens with a PES start code and its length field.
pub open spec fn opens_pes(payload: Seq<u8>) -> bool {
    payload.len() >= 6 && payload[0] == 0 && payload[1] == 0 && payload[2] == 1
}

/// The length of the PES packet that opens with `payload`, zero where it is
/// left unbounded.
pub open spec fn announced_len(payload: Seq<u8>) -> int {
    let n = payload[4] * 256 + payload[5];
    if n > 0 {
        n + 6
    } else {
        0
    }
}

/// Feeds one transport packet to PES reassembly. Yields the data of the PES
/// packet that this one completes, either by starting the next or by filling
/// up the announced length.
pub open spec fn assemble(s: PesState, packet: Seq<u8>) -> (Option<Seq<u8>>, PesState) {
    let payload = packet.skip(payload_offset(packet));
    if !has_payload(packet) || payload_offset(packet) >= 188 {
        (None, s)
    } else if starts_unit(packet) {
        let done = if s.collecting && s.buf.len() > 0 {
            Some(audio_data(s.buf))
        } else {
            None
        };
        if opens_pes(payload) {
            (
                done,
                PesState { buf: payload, collecting: true, expected_len: announced_len(payload) },
            )
        } else {
            (done, PesState { buf: Seq::empty(), collecting: false, ..s })
        }
    } else if !s.collecting {
        (None, s)
    } else {
        let buf = s.buf + payload;
        if buf.len() > MAX_PES_SIZE {
            (None, PesState { buf: Seq::empty(), collecting: false, ..s })
        } else if s.expected_len > 0 && buf.len() >= s.expected_len {
            (Some(audio_data(buf)), PesState { buf, collecting: false, ..s })
        } else {
            (None, PesState { buf, ..s })
        }
    }
}

/// Whether a packet is long enough for the fields that reassembly reads.
pub open spec fn is_readable(packet: Seq<u8>) -> bool {
    &&& packet.len() >= 4
    &&& has_payload(packet) ==> {
        &&& has_adaptation(packet) ==> packet.len() >= 5
        &&& payload_offset(packet) < 188 ==> payload_offset(packet) <= packet.len()
    }
}

/// An optional byte string, by its contents.
pub open spec fn option_view(v: Option<Vec<u8>>) -> Option<Seq<u8>> {
    match v {
        Some(bytes) => Some(bytes@),
        None => None,
    }
}

/// Reassembles PES packets from the transport packets of one stream.
pub struct PesAssembler {
    buf: Vec<u8>,
    collecting: bool,
    expected_len: usize,
}

impl View for PesAssembler {
    type V = PesState;

    closed spec fn view(&self) -> PesState {
        PesState {
            buf: self.buf@,
            collecting: self.collecting,
            expected_len: self.expected_len as int,
        }
    }
}

impl PesAssembler {
    /// Reassembly that has seen nothing.
    pub fn new() -> (r: Self)
        ensures
            r@ == (PesState { buf: Seq::empty(), collecting: false, expected_len: 0 }),
    {
        Self { buf: Vec::with_capacity(8192), collecting: false, expected_len: 0 }
    }

    /// Takes in one transport packet of the stream.
    pub fn push(&mut self, ts_packet: &[u8]) -> (r: Option<Vec<u8>>)
        requires
            is_readable(ts_packet@),
        ensures
            (option_view(r), final(self)@) == assemble(old(self)@, ts_packet@),
    {
        if !read_has_payload(ts_packet) {
            return None;
        }
        let offset: usize = read_payload_offset(ts_packet);
        if offset >= TS_PACKET_SIZE {
            return None;
        }
        let payload: &[u8] = slice_subrange(ts_packet, offset, ts_packet.len());
        assert(payload@ == ts_packet@.skip(offset as int));

        if read_starts_unit(ts_packet) {
            let result: Option<Vec<u8>> = if self.collecting && !self.buf.is_empty() {
                Some(self.extract_audio_data())
            } else {
                None
            };
            self.buf.clear();
            self.collecting = false;
            if payload.len() >= 6 && payload[0] == 0x00 && payload[1] == 0x00 && payload[2]
                == 0x01 {
                let (hi, lo): (u8, u8) = (payload[4], payload[5]);
                assert(((hi as usize) << 8) | lo as usize == hi * 256 + lo) by (bit_vector);
                let pes_length: usize = ((hi as usize) << 8) | lo as usize;
                self.expected_len = if pes_length > 0 {
                    pes_length + 6
                } else {
                    0
                };
                append_bytes(&mut self.buf, payload);
                assert(self.buf@ == payload@);
                self.collecting = true;
            }
            return result;
        }
        if self.collecting {
            append_bytes(&mut self.buf, payload);
            if self.buf.len() > MAX_PES_SIZE {
                self.buf.clear();
                self.collecting = false;
                return None;
            }
            if self.expected_len > 0 && self.buf.len() >= self.expected_len {
                self.collecting = false;
                return Some(self.extract_audio_data());
            }
        }
        None
    }

    /// What the PES packet that is being collected holds behind its header.
    pub fn extract_audio_data(&self) -> (r: Vec<u8>)
        ensures
            r@ == audio_data(self@.buf),
    {
        if self.buf.len() < 9 {
            return Vec::new();
        }
        let data_start: usize = 9 + self.buf[8] as usize;
        if data_start >= self.buf.len() {
            return Vec::new();
        }
        let data: Vec<u8> = slice_to_vec(
            slice_subrange(self.buf.as_slice(), data_start, self.buf.len()),
        );
        assert(data@ == self.buf@.skip(data_start as int));
        data
    }
}

/// Where the section that starts in this packet stands: after the pointer
/// field and the bytes it skips.
pub open spec fn section_start(packet: Seq<u8>) -> Option<int> {
    if packet.len() >= 188 && packet[0] == SYNC_BYTE && starts_unit(packet) && payload_offset(
        packet,
    ) < 188 {
        Some(payload_offset(packet) + 1 + packet[payload_offset(packet)])
    } else {
        None
    }
}

/// The PMT packet identifier of the first program in a PAT packet.
pub open spec fn pmt_pid_of(packet: Seq<u8>) -> Option<u16> {
    match section_start(packet) {
        Some(s) => if s + 12 <= 188 && packet[s] == 0x00 {
            Some(pid_at(packet, s + 10))
        } else {
            None
        },
        None => None,
    }
}

/// The first stream at or after `pos` that is MPEG-1 or MPEG-2 audio. A stream
/// entry has five bytes and a descriptor loop; four bytes of checksum end the
/// section.
pub open spec fn audio_entry(packet: Seq<u8>, pos: int, section_end: int) -> Option<u16>
    decreases
            (if pos < section_end {
                section_end - pos
            } else {
                0
            }),
{
    if pos + 5 <= section_end - 4 {
        if packet[pos] == 0x03 || packet[pos] == 0x04 {
            Some(pid_at(packet, pos + 1))
        } else {
            audio_entry(packet, pos + 5 + length_at(packet, pos + 3), section_end)
        }
    } else {
        None
    }
}

/// The packet identifier of the MPEG audio stream in a PMT packet.
pub open spec fn audio_pid_of(packet: Seq<u8>) -> Option<u16> {
    match section_start(packet) {
        Some(s) => if s + 12 < 188 && packet[s] == 0x02 {
            let declared_end = s + 3 + length_at(packet, s + 1);
            let section_end = if declared_end < 188 {
                declared_end
            } else {
                188
            };
            audio_entry(packet, s + 12 + length_at(packet, s + 10), section_end)
        } else {
            None
        },
        None => None,
    }
}

fn find_section(packet: &[u8]) -> (r: Option<usize>)
    ensures
        match r {
            Some(s) => section_start(packet@) == Some(s as int) && 5 <= s < 1024 && packet@.len()
                >= 188,
            None => section_start(packet@) is None,
        },
{
    if packet.len() < TS_PACKET_SIZE || packet[0] != SYNC_BYTE {
        return None;
    }
    if !read_starts_unit(packet) {
        return None;
    }
    let offset: usize = read_payload_offset(packet);
    if offset >= TS_PACKET_SIZE {
        return None;
    }
    Some(offset + 1 + packet[offset] as usize)
}

/// Reads the PMT packet identifier out of a PAT packet.
pub fn parse_pmt_pid_from_pat(packet: &[u8]) -> (r: Option<u16>)
    ensures
        r == pmt_pid_of(packet@),
{
    let start: usize = match find_section(packet) {
        Some(s) => s,
        None => return None,
    };
    if start + 12 > TS_PACKET_SIZE || packet[start] != 0x00 {
        return None;
    }
    Some(read_pid_at(packet, start + 10))
}

/// Reads the packet identifier of the MPEG audio stream out of a PMT packet.
pub fn parse_audio_pid_from_pmt(packet: &[u8]) -> (r: Option<u16>)
    ensures
        r == audio_pid_of(packet@),
{
    let start: usize = match find_section(packet) {
        Some(s) => s,
        None => return None,
    };
    if start + 12 >= TS_PACKET_SIZE || packet[start] != 0x02 {
        return None;
    }
    let declared_end: usize = start + 3 + read_length_at(packet, start + 1);
    let section_end: usize = if declared_end < TS_PACKET_SIZE {
        declared_end
    } else {
        TS_PACKET_SIZE
    };
    let mut pos: usize = start + 12 + read_length_at(packet, start + 10);
    while pos + 5 <= section_end - 4
        invariant
            8 <= section_end <= 188 <= packet@.len(),
            pos <= 10_000,
            audio_pid_of(packet@) == audio_entry(packet@, pos as int, section_end as int),
        decreases section_end + 10_000 - pos,
    {
        if packet[pos] == 0x03 || packet[pos] == 0x04 {
            return Some(read_pid_at(packet, pos + 1));
        }
        pos += 5 + read_length_at(packet, pos + 3);
    }
    None
}

/// The first position at or after `from` that holds a sync byte.
pub open spec fn sync_byte_from(buf: Seq<u8>, from: int) -> Option<int>
    decreases buf.len() - from,
{
    if from < 0 || from >= buf.len() {
        None
    } else if buf[from] == SYNC_BYTE {
        Some(from)
    } else {
        sync_byte_from(buf, from + 1)
    }
}

/// A sync position holds a sync byte, and no earlier one does.
pub proof fn lemma_sync_byte_from(buf: Seq<u8>, from: int)
    requires
        0 <= from,
    ensures
        match sync_byte_from(buf, from) {
            Some(at) => from <= at < buf.len() && buf[at] == SYNC_BYTE && forall|i: int|
                from <= i < at ==> buf[i] != SYNC_BYTE,
            None => forall|i: int| from <= i < buf.len() ==> buf[i] != SYNC_BYTE,
        },
    decreases buf.len() - from,
{
    if from < buf.len() && buf[from] != SYNC_BYTE {
        lemma_sync_byte_from(buf, from + 1);
    }
}

/// Cuts every whole packet off the front of `buf`, and gives what is left.
/// Where a packet should start but no sync byte stands, everything up to the
/// next one is dropped.
pub open spec fn cut_packets(buf: Seq<u8>) -> (Seq<Seq<u8>>, Seq<u8>)
    decreases buf.len(),
{
    if buf.len() < 188 {
        (Seq::empty(), buf)
    } else if buf[0] != SYNC_BYTE {
        proof {
            lemma_sync_byte_from(buf, 0);
        }
        match sync_byte_from(buf, 0) {
            Some(at) => cut_packets(buf.skip(at)),
            None => (Seq::empty(), Seq::empty()),
        }
    } else {
        let (packets, rest) = cut_packets(buf.skip(188));
        (seq![buf.take(188)] + packets, rest)
    }
}

/// The state of the demultiplexer: bytes short of a packet, the identifiers
/// found so far, and PES reassembly of the audio stream.
pub struct DemuxState {
    pub pending: Seq<u8>,
    pub pmt_pid: Option<u16>,
    pub audio_pid: Option<u16>,
    pub pes: PesState,
}

/// Feeds one whole packet to the demultiplexer. The PMT identifier is taken
/// from the first PAT that has one, the audio identifier from the first PMT
/// that has one, and only packets of the audio stream go on to reassembly.
pub open spec fn demux_packet(s: DemuxState, packet: Seq<u8>) -> (Option<Seq<u8>>, DemuxState) {
    let pid = pid_of(packet);
    let pmt_pid = if s.pmt_pid is None && pid == 0 {
        pmt_pid_of(packet)
    } else {
        s.pmt_pid
    };
    let audio_pid = if s.audio_pid is None && pmt_pid == Some(pid) {
        audio_pid_of(packet)
    } else {
        s.audio_pid
    };
    if audio_pid == Some(pid) {
        let (data, pes) = assemble(s.pes, packet);
        (data, DemuxState { pmt_pid, audio_pid, pes, ..s })
    } else {
        (None, DemuxState { pmt_pid, audio_pid, ..s })
    }
}

/// Feeds a run of packets, and gathers the PES data that they complete.
pub open spec fn demux_packets(s: DemuxState, packets: Seq<Seq<u8>>) -> (
    Seq<Seq<u8>>,
    DemuxState,
)
    decreases packets.len(),
{
    if packets.len() == 0 {
        (Seq::empty(), s)
    } else {
        let (before, mid) = demux_packets(s, packets.drop_last());
        let (data, end) = demux_packet(mid, packets.last());
        match data {
            Some(d) => (before.push(d), end),
            None => (before, end),
        }
    }
}

/// Feeds a chunk of the stream, cut anywhere.
pub open spec fn demux_chunk(s: DemuxState, chunk: Seq<u8>) -> (Seq<Seq<u8>>, DemuxState) {
    let (packets, pending) = cut_packets(s.pending + chunk);
    let (data, end) = demux_packets(s, packets);
    (data, DemuxState { pending, ..end })
}

/// The contents of a run of byte vectors.
pub open spec fn vec_views(v: Seq<Vec<u8>>) -> Seq<Seq<u8>> {
    Seq::new(v.len(), |i: int| v[i]@)
}

/// Takes the audio PES data out of a transport stream delivered in chunks.
pub struct TsDemuxer {
    ts_buf: Vec<u8>,
    pmt_pid: Option<u16>,
    audio_pid: Option<u16>,
    pes: PesAssembler,
}

impl View for TsDemuxer {
    type V = DemuxState;

    closed spec fn view(&self) -> DemuxState {
        DemuxState {
            pending: self.ts_buf@,
            pmt_pid: self.pmt_pid,
            audio_pid: self.audio_pid,
            pes: self.pes@,
        }
    }
}

impl TsDemuxer {
    /// A demultiplexer that has seen nothing.
    pub fn new() -> (r: Self)
        ensures
            r@ == (DemuxState {
                pending: Seq::empty(),
                pmt_pid: None,
                audio_pid: None,
                pes: PesState { buf: Seq::empty(), collecting: false, expected_len: 0 },
            }),
    {
        Self {
            ts_buf: Vec::with_capacity(1504),
            pmt_pid: None,
            audio_pid: None,
            pes: PesAssembler::new(),
        }
    }

    /// Takes in a chunk and returns the PES data that it completes, in order.
    pub fn push_chunk(&mut self, chunk: &[u8]) -> (r: Vec<Vec<u8>>)
        ensures
            (vec_views(r@), final(self)@) == demux_chunk(old(self)@, chunk@),
    {
        append_bytes(&mut self.ts_buf, chunk);
        let ghost all = self.ts_buf@;
        let ghost start = old(self)@;
        let ghost mut done: Seq<Seq<u8>> = Seq::empty();
        let mut out: Vec<Vec<u8>> = Vec::new();
        let mut pos: usize = 0;
        assert(all.skip(0) == all);
        assert(vec_views(out@) == Seq::<Seq<u8>>::empty());
        assert(done + cut_packets(all).0 == cut_packets(all).0);
        while self.ts_buf.len() - pos >= TS_PACKET_SIZE
            invariant
                self.ts_buf@ == all,
                pos <= all.len(),
                start == old(self)@,
                start.pending + chunk@ == all,
                cut_packets(all) == (
                    done + cut_packets(all.skip(pos as int)).0,
                    cut_packets(all.skip(pos as int)).1,
                ),
                vec_views(out@) == demux_packets(start, done).0,
                self.pmt_pid == demux_packets(start, done).1.pmt_pid,
                self.audio_pid == demux_packets(start, done).1.audio_pid,
                self.pes@ == demux_packets(start, done).1.pes,
            decreases all.len() - pos,
        {
            let ghost rest = all.skip(pos as int);
            if self.ts_buf[pos] != SYNC_BYTE {
                match find_sync_byte(self.ts_buf.as_slice(), pos) {
                    Some(at) => {
                        assert(rest.skip(at - pos) == all.skip(at as int));
                        proof {
                            lemma_sync_byte_from(rest, 0);
                        }
                        pos = at;
                    },
                    None => {
                        pos = self.ts_buf.len();
                        assert(all.skip(pos as int) == Seq::<u8>::empty());
                        assert(cut_packets(rest).0 == Seq::<Seq<u8>>::empty());
                    },
                }
            } else {
                let packet: &[u8] = slice_subrange(
                    self.ts_buf.as_slice(),
                    pos,
                    pos + TS_PACKET_SIZE,
                );
                assert(packet@ == rest.take(188));
                assert(rest.skip(188) == all.skip(pos + 188));
                let pid: u16 = read_pid(packet);
                if self.pmt_pid.is_none() && pid == 0 {
                    self.pmt_pid = parse_pmt_pid_from_pat(packet);
                }
                let names_pmt = match self.pmt_pid {
                    Some(p) => p == pid,
                    None => false,
                };
                if self.audio_pid.is_none() && names_pmt {
                    self.audio_pid = parse_audio_pid_from_pmt(packet);
                }
                let is_audio = match self.audio_pid {
                    Some(p) => p == pid,
                    None => false,
                };
                let ghost grown = done.push(packet@);
                let ghost earlier = out@;
                assert(grown.drop_last() == done);
                if is_audio {
                    if let Some(data) = self.pes.push(packet) {
                        out.push(data);
                        assert(vec_views(out@) == vec_views(earlier).push(data@));
                    }
                }
                proof {
                    assert(done + (seq![packet@] + cut_packets(all.skip(pos + 188)).0) == grown
                        + cut_packets(all.skip(pos + 188)).0);
                    done = grown;
                }
                pos += TS_PACKET_SIZE;
            }
        }
        let ghost rest = all.skip(pos as int);
        assert(cut_packets(rest).0 == Seq::<Seq<u8>>::empty());
        assert(done + cut_packets(rest).0 == done);
        self.ts_buf = slice_to_vec(
            slice_subrange(self.ts_buf.as_slice(), pos, self.ts_buf.len()),
        );
        assert(self.ts_buf@ == rest);
        out
    }
}

fn find_sync_byte(buf: &[u8], from: usize) -> (r: Option<usize>)
    requires
        from <= buf@.len(),
    ensures
        match r {
            Some(at) => from <= at < buf@.len() && sync_byte_from(buf@.skip(from as int), 0) == Some(at - from),
            None => sync_byte_from(buf@.skip(from as int), 0) is None,
        },
{
    let ghost tail = buf@.skip(from as int);
    let mut i: usize = from;
    while i < buf.len()
        invariant
            from <= i <= buf@.len(),
            tail == buf@.skip(from as int),
            sync_byte_from(tail, 0) == sync_byte_from(tail, i - from),
        decreases buf@.len() - i,
    {
        if buf[i] == SYNC_BYTE {
            return Some(i);
        }
        i += 1;
    }
    None
}

/// The bytes from the first sync byte on: what comes before it can never be
/// part of a packet.
pub open spec fn from_sync(buf: Seq<u8>) -> Seq<u8> {
    match sync_byte_from(buf, 0) {
        Some(at) => buf.skip(at),
        None => Seq::empty(),
    }
}

/// Whether two states of the demultiplexer differ at most in pending bytes
/// that can never be part of a packet.
pub open spec fn same_up_to_garbage(a: DemuxState, b: DemuxState) -> bool {
    &&& a.pmt_pid == b.pmt_pid
    &&& a.audio_pid == b.audio_pid
    &&& a.pes == b.pes
    &&& from_sync(a.pending) == from_sync(b.pending)
}

proof fn lemma_sync_byte_unique(buf: Seq<u8>, at: int)
    requires
        0 <= at < buf.len(),
        buf[at] == SYNC_BYTE,
        forall|i: int| 0 <= i < at ==> buf[i] != SYNC_BYTE,
    ensures
        sync_byte_from(buf, 0) == Some(at),
{
    lemma_sync_byte_from(buf, 0);
}

proof fn lemma_from_sync_append(a: Seq<u8>, b: Seq<u8>)
    ensures
        from_sync(a + b) == if sync_byte_from(a, 0) is Some {
            from_sync(a) + b
        } else {
            from_sync(b)
        },
        from_sync(a + b) == from_sync(from_sync(a) + b),
{
    lemma_sync_byte_from(a, 0);
    lemma_sync_byte_from(b, 0);
    lemma_sync_byte_from(a + b, 0);
    match sync_byte_from(a, 0) {
        Some(at) => {
            assert((a + b)[at] == SYNC_BYTE);
            lemma_sync_byte_unique(a + b, at);
            assert((a + b).skip(at) == a.skip(at) + b);
            lemma_sync_byte_unique(a.skip(at) + b, 0);
            assert((a.skip(at) + b).skip(0) == a.skip(at) + b);
        },
        None => {
            match sync_byte_from(b, 0) {
                Some(at) => {
                    assert((a + b)[a.len() + at] == SYNC_BYTE);
                    assert forall|i: int| 0 <= i < a.len() + at implies (a + b)[i]
                        != SYNC_BYTE by {
                        if i >= a.len() {
                            assert((a + b)[i] == b[i - a.len()]);
                        }
                    }
                    lemma_sync_byte_unique(a + b, a.len() + at);
                    assert((a + b).skip(a.len() + at) == b.skip(at));
                },
                None => {
                    match sync_byte_from(a + b, 0) {
                        Some(at) => {
                            if at >= a.len() {
                                assert(b[at - a.len()] == SYNC_BYTE);
                            }
                        },
                        None => {},
                    }
                },
            }
            assert(from_sync(a) + b == b);
        },
    }
}

proof fn lemma_cut_from_sync(buf: Seq<u8>)
    ensures
        cut_packets(buf).0 == cut_packets(from_sync(buf)).0,
        from_sync(cut_packets(buf).1) == from_sync(cut_packets(from_sync(buf)).1),
{
    lemma_sync_byte_from(buf, 0);
    let trimmed = from_sync(buf);
    match sync_byte_from(buf, 0) {
        Some(at) => {
            lemma_sync_byte_unique(trimmed, 0);
            assert(trimmed.skip(0) == trimmed);
            if buf.len() >= 188 && buf[0] == SYNC_BYTE {
                assert(at == 0);
                assert(buf.skip(0) == buf);
            }
        },
        None => {
            assert(sync_byte_from(trimmed, 0) is None);
        },
    }
}

/// Cutting packets can go on after a pause: what was left over and what came
/// since hold the packets that are still missing.
pub proof fn lemma_cut_append(a: Seq<u8>, b: Seq<u8>)
    ensures
        cut_packets(a + b).0 == cut_packets(a).0 + cut_packets(cut_packets(a).1 + b).0,
        from_sync(cut_packets(a + b).1) == from_sync(cut_packets(cut_packets(a).1 + b).1),
    decreases a.len(),
{
    if a.len() < 188 {
        assert(cut_packets(a).0 + cut_packets(a + b).0 == cut_packets(a + b).0);
    } else if a[0] == SYNC_BYTE {
        assert((a + b).take(188) == a.take(188));
        assert((a + b).skip(188) == a.skip(188) + b);
        lemma_cut_append(a.skip(188), b);
        let (p, rest) = cut_packets(a.skip(188));
        assert(seq![a.take(188)] + (p + cut_packets(rest + b).0) == (seq![a.take(188)] + p)
            + cut_packets(rest + b).0);
    } else {
        lemma_sync_byte_from(a, 0);
        match sync_byte_from(a, 0) {
            Some(at) => {
                assert((a + b)[at] == SYNC_BYTE);
                lemma_sync_byte_unique(a + b, at);
                assert((a + b).skip(at) == a.skip(at) + b);
                lemma_cut_append(a.skip(at), b);
            },
            None => {
                lemma_from_sync_append(a, b);
                lemma_cut_from_sync(a + b);
                lemma_cut_from_sync(b);
                assert(cut_packets(a).1 + b == b);
                assert(cut_packets(a).0 + cut_packets(b).0 == cut_packets(b).0);
            },
        }
    }
}

proof fn lemma_demux_ignores_pending(s: DemuxState, packets: Seq<Seq<u8>>, pending: Seq<u8>)
    ensures
        ({
            let (data, end) = demux_packets(s, packets);
            demux_packets(DemuxState { pending, ..s }, packets) == (
                data,
                DemuxState { pending, ..end },
            )
        }),
    decreases packets.len(),
{
    if packets.len() > 0 {
        lemma_demux_ignores_pending(s, packets.drop_last(), pending);
    }
}

proof fn lemma_demux_concat(s: DemuxState, p: Seq<Seq<u8>>, q: Seq<Seq<u8>>)
    ensures
        ({
            let (data1, mid) = demux_packets(s, p);
            let (data2, end) = demux_packets(mid, q);
            demux_packets(s, p + q) == (data1 + data2, end)
        }),
    decreases q.len(),
{
    let (data1, mid) = demux_packets(s, p);
    let (data2, end) = demux_packets(mid, q);
    if q.len() == 0 {
        assert(p + q == p);
        assert(data1 + data2 == data1);
    } else {
        assert((p + q).drop_last() == p + q.drop_last());
        assert((p + q).last() == q.last());
        lemma_demux_concat(s, p, q.drop_last());
        let (before, late) = demux_packets(mid, q.drop_last());
        match demux_packet(late, q.last()).0 {
            Some(d) => {
                assert((data1 + before).push(d) == data1 + before.push(d));
            },
            None => {},
        }
    }
}

/// How the stream is split into chunks does not matter: taking in `first` and
/// then `second` yields the PES data that taking in both at once does, and
/// leaves the same state but for bytes that no packet can hold.
pub proof fn lemma_chunking_is_invisible(s: DemuxState, first: Seq<u8>, second: Seq<u8>)
    ensures
        ({
            let (data1, mid) = demux_chunk(s, first);
            let (data2, end) = demux_chunk(mid, second);
            let (data, whole_end) = demux_chunk(s, first + second);
            &&& data == data1 + data2
            &&& same_up_to_garbage(whole_end, end)
        }),
{
    let all = s.pending + first;
    assert(s.pending + (first + second) == all + second);
    lemma_cut_append(all, second);
    let (p, rest) = cut_packets(all);
    let (q, _) = cut_packets(rest + second);
    let (_, after_p) = demux_packets(s, p);
    lemma_demux_concat(s, p, q);
    lemma_demux_ignores_pending(after_p, q, rest);
}

/// Pending bytes that no packet can hold have no effect: from states that
/// differ only in such bytes, every chunk yields the same PES data and leads
/// to states that again differ only in such bytes.
pub proof fn lemma_garbage_is_invisible(s: DemuxState, t: DemuxState, chunk: Seq<u8>)
    requires
        same_up_to_garbage(s, t),
    ensures
        demux_chunk(s, chunk).0 == demux_chunk(t, chunk).0,
        same_up_to_garbage(demux_chunk(s, chunk).1, demux_chunk(t, chunk).1),
{
    lemma_from_sync_append(s.pending, chunk);
    lemma_from_sync_append(t.pending, chunk);
    lemma_cut_from_sync(s.pending + chunk);
    lemma_cut_from_sync(t.pending + chunk);
    let packets = cut_packets(s.pending + chunk).0;
    lemma_demux_ignores_pending(s, packets, t.pending);
}

} // verus!
