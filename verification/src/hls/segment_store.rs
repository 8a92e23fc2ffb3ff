//! The ring of segments that a channel offers, and the playlist that lists them.
use super::duration::{ceil_seconds, seconds_text, SegmentDuration};
use crate::buffers::bytes_view;
use crate::text::{decimal, has_part, occurs_at, push_decimal};
use bytes::Bytes;
use std::collections::VecDeque;
use vstd::prelude::*;
use vstd::string::StringExecFns;

verus! {

/// A segment with its sequence number.
pub struct Segment {
    pub seq: u64,
    pub data: Bytes,
    pub duration: SegmentDuration,
}

/// What a stored segment holds.
pub struct StoredSegment {
    pub seq: nat,
    pub data: Seq<u8>,
    pub duration: SegmentDuration,
}

impl View for Segment {
    type V = StoredSegment;

    open spec fn view(&self) -> StoredSegment {
        StoredSegment {
            seq: self.seq as nat,
            data: bytes_view(self.data),
            duration: self.duration,
        }
    }
}

/// The state of a store: its segments from the oldest on, how many it may
/// hold, and the number of the next one.
pub struct StoreState {
    pub segments: Seq<StoredSegment>,
    pub max: nat,
    pub next_seq: nat,
}

/// A store before its first segment.
pub open spec fn empty_store(max: nat) -> StoreState {
    StoreState { segments: Seq::empty(), max, next_seq: 0 }
}

/// The last `max` of a run of segments.
pub open spec fn latest(segments: Seq<StoredSegment>, max: nat) -> Seq<StoredSegment> {
    if segments.len() > max {
        segments.skip(segments.len() - max)
    } else {
        segments
    }
}

/// Takes in one segment. The oldest ones leave a store that is full.
pub open spec fn added(s: StoreState, data: Seq<u8>, duration: SegmentDuration) -> StoreState {
    StoreState {
        segments: latest(s.segments.push(StoredSegment { seq: s.next_seq, data, duration }), s.max),
        next_seq: s.next_seq + 1,
        ..s
    }
}

/// What every store keeps: it holds no more segments than it may, and their
/// numbers count up by one to the next number.
pub open spec fn is_consistent(s: StoreState) -> bool {
    &&& s.segments.len() <= s.max
    &&& s.segments.len() <= s.next_seq
    &&& forall|i: int|
        0 <= i < s.segments.len() ==> (#[trigger] s.segments[i]).seq == s.next_seq
            - s.segments.len() + i
}

/// Where the first segment numbered `seq` stands, from `from` on.
pub open spec fn position_of(segments: Seq<StoredSegment>, seq: nat, from: int) -> Option<int>
    decreases segments.len() - from,
{
    if from >= segments.len() {
        None
    } else if segments[from].seq == seq {
        Some(from)
    } else {
        position_of(segments, seq, from + 1)
    }
}

/// The data of the segment numbered `seq`.
pub open spec fn data_of(s: StoreState, seq: nat) -> Option<Seq<u8>> {
    match position_of(s.segments, seq, 0) {
        Some(i) => Some(s.segments[i].data),
        None => None,
    }
}

/// The length of the longest of some segments, in seconds rounded up.
pub open spec fn longest(segments: Seq<StoredSegment>) -> u64
    decreases segments.len(),
{
    if segments.len() == 0 {
        0
    } else {
        let before = longest(segments.drop_last());
        let last = ceil_seconds(segments.last().duration);
        if last >= before {
            last
        } else {
            before
        }
    }
}

/// The target duration of a playlist: the longest segment, or ten seconds for
/// an empty one.
pub open spec fn target_duration(segments: Seq<StoredSegment>) -> u64 {
    if segments.len() == 0 {
        10
    } else {
        longest(segments)
    }
}

/// The number of the oldest segment, zero where there is none.
pub open spec fn first_number(segments: Seq<StoredSegment>) -> nat {
    if segments.len() == 0 {
        0
    } else {
        segments[0].seq
    }
}

/// The number of the newest segment, zero where there is none.
pub open spec fn last_number(segments: Seq<StoredSegment>) -> nat {
    if segments.len() == 0 {
        0
    } else {
        segments.last().seq
    }
}

/// The address of a segment.
pub open spec fn segment_url(base_url: Seq<char>, channel: Seq<char>, seq: nat) -> Seq<char> {
    base_url + "/hls/"@ + channel + "/seg/"@ + decimal(seq) + ".ts"@
}

/// The lines that list one segment: its length and its address.
pub open spec fn entry_text(
    base_url: Seq<char>,
    channel: Seq<char>,
    segment: StoredSegment,
) -> Seq<char> {
    "#EXTINF:"@ + seconds_text(segment.duration) + ",\n"@ + segment_url(
        base_url,
        channel,
        segment.seq,
    ) + "\n"@
}

/// The lines that list some segments, in order.
pub open spec fn entries_text(
    base_url: Seq<char>,
    channel: Seq<char>,
    segments: Seq<StoredSegment>,
) -> Seq<char>
    decreases segments.len(),
{
    if segments.len() == 0 {
        Seq::empty()
    } else {
        entries_text(base_url, channel, segments.drop_last()) + entry_text(
            base_url,
            channel,
            segments.last(),
        )
    }
}

/// The head of a playlist.
pub open spec fn header_text(segments: Seq<StoredSegment>) -> Seq<char> {
    "#EXTM3U\n#EXT-X-VERSION:3\n#EXT-X-TARGETDURATION:"@ + decimal(
        target_duration(segments) as nat,
    ) + "\n#EXT-X-MEDIA-SEQUENCE:"@ + decimal(first_number(segments)) + "\n"@
}

/// The playlist of some segments, once there are enough of them.
pub open spec fn playlist_text(
    segments: Seq<StoredSegment>,
    base_url: Seq<char>,
    channel: Seq<char>,
    min_segments: nat,
) -> Seq<char> {
    if segments.len() < min_segments {
        Seq::empty()
    } else {
        header_text(segments) + entries_text(base_url, channel, segments)
    }
}

/// A ring buffer of segments.
pub struct SegmentStore {
    segments: VecDeque<Segment>,
    max_segments: usize,
    next_seq: u64,
}

/// The views of a run of segments.
pub open spec fn stored_views(segments: Seq<Segment>) -> Seq<StoredSegment> {
    Seq::new(segments.len(), |i: int| segments[i]@)
}

impl View for SegmentStore {
    type V = StoreState;

    closed spec fn view(&self) -> StoreState {
        StoreState {
            segments: stored_views(self.segments@),
            max: self.max_segments as nat,
            next_seq: self.next_seq as nat,
        }
    }
}

impl SegmentStore {
    /// A store that holds up to `max_segments` segments.
    pub fn new(max_segments: usize) -> (r: Self)
        ensures
            r@ == empty_store(max_segments as nat),
            is_consistent(r@),
    {
        let r = Self { segments: VecDeque::new(), max_segments, next_seq: 0 };
        assert(r@.segments =~= Seq::empty());
        r
    }

    /// Adds a segment, and returns its number.
    pub fn add(&mut self, data: Bytes, duration: SegmentDuration) -> (r: u64)
        requires
            old(self)@.next_seq < u64::MAX,
        ensures
            r == old(self)@.next_seq,
            final(self)@ == added(old(self)@, bytes_view(data), duration),
            is_consistent(old(self)@) ==> is_consistent(final(self)@),
    {
        let seq: u64 = self.next_seq;
        self.next_seq += 1;
        let ghost more = stored_views(self.segments@).push(
            StoredSegment { seq: seq as nat, data: bytes_view(data), duration },
        );
        self.segments.push_back(Segment { seq, data, duration });
        assert(stored_views(self.segments@) =~= more);
        assert(latest(more, self.max_segments as nat) == latest(
            stored_views(self.segments@),
            self.max_segments as nat,
        ));
        while self.segments.len() > self.max_segments
            invariant
                self.next_seq == old(self).next_seq + 1,
                self.max_segments == old(self).max_segments,
                latest(more, self.max_segments as nat) == latest(
                    stored_views(self.segments@),
                    self.max_segments as nat,
                ),
            decreases self.segments@.len(),
        {
            let ghost before = self.segments@;
            let _ = self.segments.pop_front();
            proof {
                let max = self.max_segments as int;
                assert(stored_views(before).skip(before.len() - max) =~= latest(
                    stored_views(self.segments@),
                    max as nat,
                ));
            }
        }
        proof {
            lemma_add_keeps_consistent(old(self)@, bytes_view(data), duration);
        }
        seq
    }

    /// The data of the segment numbered `seq`.
    pub fn get(&self, seq: u64) -> (r: Option<&Bytes>)
        ensures
            match r {
                Some(data) => data_of(self@, seq as nat) == Some(bytes_view(*data)),
                None => data_of(self@, seq as nat) is None,
            },
    {
        let mut i: usize = 0;
        while i < self.segments.len()
            invariant
                position_of(self@.segments, seq as nat, 0) == position_of(
                    self@.segments,
                    seq as nat,
                    i as int,
                ),
            decreases self.segments@.len() - i,
        {
            if self.segments[i].seq == seq {
                return Some(&self.segments[i].data);
            }
            i += 1;
        }
        None
    }

    /// The playlist, or nothing as long as there are fewer than
    /// `min_segments` segments.
    pub fn generate_playlist(
        &self,
        base_url: &str,
        channel: &str,
        min_segments: usize,
    ) -> (r: String)
        ensures
            r@ == playlist_text(self@.segments, base_url@, channel@, min_segments as nat),
    {
        if self.segments.len() < min_segments {
            return String::new();
        }
        let mut out: String = "#EXTM3U\n#EXT-X-VERSION:3\n#EXT-X-TARGETDURATION:".to_owned();
        push_decimal(&mut out, self.longest_segment());
        out.append("\n#EXT-X-MEDIA-SEQUENCE:");
        push_decimal(&mut out, self.first_seq());
        out.append("\n");
        assert(out@ == header_text(self@.segments));
        let mut i: usize = 0;
        assert(out@ =~= header_text(self@.segments) + entries_text(
            base_url@,
            channel@,
            self@.segments.take(0),
        ));
        while i < self.segments.len()
            invariant
                i <= self.segments@.len(),
                out@ == header_text(self@.segments) + entries_text(
                    base_url@,
                    channel@,
                    self@.segments.take(i as int),
                ),
            decreases self.segments@.len() - i,
        {
            let ghost before = out@;
            push_entry(&mut out, base_url, channel, &self.segments[i]);
            i += 1;
            proof {
                let listed = self@.segments.take(i as int);
                assert(listed.drop_last() =~= self@.segments.take(i - 1));
                assert(out@ =~= header_text(self@.segments) + entries_text(
                    base_url@,
                    channel@,
                    listed,
                ));
            }
        }
        assert(self@.segments.take(self.segments@.len() as int) =~= self@.segments);
        out
    }

    fn longest_segment(&self) -> (r: u64)
        ensures
            r == target_duration(self@.segments),
    {
        if self.segments.len() == 0 {
            return 10;
        }
        let mut most: u64 = 0;
        let mut i: usize = 0;
        assert(self@.segments.take(0) =~= Seq::empty());
        while i < self.segments.len()
            invariant
                i <= self.segments@.len(),
                most == longest(self@.segments.take(i as int)),
            decreases self.segments@.len() - i,
        {
            let seconds: u64 = self.segments[i].duration.ceil();
            if seconds >= most {
                most = seconds;
            }
            i += 1;
            assert(self@.segments.take(i as int).drop_last() =~= self@.segments.take(i - 1));
        }
        assert(self@.segments.take(self.segments@.len() as int) =~= self@.segments);
        most
    }

    /// Whether there is no segment yet.
    pub fn is_empty(&self) -> (r: bool)
        ensures
            r == (self@.segments.len() == 0),
    {
        self.segments.len() == 0
    }

    /// How many segments there are.
    pub fn count(&self) -> (r: usize)
        ensures
            r == self@.segments.len(),
    {
        self.segments.len()
    }

    /// The number of the oldest segment, zero where there is none.
    pub fn first_seq(&self) -> (r: u64)
        ensures
            r == first_number(self@.segments),
    {
        if self.segments.len() == 0 {
            0
        } else {
            self.segments[0].seq
        }
    }

    /// The number of the newest segment, zero where there is none.
    pub fn last_seq(&self) -> (r: u64)
        ensures
            r == last_number(self@.segments),
    {
        let n: usize = self.segments.len();
        if n == 0 {
            0
        } else {
            self.segments[n - 1].seq
        }
    }
}

fn push_entry(out: &mut String, base_url: &str, channel: &str, segment: &Segment)
    ensures
        final(out)@ == old(out)@ + entry_text(base_url@, channel@, segment@),
{
    out.append("#EXTINF:");
    segment.duration.push_text(out);
    out.append(",\n");
    out.append(base_url);
    out.append("/hls/");
    out.append(channel);
    out.append("/seg/");
    push_decimal(out, segment.seq);
    out.append(".ts");
    out.append("\n");
    assert(out@ =~= old(out)@ + entry_text(base_url@, channel@, segment@));
}

/// The numbers of a store in memory have 64 bits.
pub proof fn lemma_numbers_fit(store: SegmentStore)
    ensures
        store@.next_seq <= u64::MAX,
{
}

/// Adding a segment keeps a store consistent.
pub proof fn lemma_add_keeps_consistent(s: StoreState, data: Seq<u8>, duration: SegmentDuration)
    ensures
        is_consistent(s) ==> is_consistent(added(s, data, duration)),
{
    let more = s.segments.push(StoredSegment { seq: s.next_seq, data, duration });
    let after = added(s, data, duration);
    if is_consistent(s) {
        assert forall|i: int| 0 <= i < more.len() implies (#[trigger] more[i]).seq == s.next_seq
            + 1 - more.len() + i by {
            if i < s.segments.len() {
                assert(more[i] == s.segments[i]);
            }
        }
        assert forall|i: int| 0 <= i < after.segments.len() implies (
        #[trigger] after.segments[i]).seq == after.next_seq - after.segments.len() + i by {
            assert(after.segments[i] == more[i + more.len() - after.segments.len()]);
        }
    }
}

/// A segment is to be had by its number exactly while it is among the stored
/// ones: the numbers on offer run without a gap up to the newest.
pub proof fn lemma_get_by_number(s: StoreState, seq: nat)
    requires
        is_consistent(s),
    ensures
        data_of(s, seq) is Some <==> s.next_seq - s.segments.len() <= seq < s.next_seq,
        s.next_seq - s.segments.len() <= seq < s.next_seq ==> data_of(s, seq) == Some(
            s.segments[seq - (s.next_seq - s.segments.len())].data,
        ),
{
    lemma_position(s, seq, 0);
}

proof fn lemma_position(s: StoreState, seq: nat, from: int)
    requires
        is_consistent(s),
        0 <= from <= s.segments.len(),
    ensures
        ({
            let i = seq - (s.next_seq - s.segments.len());
            position_of(s.segments, seq, from) == if from <= i < s.segments.len() {
                Some(i)
            } else {
                None
            }
        }),
    decreases s.segments.len() - from,
{
    if from < s.segments.len() {
        assert(s.segments[from].seq == s.next_seq - s.segments.len() + from);
        lemma_position(s, seq, from + 1);
    }
}

/// The store after a run of segments.
pub open spec fn added_all(max: nat, items: Seq<(Seq<u8>, SegmentDuration)>) -> StoreState
    decreases items.len(),
{
    if items.len() == 0 {
        empty_store(max)
    } else {
        added(added_all(max, items.drop_last()), items.last().0, items.last().1)
    }
}

/// Segments are numbered in the order in which they came, and a store holds
/// the last ones, as many as it may.
pub proof fn lemma_ring_keeps_the_latest(max: nat, items: Seq<(Seq<u8>, SegmentDuration)>)
    ensures
        ({
            let s = added_all(max, items);
            let all = Seq::new(
                items.len(),
                |i: int|
                    StoredSegment { seq: i as nat, data: items[i].0, duration: items[i].1 },
            );
            &&& is_consistent(s)
            &&& s.next_seq == items.len()
            &&& s.max == max
            &&& s.segments.len() == if items.len() < max {
                items.len()
            } else {
                max
            }
            &&& s.segments == latest(all, max)
        }),
    decreases items.len(),
{
    let all = Seq::new(
        items.len(),
        |i: int| StoredSegment { seq: i as nat, data: items[i].0, duration: items[i].1 },
    );
    if items.len() == 0 {
        assert(latest(all, max) =~= Seq::empty());
    } else {
        let fewer = items.drop_last();
        lemma_ring_keeps_the_latest(max, fewer);
        let before = added_all(max, fewer);
        let all_before = Seq::new(
            fewer.len(),
            |i: int| StoredSegment { seq: i as nat, data: fewer[i].0, duration: fewer[i].1 },
        );
        lemma_add_keeps_consistent(before, items.last().0, items.last().1);
        assert(all_before.push(all.last()) =~= all);
        assert(added_all(max, items).segments =~= latest(all, max));
    }
}

/// What was added as number `seq` is what a request for `seq` gets, as long as
/// no more than `max` segments were added from it on.
pub proof fn lemma_get_after_adds(max: nat, items: Seq<(Seq<u8>, SegmentDuration)>, seq: nat)
    ensures
        data_of(added_all(max, items), seq) == if items.len() - max <= seq < items.len() {
            Some(items[seq as int].0)
        } else {
            None
        },
{
    lemma_ring_keeps_the_latest(max, items);
    lemma_get_by_number(added_all(max, items), seq);
}

/// The numbers that a playlist lists run on from the one in its head.
pub proof fn lemma_listed_numbers_run(s: StoreState, i: int)
    requires
        is_consistent(s),
        0 <= i < s.segments.len(),
    ensures
        s.segments[i].seq == first_number(s.segments) + i,
        last_number(s.segments) == s.next_seq - 1,
{
    assert(s.segments[0].seq == s.next_seq - s.segments.len());
    assert(s.segments[s.segments.len() - 1].seq == s.next_seq - 1);
}

/// No segment is longer than the target duration of its playlist.
pub proof fn lemma_target_covers_segments(segments: Seq<StoredSegment>, i: int)
    requires
        0 <= i < segments.len(),
    ensures
        ceil_seconds(segments[i].duration) <= target_duration(segments),
{
    lemma_longest_covers(segments, i);
}

proof fn lemma_longest_covers(segments: Seq<StoredSegment>, i: int)
    requires
        0 <= i < segments.len(),
    ensures
        ceil_seconds(segments[i].duration) <= longest(segments),
    decreases segments.len(),
{
    if i < segments.len() - 1 {
        lemma_longest_covers(segments.drop_last(), i);
    }
}

/// A playlist lists every segment of the store.
pub proof fn lemma_playlist_lists_segment(
    segments: Seq<StoredSegment>,
    base_url: Seq<char>,
    channel: Seq<char>,
    min_segments: nat,
    i: int,
)
    requires
        min_segments <= segments.len(),
        0 <= i < segments.len(),
    ensures
        has_part(
            playlist_text(segments, base_url, channel, min_segments),
            entry_text(base_url, channel, segments[i]),
        ),
{
    let head = header_text(segments);
    let entries = entries_text(base_url, channel, segments);
    let entry = entry_text(base_url, channel, segments[i]);
    lemma_entries_hold_entry(segments, base_url, channel, i);
    let k = choose|k: int| occurs_at(entries, entry, k);
    assert((head + entries).subrange(head.len() + k, head.len() + k + entry.len())
        =~= entries.subrange(k, k + entry.len()));
    assert(occurs_at(head + entries, entry, head.len() + k));
}

proof fn lemma_entries_hold_entry(
    segments: Seq<StoredSegment>,
    base_url: Seq<char>,
    channel: Seq<char>,
    i: int,
)
    requires
        0 <= i < segments.len(),
    ensures
        has_part(
            entries_text(base_url, channel, segments),
            entry_text(base_url, channel, segments[i]),
        ),
    decreases segments.len(),
{
    let before = entries_text(base_url, channel, segments.drop_last());
    let last = entry_text(base_url, channel, segments.last());
    let entry = entry_text(base_url, channel, segments[i]);
    if i < segments.len() - 1 {
        lemma_entries_hold_entry(segments.drop_last(), base_url, channel, i);
        let k = choose|k: int| occurs_at(before, entry, k);
        assert((before + last).subrange(k, k + entry.len()) =~= before.subrange(
            k,
            k + entry.len(),
        ));
        assert(occurs_at(before + last, entry, k));
    } else {
        let k = before.len() as int;
        assert((before + last).subrange(k, k + entry.len()) =~= entry);
        assert(occurs_at(before + last, entry, k));
    }
}

} // verus!
