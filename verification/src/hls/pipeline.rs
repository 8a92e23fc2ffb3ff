//! What joins the transcoder, the muxer and the segment store of a channel.
use super::duration::SegmentDuration;
use super::id3_inject::{
    build_id3v2, hold_fields, id3_tag, lemma_fields_read_back, read_frames, tag_frames,
    TrackMetadata,
};
use super::muxer::{mux, segment_view, CompletedSegment, MuxerState, SegmentView, TsMuxer};
use super::segment_laws::{
    has_layout, is_playable, lemma_segments_are_playable, mux_all, mux_tagged, TaggedFrame,
};
use super::segment_store::{
    added, added_all, data_of, empty_store, is_consistent, lemma_get_after_adds,
    lemma_ring_keeps_the_latest, SegmentStore, StoreState,
};
use crate::text::{
    chars_of, lemma_suffixes_come_off, number_of, number_up_to, parse_u32, trim_suffixes,
    without_suffixes,
};
use crate::transcoder::frame::{AacFrame, TranscoderConfig};
use vstd::prelude::*;
use vstd::string::StringExecFns;
use vstd::utf8::encode_utf8;

verus! {

/// How many segments are kept of a channel.
pub const RING_SIZE: usize = 30;

/// A store for the segments of a channel.
pub fn channel_store() -> (r: SegmentStore)
    ensures
        r@ == empty_store(RING_SIZE as nat),
        is_consistent(r@),
{
    SegmentStore::new(RING_SIZE)
}

/// The thirty segments of a channel that came last can be had, each under its
/// number, and no others.
pub proof fn lemma_channel_keeps_its_ring(items: Seq<(Seq<u8>, SegmentDuration)>, seq: nat)
    ensures
        data_of(added_all(RING_SIZE as nat, items), seq) == if items.len() - 30 <= seq
            < items.len() {
            Some(items[seq as int].0)
        } else {
            None
        },
{
    lemma_get_after_adds(RING_SIZE as nat, items, seq);
}

/// Segments as they are added to a store.
pub open spec fn items_of(segments: Seq<SegmentView>) -> Seq<(Seq<u8>, SegmentDuration)> {
    Seq::new(segments.len(), |i: int| (segments[i].data, segments[i].duration))
}

/// A channel that took in a run of frames: every segment that a frame closed
/// was added to its store.
pub open spec fn channel_after(m: MuxerState, run: Seq<TaggedFrame>) -> (StoreState, MuxerState)
    decreases run.len(),
{
    if run.len() == 0 {
        (empty_store(RING_SIZE as nat), m)
    } else {
        let (store, mid) = channel_after(m, run.drop_last());
        let (segment, end) = mux_tagged(mid, run.last());
        match segment {
            Some(s) => (added(store, s.data, s.duration), end),
            None => (store, end),
        }
    }
}

/// The store of a channel holds the segments of its run, in order.
pub proof fn lemma_channel_stores_its_run(m: MuxerState, run: Seq<TaggedFrame>)
    ensures
        ({
            let (segments, end) = mux_all(m, run);
            channel_after(m, run) == (added_all(RING_SIZE as nat, items_of(segments)), end)
        }),
    decreases run.len(),
{
    if run.len() == 0 {
        assert(items_of(mux_all(m, run).0) =~= Seq::empty());
    } else {
        lemma_channel_stores_its_run(m, run.drop_last());
        let (before, mid) = mux_all(m, run.drop_last());
        if let Some(s) = mux_tagged(mid, run.last()).0 {
            let items = items_of(before.push(s));
            assert(items.drop_last() =~= items_of(before));
            assert(items.last() == (s.data, s.duration));
        }
    }
}

/// Of the segments that a run of frames closed, the last ones, as many as are
/// kept, can be had, each under its number, and nothing else. What a channel
/// gives out that started with a new muxer a player can start with.
pub proof fn lemma_channel_gives_out_its_run(m: MuxerState, run: Seq<TaggedFrame>, seq: nat)
    ensures
        ({
            let segments = mux_all(m, run).0;
            let store = channel_after(m, run).0;
            &&& is_consistent(store)
            &&& store.next_seq == segments.len()
            &&& data_of(store, seq) == if segments.len() - RING_SIZE <= seq < segments.len() {
                Some(segments[seq as int].data)
            } else {
                None
            }
            &&& has_layout(m) ==> (data_of(store, seq) matches Some(data) ==> is_playable(data))
        }),
{
    let segments = mux_all(m, run).0;
    lemma_channel_stores_its_run(m, run);
    lemma_channel_keeps_its_ring(items_of(segments), seq);
    lemma_ring_keeps_the_latest(RING_SIZE as nat, items_of(segments));
    if has_layout(m) {
        lemma_segments_are_playable(m, run);
    }
}

/// Where a tuner streams a channel.
pub open spec fn stream_url(host: Seq<char>, port: Seq<char>, channel: Seq<char>) -> Seq<char> {
    "http://"@ + host + ":"@ + port + "/auto/v"@ + channel
}

/// The bit rate that a setting such as "256k" asks for, in kilobits per
/// second. What is not a number asks for 256.
pub open spec fn kilobits_of(setting: Seq<char>) -> nat {
    match number_up_to(without_suffixes(setting, "k"@), u32::MAX as nat) {
        Some(n) => n,
        None => 256,
    }
}

/// Reads a bit rate in kilobits per second.
pub fn read_kilobits(setting: &str) -> (r: u32)
    ensures
        r == kilobits_of(setting@),
{
    let chars: Vec<char> = chars_of(setting);
    match parse_u32(trim_suffixes(chars.as_slice(), "k")) {
        Some(n) => n,
        None => 256,
    }
}

/// What the transcoder of a channel is asked to do. The bit rate in bits per
/// second has 32 bits.
pub fn transcoder_config(host: &str, port: &str, channel: &str, bitrate: &str) -> (r:
    TranscoderConfig)
    requires
        kilobits_of(bitrate@) * 1000 <= u32::MAX,
    ensures
        r.input_url@ == stream_url(host@, port@, channel@),
        r.bitrate == kilobits_of(bitrate@) * 1000,
        r.sample_rate == 44100,
        r.channels == 2,
{
    let mut input_url: String = "http://".to_owned();
    input_url.append(host);
    input_url.append(":");
    input_url.append(port);
    input_url.append("/auto/v");
    input_url.append(channel);
    TranscoderConfig {
        input_url,
        bitrate: read_kilobits(bitrate) * 1000,
        sample_rate: 44100,
        channels: 2,
    }
}

/// The ID3 tag for a track. Without an artwork URL the tag has none.
pub open spec fn tag_for(
    title: Seq<char>,
    artist: Seq<char>,
    artwork_url: Option<Seq<char>>,
) -> Seq<u8> {
    id3_tag(
        tag_frames(
            title,
            artist,
            match artwork_url {
                Some(url) => url,
                None => Seq::empty(),
            },
        ),
    )
}

/// An optional text.
pub open spec fn text_of(s: Option<&str>) -> Option<Seq<char>> {
    match s {
        Some(text) => Some(text@),
        None => None,
    }
}

/// Takes in one frame while a track is playing, and returns the segment that
/// the frame closes. A segment that the frame opens carries the tag for the
/// track.
pub fn push_frame(
    muxer: &mut TsMuxer,
    frame: AacFrame,
    title: &str,
    artist: &str,
    artwork_url: Option<&str>,
) -> (r: Option<CompletedSegment>)
    requires
        old(muxer)@.frames < u32::MAX,
    ensures
        (segment_view(r), final(muxer)@) == mux(
            MuxerState {
                id3: tag_for(title@, artist@, text_of(artwork_url)),
                ..old(muxer)@
            },
            frame@,
        ),
{
    let url: &str = match artwork_url {
        Some(u) => u,
        None => "",
    };
    proof {
        reveal_strlit("");
        assert(""@ =~= Seq::<char>::empty());
    }
    let meta = TrackMetadata { title, artist, artwork_url: url };
    muxer.set_id3(build_id3v2(&meta));
    muxer.push_frame(frame)
}

/// Adds a finished segment to the store, and returns its number.
pub fn store_segment(store: &mut SegmentStore, segment: CompletedSegment) -> (r: u64)
    requires
        old(store)@.next_seq < u64::MAX,
    ensures
        r == old(store)@.next_seq,
        final(store)@ == added(old(store)@, segment@.data, segment@.duration),
{
    store.add(segment.data, segment.duration)
}

/// A bit rate is a number, with "k" behind it or not; what is neither counts as
/// 256.
pub proof fn lemma_bit_rate_is_read(setting: Seq<char>)
    requires
        !"k"@.is_suffix_of(setting),
    ensures
        kilobits_of(setting + "k"@) == kilobits_of(setting),
        (number_of(setting) matches Some(n) && n <= u32::MAX) ==> Some(kilobits_of(setting))
            == number_of(setting),
        number_of(setting) is None ==> kilobits_of(setting) == 256,
        (number_of(setting) matches Some(n) && n > u32::MAX) ==> kilobits_of(setting) == 256,
{
    reveal_strlit("k");
    lemma_suffixes_come_off(setting, "k"@);
}

/// The tag for a track reads back as its title, artist and artwork.
pub proof fn lemma_track_reads_back(
    title: Seq<char>,
    artist: Seq<char>,
    artwork_url: Option<Seq<char>>,
)
    requires
        ({
            let url = match artwork_url {
                Some(url) => url,
                None => Seq::empty(),
            };
            &&& encode_utf8(title).len() + encode_utf8(artist).len() + encode_utf8(url).len() + 49
                < 0x1000_0000
            &&& title.len() > 0 || artist.len() > 0 || url.len() > 0
        }),
    ensures
        hold_fields(
            read_frames(tag_for(title, artist, artwork_url).skip(10)),
            title,
            artist,
            match artwork_url {
                Some(url) => url,
                None => Seq::empty(),
            },
        ),
{
    lemma_fields_read_back(
        title,
        artist,
        match artwork_url {
            Some(url) => url,
            None => Seq::empty(),
        },
    );
}

/// The address of a channel names the tuner, its port and the channel, in this
/// order.
pub proof fn lemma_stream_address(host: Seq<char>, port: Seq<char>, channel: Seq<char>)
    ensures
        stream_url(host, port, channel) == seq!['h', 't', 't', 'p', ':', '/', '/'] + host + seq![
            ':',
        ] + port + seq!['/', 'a', 'u', 't', 'o', '/', 'v'] + channel,
{
    reveal_strlit("http://");
    reveal_strlit(":");
    reveal_strlit("/auto/v");
    assert(stream_url(host, port, channel) =~= seq!['h', 't', 't', 'p', ':', '/', '/'] + host
        + seq![':'] + port + seq!['/', 'a', 'u', 't', 'o', '/', 'v'] + channel);
}

} // verus!
