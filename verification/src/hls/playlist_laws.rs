//! What a player reads in a playlist, line by line.
use super::duration::{
    ceil_seconds, lemma_ceil_bounds, rounded_millis, seconds_text, SegmentDuration,
};
use super::segment_store::{
    entries_text, entry_text, header_text, lemma_target_covers_segments, longest, playlist_text,
    target_duration, StoredSegment,
};
use crate::text::{decimal, is_digit, lemma_decimal_round_trip, number_of};
use vstd::prelude::*;

verus! {

/// The lines of a text, cut at each line feed.
pub open spec fn lines_of(text: Seq<char>) -> Seq<Seq<char>>
    decreases text.len(),
{
    if text.len() == 0 {
        seq![Seq::empty()]
    } else {
        let before = lines_of(text.drop_last());
        if text.last() == '\n' {
            before.push(Seq::empty())
        } else {
            before.drop_last().push(before.last().push(text.last()))
        }
    }
}

/// Whether a text is all on one line.
pub open spec fn is_line(text: Seq<char>) -> bool {
    forall|i: int| 0 <= i < text.len() ==> #[trigger] text[i] != '\n'
}

proof fn lemma_lines_grow(text: Seq<char>, line: Seq<char>)
    requires
        is_line(line),
    ensures
        lines_of(text).len() > 0,
        lines_of(text + line) == lines_of(text).drop_last().push(lines_of(text).last() + line),
    decreases line.len(),
{
    lemma_some_line(text);
    let lines = lines_of(text);
    if line.len() == 0 {
        assert(text + line =~= text);
        assert(lines.last() + line =~= lines.last());
        assert(lines.drop_last().push(lines.last()) =~= lines);
    } else {
        let less = line.drop_last();
        assert forall|i: int| 0 <= i < less.len() implies #[trigger] less[i] != '\n' by {
            assert(less[i] == line[i]);
        }
        lemma_lines_grow(text, less);
        assert((text + line).drop_last() =~= text + less);
        assert((text + line).last() == line[line.len() - 1]);
        let before = lines_of(text + less);
        assert(before.drop_last() =~= lines.drop_last());
        assert(before.last().push(line.last()) =~= lines.last() + line);
    }
}

proof fn lemma_some_line(text: Seq<char>)
    ensures
        lines_of(text).len() > 0,
    decreases text.len(),
{
    if text.len() > 0 {
        lemma_some_line(text.drop_last());
    }
}

/// A line, ended, becomes one more line where the text before it ended its own.
proof fn lemma_one_more_line(text: Seq<char>, line: Seq<char>)
    requires
        is_line(line),
        lines_of(text).last() == Seq::<char>::empty(),
    ensures
        lines_of(text + line + seq!['\n']) == lines_of(text).drop_last().push(line).push(
            Seq::empty(),
        ),
{
    lemma_lines_grow(text, line);
    let ended = text + line + seq!['\n'];
    assert(ended.drop_last() =~= text + line);
    assert(ended.last() == '\n');
    assert(Seq::<char>::empty() + line =~= line);
}

/// What follows a text does not change the lines that it ended.
proof fn lemma_lines_stay(text: Seq<char>, more: Seq<char>)
    ensures
        lines_of(text).len() > 0,
        lines_of(text + more).len() >= lines_of(text).len(),
        forall|i: int|
            0 <= i < lines_of(text).len() - 1 ==> #[trigger] lines_of(text + more)[i] == lines_of(
                text,
            )[i],
    decreases more.len(),
{
    lemma_some_line(text);
    if more.len() == 0 {
        assert(text + more =~= text);
    } else {
        lemma_lines_stay(text, more.drop_last());
        assert((text + more).drop_last() =~= text + more.drop_last());
    }
}

/// Whether a text is a label and a number in decimal behind it.
pub open spec fn is_labelled(line: Seq<char>, label: Seq<char>, n: nat) -> bool {
    exists|digits: Seq<char>| line == label + digits && #[trigger] number_of(digits) == Some(n)
}

/// Whether a text is the address of a segment under a base address and a
/// channel: its number stands between "/seg/" and ".ts".
pub open spec fn is_address(
    line: Seq<char>,
    base_url: Seq<char>,
    channel: Seq<char>,
    n: nat,
) -> bool {
    exists|digits: Seq<char>|
        line == base_url + "/hls/"@ + channel + "/seg/"@ + digits + ".ts"@ && #[trigger] number_of(
            digits,
        ) == Some(n)
}

proof fn lemma_decimal_is_line(n: nat)
    ensures
        is_line(decimal(n)),
        number_of(decimal(n)) == Some(n),
{
    lemma_decimal_round_trip(n);
    assert forall|i: int| 0 <= i < decimal(n).len() implies #[trigger] decimal(n)[i] != '\n' by {
        assert(is_digit(decimal(n)[i]));
    }
}

proof fn lemma_joined_line(a: Seq<char>, b: Seq<char>)
    requires
        is_line(a),
        is_line(b),
    ensures
        is_line(a + b),
{
}

#[verifier::spinoff_prover]
#[verifier::rlimit(60)]
proof fn lemma_header_lines(segments: Seq<StoredSegment>)
    ensures
        ({
            let lines = lines_of(header_text(segments));
            &&& lines.len() == 5
            &&& lines[0] == "#EXTM3U"@
            &&& lines[1] == "#EXT-X-VERSION:3"@
            &&& lines[2] == "#EXT-X-TARGETDURATION:"@ + decimal(target_duration(segments) as nat)
            &&& is_labelled(
                lines[3],
                "#EXT-X-MEDIA-SEQUENCE:"@,
                if segments.len() == 0 {
                    0
                } else {
                    segments[0].seq
                },
            )
            &&& lines[4] == Seq::<char>::empty()
        }),
{
    reveal_strlit("#EXTM3U");
    reveal_strlit("#EXT-X-VERSION:3");
    reveal_strlit("#EXT-X-TARGETDURATION:");
    reveal_strlit("#EXT-X-MEDIA-SEQUENCE:");
    reveal_strlit("#EXTM3U\n#EXT-X-VERSION:3\n#EXT-X-TARGETDURATION:");
    reveal_strlit("\n#EXT-X-MEDIA-SEQUENCE:");
    reveal_strlit("\n");
    let target = decimal(target_duration(segments) as nat);
    let first = decimal(
        if segments.len() == 0 {
            0
        } else {
            segments[0].seq
        },
    );
    let feed = seq!['\n'];
    let none = Seq::<char>::empty();
    let line1 = "#EXTM3U"@;
    let line2 = "#EXT-X-VERSION:3"@;
    let line3 = "#EXT-X-TARGETDURATION:"@ + target;
    let line4 = "#EXT-X-MEDIA-SEQUENCE:"@ + first;
    lemma_decimal_is_line(target_duration(segments) as nat);
    lemma_decimal_is_line(
        if segments.len() == 0 {
            0
        } else {
            segments[0].seq
        },
    );
    lemma_joined_line("#EXT-X-TARGETDURATION:"@, target);
    lemma_joined_line("#EXT-X-MEDIA-SEQUENCE:"@, first);
    let t1 = none + line1 + feed;
    let t2 = t1 + line2 + feed;
    let t3 = t2 + line3 + feed;
    let t4 = t3 + line4 + feed;
    lemma_one_more_line(none, line1);
    lemma_one_more_line(t1, line2);
    lemma_one_more_line(t2, line3);
    lemma_one_more_line(t3, line4);
    assert(header_text(segments) =~= t4);
}

/// The head of every playlist that is written. Its fourth line has the number
/// of the first segment listed, whatever their number.
pub proof fn lemma_playlist_head(
    segments: Seq<StoredSegment>,
    base_url: Seq<char>,
    channel: Seq<char>,
    min_segments: nat,
)
    requires
        segments.len() >= min_segments,
    ensures
        ({
            let lines = lines_of(playlist_text(segments, base_url, channel, min_segments));
            &&& lines.len() >= 5
            &&& lines[0] == "#EXTM3U"@
            &&& lines[1] == "#EXT-X-VERSION:3"@
            &&& segments.len() > 0 ==> is_labelled(
                lines[3],
                "#EXT-X-MEDIA-SEQUENCE:"@,
                segments[0].seq,
            )
        }),
{
    lemma_header_lines(segments);
    lemma_lines_stay(header_text(segments), entries_text(base_url, channel, segments));
}

/// Until there are enough segments there is no playlist.
pub proof fn lemma_playlist_is_withheld(
    segments: Seq<StoredSegment>,
    base_url: Seq<char>,
    channel: Seq<char>,
    min_segments: nat,
)
    ensures
        (playlist_text(segments, base_url, channel, min_segments).len() == 0) == (segments.len()
            < min_segments),
{
    reveal_strlit("\n");
}

proof fn lemma_seconds_are_line(d: SegmentDuration)
    ensures
        is_line(seconds_text(d)),
{
    reveal_strlit(".");
    reveal_strlit("inf");
    reveal_strlit("NaN");
    lemma_decimal_is_line(rounded_millis(d) / 1000);
}

#[verifier::spinoff_prover]
#[verifier::rlimit(60)]
proof fn lemma_entry_lines(
    text: Seq<char>,
    base_url: Seq<char>,
    channel: Seq<char>,
    segment: StoredSegment,
)
    requires
        is_line(base_url),
        is_line(channel),
        lines_of(text).last() == Seq::<char>::empty(),
    ensures
        ({
            let lines = lines_of(text + entry_text(base_url, channel, segment));
            let n = lines_of(text).len() as int;
            &&& lines.len() == n + 2
            &&& forall|i: int| 0 <= i < n - 1 ==> #[trigger] lines[i] == lines_of(text)[i]
            &&& lines[n - 1] == "#EXTINF:"@ + seconds_text(segment.duration) + ","@
            &&& is_address(lines[n], base_url, channel, segment.seq)
            &&& lines[n + 1] == Seq::<char>::empty()
        }),
{
    reveal_strlit("#EXTINF:");
    reveal_strlit(",");
    reveal_strlit(",\n");
    reveal_strlit("\n");
    reveal_strlit("/hls/");
    reveal_strlit("/seg/");
    reveal_strlit(".ts");
    let feed = seq!['\n'];
    let number = decimal(segment.seq);
    lemma_some_line(text);
    lemma_seconds_are_line(segment.duration);
    lemma_decimal_is_line(segment.seq);
    let line1 = "#EXTINF:"@ + seconds_text(segment.duration) + ","@;
    let line2 = base_url + "/hls/"@ + channel + "/seg/"@ + number + ".ts"@;
    lemma_joined_line("#EXTINF:"@, seconds_text(segment.duration));
    lemma_joined_line("#EXTINF:"@ + seconds_text(segment.duration), ","@);
    lemma_joined_line(base_url, "/hls/"@);
    lemma_joined_line(base_url + "/hls/"@, channel);
    lemma_joined_line(base_url + "/hls/"@ + channel, "/seg/"@);
    lemma_joined_line(base_url + "/hls/"@ + channel + "/seg/"@, number);
    lemma_joined_line(base_url + "/hls/"@ + channel + "/seg/"@ + number, ".ts"@);
    let t1 = text + line1 + feed;
    lemma_one_more_line(text, line1);
    lemma_one_more_line(t1, line2);
    assert(",\n"@ =~= ","@ + feed);
    assert("\n"@ =~= feed);
    assert(text + entry_text(base_url, channel, segment) =~= t1 + line2 + feed);
}

#[verifier::spinoff_prover]
#[verifier::rlimit(60)]
proof fn lemma_entries_lines(
    head: Seq<char>,
    base_url: Seq<char>,
    channel: Seq<char>,
    segments: Seq<StoredSegment>,
)
    requires
        is_line(base_url),
        is_line(channel),
        lines_of(head).last() == Seq::<char>::empty(),
    ensures
        ({
            let lines = lines_of(head + entries_text(base_url, channel, segments));
            let n = lines_of(head).len() - 1;
            &&& n >= 0
            &&& lines.len() == n + 2 * segments.len() + 1
            &&& lines.last() == Seq::<char>::empty()
            &&& forall|i: int|
                #![trigger segments[i]]
                0 <= i < segments.len() ==> {
                    &&& lines[n + 2 * i] == "#EXTINF:"@ + seconds_text(segments[i].duration) + ","@
                    &&& is_address(lines[n + 2 * i + 1], base_url, channel, segments[i].seq)
                }
        }),
    decreases segments.len(),
{
    lemma_some_line(head);
    let n = lines_of(head).len() - 1;
    if segments.len() == 0 {
        assert(head + entries_text(base_url, channel, segments) =~= head);
    } else {
        let fewer = segments.drop_last();
        lemma_entries_lines(head, base_url, channel, fewer);
        let text = head + entries_text(base_url, channel, fewer);
        let last = segments.last();
        lemma_entry_lines(text, base_url, channel, last);
        assert(head + entries_text(base_url, channel, segments) =~= text + entry_text(
            base_url,
            channel,
            last,
        ));
        let lines = lines_of(head + entries_text(base_url, channel, segments));
        assert forall|i: int|
            #![trigger segments[i]]
            0 <= i < segments.len() implies lines[n + 2 * i] == "#EXTINF:"@ + seconds_text(
            segments[i].duration,
        ) + ","@ && is_address(lines[n + 2 * i + 1], base_url, channel, segments[i].seq) by {
            if i < fewer.len() {
                assert(fewer[i] == segments[i]);
                assert(lines[n + 2 * i] == lines_of(text)[n + 2 * i]);
                assert(lines[n + 2 * i + 1] == lines_of(text)[n + 2 * i + 1]);
            }
        }
    }
}

/// A playlist lists every segment, in order and nothing else: behind the four
/// lines of its head, two lines for each, the first with its length, the second
/// with its address. The number in the fourth line is that in the first
/// address.
pub proof fn lemma_playlist_lines(
    segments: Seq<StoredSegment>,
    base_url: Seq<char>,
    channel: Seq<char>,
    min_segments: nat,
)
    requires
        segments.len() >= min_segments,
        is_line(base_url),
        is_line(channel),
    ensures
        ({
            let lines = lines_of(playlist_text(segments, base_url, channel, min_segments));
            &&& lines.len() == 5 + 2 * segments.len()
            &&& lines.last() == Seq::<char>::empty()
            &&& forall|i: int|
                #![trigger segments[i]]
                0 <= i < segments.len() ==> {
                    &&& lines[4 + 2 * i] == "#EXTINF:"@ + seconds_text(segments[i].duration) + ","@
                    &&& is_address(lines[5 + 2 * i], base_url, channel, segments[i].seq)
                }
            &&& segments.len() > 0 ==> exists|n: nat|
                is_labelled(lines[3], "#EXT-X-MEDIA-SEQUENCE:"@, n) && #[trigger] is_address(
                    lines[5],
                    base_url,
                    channel,
                    n,
                )
        }),
{
    lemma_header_lines(segments);
    lemma_entries_lines(header_text(segments), base_url, channel, segments);
    lemma_playlist_head(segments, base_url, channel, min_segments);
    if segments.len() > 0 {
        let lines = lines_of(playlist_text(segments, base_url, channel, min_segments));
        assert(segments[0] == segments[0]);
        assert(is_address(lines[5], base_url, channel, segments[0].seq));
    }
}

/// The third line of a playlist has the target duration: no segment is longer,
/// and some segment is longer than any shorter whole number of seconds. With no
/// segment it is ten seconds.
#[verifier::spinoff_prover]
#[verifier::rlimit(60)]
pub proof fn lemma_playlist_target(
    segments: Seq<StoredSegment>,
    base_url: Seq<char>,
    channel: Seq<char>,
    min_segments: nat,
)
    requires
        segments.len() >= min_segments,
        forall|i: int|
            0 <= i < segments.len() ==> (#[trigger] segments[i]).duration.sample_rate > 0,
    ensures
        ({
            let lines = lines_of(playlist_text(segments, base_url, channel, min_segments));
            exists|t: nat|
                {
                    &&& #[trigger] is_labelled(lines[2], "#EXT-X-TARGETDURATION:"@, t)
                    &&& segments.len() == 0 ==> t == 10
                    &&& forall|i: int|
                        #![trigger segments[i]]
                        0 <= i < segments.len() ==> segments[i].duration.frames * 1024 <= t
                            * segments[i].duration.sample_rate
                    &&& segments.len() > 0 ==> exists|i: int|
                        #![trigger segments[i]]
                        0 <= i < segments.len() && segments[i].duration.frames * 1024 > (t - 1)
                            * segments[i].duration.sample_rate
                }
        }),
{
    lemma_header_lines(segments);
    lemma_lines_stay(header_text(segments), entries_text(base_url, channel, segments));
    let lines = lines_of(playlist_text(segments, base_url, channel, min_segments));
    let t = target_duration(segments) as nat;
    lemma_decimal_is_line(t);
    assert(lines[2] == "#EXT-X-TARGETDURATION:"@ + decimal(t));
    assert(is_labelled(lines[2], "#EXT-X-TARGETDURATION:"@, t));
    assert forall|i: int|
        #![trigger segments[i]]
        0 <= i < segments.len() implies segments[i].duration.frames * 1024 <= t
        * segments[i].duration.sample_rate by {
        let d = segments[i].duration;
        lemma_target_covers_segments(segments, i);
        lemma_ceil_bounds(d);
        assert(ceil_seconds(d) * d.sample_rate <= t * d.sample_rate) by (nonlinear_arith)
            requires
                ceil_seconds(d) <= t,
        ;
    }
    if segments.len() > 0 {
        lemma_longest_is_one(segments);
        let i = choose|i: int|
            #![trigger segments[i]]
            0 <= i < segments.len() && ceil_seconds(segments[i].duration) == longest(segments);
        lemma_ceil_bounds(segments[i].duration);
        assert(segments[i].duration.frames * 1024 > (t - 1) * segments[i].duration.sample_rate);
    }
}

proof fn lemma_longest_is_one(segments: Seq<StoredSegment>)
    requires
        segments.len() > 0,
    ensures
        exists|i: int|
            #![trigger segments[i]]
            0 <= i < segments.len() && ceil_seconds(segments[i].duration) == longest(segments),
    decreases segments.len(),
{
    let fewer = segments.drop_last();
    let last = segments.len() - 1;
    assert(segments[last] == segments.last());
    if fewer.len() > 0 {
        lemma_longest_is_one(fewer);
        let i = choose|i: int|
            #![trigger fewer[i]]
            0 <= i < fewer.len() && ceil_seconds(fewer[i].duration) == longest(fewer);
        assert(segments[i] == fewer[i]);
    } else {
        assert(longest(fewer) == 0);
    }
}

} // verus!
