//! Builds the ID3v2.4 tags that announce title, artist and artwork.
use crate::buffers::append_bytes;
use vstd::arithmetic::div_mod::{lemma_hoist_over_denominator, lemma_mod_multiples_vanish};
use vstd::prelude::*;
use vstd::utf8::encode_utf8;

verus! {

/// What is known of the current track. An unknown field is empty.
pub struct TrackMetadata<'a> {
    pub title: &'a str,
    pub artist: &'a str,
    pub artwork_url: &'a str,
}

/// A size as four bytes of seven bits each. Only the low 28 bits are kept.
pub open spec fn syncsafe(n: nat) -> Seq<u8> {
    seq![
        ((n / 0x20_0000) % 128) as u8,
        ((n / 0x4000) % 128) as u8,
        ((n / 0x80) % 128) as u8,
        (n % 128) as u8,
    ]
}

/// The size that four such bytes stand for.
pub open spec fn size_of_syncsafe(b: Seq<u8>) -> nat {
    (b[0] * 0x20_0000 + b[1] * 0x4000 + b[2] * 0x80 + b[3]) as nat
}

/// A frame: identifier, size, two bytes of flags, and the payload.
pub open spec fn id3_frame(id: Seq<u8>, payload: Seq<u8>) -> Seq<u8> {
    id + syncsafe(payload.len()) + seq![0x00, 0x00] + payload
}

/// The payload of a text frame: the mark for UTF-8, and the text.
pub open spec fn text_payload(text: Seq<char>) -> Seq<u8> {
    seq![0x03u8] + encode_utf8(text)
}

/// The description under which players look for artwork, "artworkURL_640x".
pub open spec fn artwork_description() -> Seq<u8> {
    seq![
        0x61, 0x72, 0x74, 0x77, 0x6F, 0x72, 0x6B, 0x55, 0x52, 0x4C, 0x5F, 0x36, 0x34, 0x30, 0x78,
    ]
}

/// The payload of the artwork frame: the mark for UTF-8, the description, a
/// zero, and the URL.
pub open spec fn artwork_payload(url: Seq<char>) -> Seq<u8> {
    seq![0x03u8] + artwork_description() + seq![0x00u8] + encode_utf8(url)
}

/// "TIT2", the title.
pub open spec fn title_id() -> Seq<u8> {
    seq![0x54, 0x49, 0x54, 0x32]
}

/// "TPE1", the artist.
pub open spec fn artist_id() -> Seq<u8> {
    seq![0x54, 0x50, 0x45, 0x31]
}

/// "WXXX", a URL with a description.
pub open spec fn artwork_id() -> Seq<u8> {
    seq![0x57, 0x58, 0x58, 0x58]
}

/// The identifiers and payloads of the frames of a tag, one for each known
/// field.
pub open spec fn tag_frames(title: Seq<char>, artist: Seq<char>, artwork_url: Seq<char>) -> Seq<
    (Seq<u8>, Seq<u8>),
> {
    (if title.len() > 0 {
        seq![(title_id(), text_payload(title))]
    } else {
        Seq::empty()
    }) + (if artist.len() > 0 {
        seq![(artist_id(), text_payload(artist))]
    } else {
        Seq::empty()
    }) + (if artwork_url.len() > 0 {
        seq![(artwork_id(), artwork_payload(artwork_url))]
    } else {
        Seq::empty()
    })
}

/// A run of frames in bytes.
pub open spec fn frames_bytes(frames: Seq<(Seq<u8>, Seq<u8>)>) -> Seq<u8>
    decreases frames.len(),
{
    if frames.len() == 0 {
        Seq::empty()
    } else {
        id3_frame(frames[0].0, frames[0].1) + frames_bytes(frames.drop_first())
    }
}

/// A tag around a run of frames, of version 2.4 and without flags; nothing
/// where there are no frames.
pub open spec fn id3_tag(frames: Seq<(Seq<u8>, Seq<u8>)>) -> Seq<u8> {
    if frames.len() == 0 {
        Seq::empty()
    } else {
        seq![0x49u8, 0x44, 0x33, 0x04, 0x00, 0x00] + syncsafe(frames_bytes(frames).len())
            + frames_bytes(frames)
    }
}

/// Builds the tag for a track.
pub fn build_id3v2(meta: &TrackMetadata) -> (r: Vec<u8>)
    ensures
        r@ == id3_tag(tag_frames(meta.title@, meta.artist@, meta.artwork_url@)),
{
    let ghost list = tag_frames(meta.title@, meta.artist@, meta.artwork_url@);
    let mut frames: Vec<u8> = Vec::new();
    let ghost mut done: Seq<(Seq<u8>, Seq<u8>)> = Seq::empty();
    if !meta.title.is_empty() {
        append_bytes(&mut frames, build_text_frame(&[0x54, 0x49, 0x54, 0x32], meta.title).as_slice());
        proof {
            lemma_frames_bytes_push(done, title_id(), text_payload(meta.title@));
            done = done.push((title_id(), text_payload(meta.title@)));
            assert(frames@ =~= frames_bytes(done));
        }
    }
    if !meta.artist.is_empty() {
        append_bytes(&mut frames, build_text_frame(&[0x54, 0x50, 0x45, 0x31], meta.artist).as_slice());
        proof {
            lemma_frames_bytes_push(done, artist_id(), text_payload(meta.artist@));
            done = done.push((artist_id(), text_payload(meta.artist@)));
        }
    }
    if !meta.artwork_url.is_empty() {
        append_bytes(&mut frames, build_wxxx_frame(meta.artwork_url).as_slice());
        proof {
            lemma_frames_bytes_push(done, artwork_id(), artwork_payload(meta.artwork_url@));
            done = done.push((artwork_id(), artwork_payload(meta.artwork_url@)));
        }
    }
    assert(done =~= list);
    assert(frames@ == frames_bytes(list));
    if frames.is_empty() {
        proof {
            if list.len() > 0 {
                assert(id3_frame(list[0].0, list[0].1).len() >= 4);
            }
        }
        return Vec::new();
    }
    let mut tag: Vec<u8> = vec![0x49, 0x44, 0x33, 0x04, 0x00, 0x00];
    append_bytes(&mut tag, syncsafe_len(frames.len(), 0).as_slice());
    append_bytes(&mut tag, frames.as_slice());
    assert(tag@ =~= id3_tag(list));
    tag
}

proof fn lemma_frames_bytes_push(frames: Seq<(Seq<u8>, Seq<u8>)>, id: Seq<u8>, payload: Seq<u8>)
    ensures
        frames_bytes(frames.push((id, payload))) == frames_bytes(frames) + id3_frame(id, payload),
    decreases frames.len(),
{
    let grown = frames.push((id, payload));
    if frames.len() == 0 {
        assert(frames_bytes(grown.drop_first()) =~= Seq::empty());
        assert(frames_bytes(grown) =~= frames_bytes(frames) + id3_frame(id, payload));
    } else {
        assert(grown.drop_first() =~= frames.drop_first().push((id, payload)));
        lemma_frames_bytes_push(frames.drop_first(), id, payload);
        assert(frames_bytes(grown) =~= frames_bytes(frames) + id3_frame(id, payload));
    }
}

fn build_text_frame(id: &[u8; 4], text: &str) -> (r: Vec<u8>)
    ensures
        r@ == id3_frame(id@, text_payload(text@)),
{
    let text_bytes: &[u8] = text.as_bytes();
    let mut frame: Vec<u8> = Vec::new();
    append_bytes(&mut frame, id.as_slice());
    append_bytes(&mut frame, syncsafe_len(text_bytes.len(), 1).as_slice());
    append_bytes(&mut frame, &[0x00, 0x00, 0x03]);
    append_bytes(&mut frame, text_bytes);
    assert(frame@ =~= id3_frame(id@, text_payload(text@)));
    frame
}

fn build_wxxx_frame(url: &str) -> (r: Vec<u8>)
    ensures
        r@ == id3_frame(artwork_id(), artwork_payload(url@)),
{
    let url_bytes: &[u8] = url.as_bytes();
    let mut frame: Vec<u8> = vec![0x57, 0x58, 0x58, 0x58];
    append_bytes(&mut frame, syncsafe_len(url_bytes.len(), 17).as_slice());
    append_bytes(&mut frame, &[0x00, 0x00, 0x03]);
    append_bytes(
        &mut frame,
        &[
            0x61, 0x72, 0x74, 0x77, 0x6F, 0x72, 0x6B, 0x55, 0x52, 0x4C, 0x5F, 0x36, 0x34, 0x30,
            0x78, 0x00,
        ],
    );
    append_bytes(&mut frame, url_bytes);
    assert(frame@ =~= id3_frame(artwork_id(), artwork_payload(url@)));
    frame
}

/// Encodes a size.
pub fn syncsafe_u32(n: u32) -> (r: [u8; 4])
    ensures
        r@ == syncsafe(n as nat),
{
    proof {
        assert((n >> 21) & 0x7F == (n / 0x20_0000) % 128) by (bit_vector);
        assert((n >> 14) & 0x7F == (n / 0x4000) % 128) by (bit_vector);
        assert((n >> 7) & 0x7F == (n / 0x80) % 128) by (bit_vector);
        assert(n & 0x7F == n % 128) by (bit_vector);
    }
    let r: [u8; 4] = [
        ((n >> 21) & 0x7F) as u8,
        ((n >> 14) & 0x7F) as u8,
        ((n >> 7) & 0x7F) as u8,
        (n & 0x7F) as u8,
    ];
    assert(r@ =~= syncsafe(n as nat));
    r
}

/// Encodes the size `len + extra`.
fn syncsafe_len(len: usize, extra: u32) -> (r: [u8; 4])
    requires
        extra < 128,
    ensures
        r@ == syncsafe((len + extra) as nat),
{
    let low: u32 = (len % 0x1000_0000) as u32 + extra;
    let r: [u8; 4] = syncsafe_u32(low);
    proof {
        lemma_syncsafe_keeps_low_bits(low as nat, (len / 0x1000_0000) as nat);
        assert((len + extra) as nat == low as nat + (len / 0x1000_0000) as nat * 0x1000_0000);
    }
    r
}

proof fn lemma_syncsafe_keeps_low_bits(n: nat, q: nat)
    ensures
        syncsafe(n) == syncsafe(n + q * 0x1000_0000),
{
    let m = n + q * 0x1000_0000;
    lemma_seven_bits_stay(n, q, 0x20_0000, 1);
    lemma_seven_bits_stay(n, q, 0x4000, 0x80);
    lemma_seven_bits_stay(n, q, 0x80, 0x4000);
    lemma_seven_bits_stay(n, q, 1, 0x20_0000);
    assert(syncsafe(n) =~= syncsafe(m));
}

proof fn lemma_seven_bits_stay(n: nat, q: nat, d: nat, e: nat)
    requires
        d > 0,
        d * e == 0x20_0000,
    ensures
        ((n + q * 0x1000_0000) / d) % 128 == (n / d) % 128,
{
    let j = 128 * (q * e);
    assert(j * d == q * 0x1000_0000) by (nonlinear_arith)
        requires
            j == 128 * (q * e),
            d * e == 0x20_0000,
    ;
    lemma_hoist_over_denominator(n as int, j as int, d);
    lemma_mod_multiples_vanish((q * e) as int, (n / d) as int, 128);
}

/// A size below 2^28 reads back from its encoding, and no byte of the encoding
/// has its high bit set.
pub proof fn lemma_syncsafe_round_trip(n: nat)
    requires
        n < 0x1000_0000,
    ensures
        size_of_syncsafe(syncsafe(n)) == n,
        forall|i: int| 0 <= i < 4 ==> #[trigger] syncsafe(n)[i] < 0x80,
{
}

/// Reads a run of frames, up to the first that is not whole.
pub open spec fn read_frames(bytes: Seq<u8>) -> Seq<(Seq<u8>, Seq<u8>)>
    decreases bytes.len(),
{
    if bytes.len() < 10 {
        Seq::empty()
    } else {
        let size = size_of_syncsafe(bytes.subrange(4, 8)) as int;
        if bytes.len() < 10 + size {
            Seq::empty()
        } else {
            seq![(bytes.take(4), bytes.subrange(10, 10 + size))] + read_frames(
                bytes.skip(10 + size),
            )
        }
    }
}

/// Frames with identifiers of four bytes and payloads below 2^28 bytes read
/// back as they were written.
pub proof fn lemma_frames_read_back(frames: Seq<(Seq<u8>, Seq<u8>)>)
    requires
        forall|i: int|
            0 <= i < frames.len() ==> (#[trigger] frames[i]).0.len() == 4 && frames[i].1.len()
                < 0x1000_0000,
    ensures
        read_frames(frames_bytes(frames)) == frames,
    decreases frames.len(),
{
    if frames.len() > 0 {
        let (id, payload) = frames[0];
        let later = frames.drop_first();
        let bytes = frames_bytes(frames);
        let n = payload.len() as int;
        assert(frames[0].0.len() == 4);
        lemma_syncsafe_round_trip(payload.len());
        assert(bytes.subrange(4, 8) =~= syncsafe(payload.len()));
        assert(bytes.take(4) =~= id);
        assert(bytes.subrange(10, 10 + n) =~= payload);
        assert(bytes.skip(10 + n) =~= frames_bytes(later));
        assert forall|i: int| 0 <= i < later.len() implies (#[trigger] later[i]).0.len() == 4
            && later[i].1.len() < 0x1000_0000 by {
            assert(later[i] == frames[i + 1]);
        }
        lemma_frames_read_back(later);
        assert(seq![(id, payload)] + later =~= frames);
    }
}

/// There is a tag exactly where something is known of the track. The tag
/// opens with "ID3" and version 2.4, and reads back as its fields, as long as
/// sizes stay below 2^28.
pub proof fn lemma_tag_reads_back(title: Seq<char>, artist: Seq<char>, artwork_url: Seq<char>)
    ensures
        ({
            let frames = tag_frames(title, artist, artwork_url);
            let tag = id3_tag(frames);
            let body = frames_bytes(frames);
            &&& (tag.len() == 0) == (title.len() == 0 && artist.len() == 0 && artwork_url.len()
                == 0)
            &&& tag.len() > 0 && body.len() < 0x1000_0000 ==> {
                &&& tag.take(4) == seq![0x49u8, 0x44, 0x33, 0x04]
                &&& size_of_syncsafe(tag.subrange(6, 10)) == tag.len() - 10
                &&& read_frames(tag.skip(10)) == frames
            }
        }),
{
    let frames = tag_frames(title, artist, artwork_url);
    let tag = id3_tag(frames);
    let body = frames_bytes(frames);
    if tag.len() > 0 && body.len() < 0x1000_0000 {
        lemma_syncsafe_round_trip(body.len());
        assert(tag.take(4) =~= seq![0x49u8, 0x44, 0x33, 0x04]);
        assert(tag.subrange(6, 10) =~= syncsafe(body.len()));
        assert(tag.skip(10) =~= body);
        assert forall|i: int| 0 <= i < frames.len() implies (#[trigger] frames[i]).0.len() == 4
            && frames[i].1.len() < 0x1000_0000 by {
            lemma_frame_within(frames, i);
        }
        lemma_frames_read_back(frames);
    }
}

/// How many frames have an identifier.
pub open spec fn frames_with(frames: Seq<(Seq<u8>, Seq<u8>)>, id: Seq<u8>) -> nat
    decreases frames.len(),
{
    if frames.len() == 0 {
        0
    } else {
        frames_with(frames.drop_last(), id) + if frames.last().0 == id {
            1nat
        } else {
            0nat
        }
    }
}

/// Whether one frame has an identifier, and holds a payload.
pub open spec fn only_frame(
    frames: Seq<(Seq<u8>, Seq<u8>)>,
    id: Seq<u8>,
    payload: Seq<u8>,
) -> bool {
    frames_with(frames, id) == 1 && frames.contains((id, payload))
}

/// Whether frames hold the fields of a track and nothing else, each field that
/// is known once, under its own identifier and as it was given. The title is in
/// "TIT2", the artist in "TPE1", both behind the mark for UTF-8; the artwork is
/// in "WXXX", behind the mark, the description "artworkURL_640x" and a zero.
pub open spec fn hold_fields(
    frames: Seq<(Seq<u8>, Seq<u8>)>,
    title: Seq<char>,
    artist: Seq<char>,
    artwork_url: Seq<char>,
) -> bool {
    let tit2 = seq![0x54u8, 0x49, 0x54, 0x32];
    let tpe1 = seq![0x54u8, 0x50, 0x45, 0x31];
    let wxxx = seq![0x57u8, 0x58, 0x58, 0x58];
    let description = seq![
        0x61u8, 0x72, 0x74, 0x77, 0x6F, 0x72, 0x6B, 0x55, 0x52, 0x4C, 0x5F, 0x36, 0x34, 0x30, 0x78,
        0x00,
    ];
    &&& title.len() > 0 ==> only_frame(frames, tit2, seq![0x03u8] + encode_utf8(title))
    &&& title.len() == 0 ==> frames_with(frames, tit2) == 0
    &&& artist.len() > 0 ==> only_frame(frames, tpe1, seq![0x03u8] + encode_utf8(artist))
    &&& artist.len() == 0 ==> frames_with(frames, tpe1) == 0
    &&& artwork_url.len() > 0 ==> only_frame(
        frames,
        wxxx,
        seq![0x03u8] + description + encode_utf8(artwork_url),
    )
    &&& artwork_url.len() == 0 ==> frames_with(frames, wxxx) == 0
    &&& frames.len() == frames_with(frames, tit2) + frames_with(frames, tpe1) + frames_with(
        frames,
        wxxx,
    )
}

/// Reading a tag back gives each field as it was given, whatever the others
/// are. The tag opens with "ID3", version 2.4 and no flags, and its size is in
/// four bytes of seven bits each.
#[verifier::spinoff_prover]
#[verifier::rlimit(60)]
pub proof fn lemma_fields_read_back(title: Seq<char>, artist: Seq<char>, artwork_url: Seq<char>)
    requires
        encode_utf8(title).len() + encode_utf8(artist).len() + encode_utf8(artwork_url).len() + 49
            < 0x1000_0000,
        title.len() > 0 || artist.len() > 0 || artwork_url.len() > 0,
    ensures
        ({
            let tag = id3_tag(tag_frames(title, artist, artwork_url));
            &&& hold_fields(read_frames(tag.skip(10)), title, artist, artwork_url)
            &&& tag.take(6) == seq![0x49u8, 0x44, 0x33, 0x04, 0x00, 0x00]
            &&& tag[6] * 0x20_0000 + tag[7] * 0x4000 + tag[8] * 0x80 + tag[9] == tag.len() - 10
            &&& forall|i: int| 6 <= i < 10 ==> #[trigger] tag[i] < 0x80
        }),
{
    let frames = tag_frames(title, artist, artwork_url);
    let tag = id3_tag(frames);
    let body = frames_bytes(frames);
    lemma_fields_are_listed(title, artist, artwork_url);
    lemma_body_length(title, artist, artwork_url);
    lemma_tag_reads_back(title, artist, artwork_url);
    lemma_syncsafe_round_trip(body.len());
    assert(tag.take(6) =~= seq![0x49u8, 0x44, 0x33, 0x04, 0x00, 0x00]);
    let size = tag.subrange(6, 10);
    assert(size =~= syncsafe(body.len()));
    assert forall|i: int| 6 <= i < 10 implies #[trigger] tag[i] < 0x80 by {
        assert(tag[i] == size[i - 6]);
    }
    assert(tag[6] == size[0] && tag[7] == size[1] && tag[8] == size[2] && tag[9] == size[3]);
}

/// Where nothing is known there is no tag.
pub proof fn lemma_nothing_known_is_no_tag()
    ensures
        id3_tag(tag_frames(Seq::empty(), Seq::empty(), Seq::empty())).len() == 0,
{
}

#[verifier::spinoff_prover]
#[verifier::rlimit(60)]
proof fn lemma_body_length(title: Seq<char>, artist: Seq<char>, artwork_url: Seq<char>)
    ensures
        frames_bytes(tag_frames(title, artist, artwork_url)).len() <= encode_utf8(title).len()
            + encode_utf8(artist).len() + encode_utf8(artwork_url).len() + 49,
{
    let none = Seq::<(Seq<u8>, Seq<u8>)>::empty();
    let t = if title.len() > 0 {
        none.push((title_id(), text_payload(title)))
    } else {
        none
    };
    let a = if artist.len() > 0 {
        t.push((artist_id(), text_payload(artist)))
    } else {
        t
    };
    let w = if artwork_url.len() > 0 {
        a.push((artwork_id(), artwork_payload(artwork_url)))
    } else {
        a
    };
    assert(tag_frames(title, artist, artwork_url) =~= w);
    lemma_frames_bytes_push(none, title_id(), text_payload(title));
    lemma_frames_bytes_push(t, artist_id(), text_payload(artist));
    lemma_frames_bytes_push(a, artwork_id(), artwork_payload(artwork_url));
}

#[verifier::spinoff_prover]
#[verifier::rlimit(60)]
proof fn lemma_fields_are_listed(title: Seq<char>, artist: Seq<char>, artwork_url: Seq<char>)
    ensures
        hold_fields(tag_frames(title, artist, artwork_url), title, artist, artwork_url),
{
    let none = Seq::<(Seq<u8>, Seq<u8>)>::empty();
    let tit2 = seq![0x54u8, 0x49, 0x54, 0x32];
    let tpe1 = seq![0x54u8, 0x50, 0x45, 0x31];
    let wxxx = seq![0x57u8, 0x58, 0x58, 0x58];
    let description = seq![
        0x61u8, 0x72, 0x74, 0x77, 0x6F, 0x72, 0x6B, 0x55, 0x52, 0x4C, 0x5F, 0x36, 0x34, 0x30, 0x78,
        0x00,
    ];
    let title_frame = (tit2, seq![0x03u8] + encode_utf8(title));
    let artist_frame = (tpe1, seq![0x03u8] + encode_utf8(artist));
    let artwork_frame = (wxxx, seq![0x03u8] + description + encode_utf8(artwork_url));
    assert(artwork_payload(artwork_url) =~= artwork_frame.1);
    let t = if title.len() > 0 {
        none.push(title_frame)
    } else {
        none
    };
    let a = if artist.len() > 0 {
        t.push(artist_frame)
    } else {
        t
    };
    let w = if artwork_url.len() > 0 {
        a.push(artwork_frame)
    } else {
        a
    };
    let frames = tag_frames(title, artist, artwork_url);
    assert(frames =~= w);
    assert(tit2[1] != tpe1[1] && tit2[0] != wxxx[0] && tpe1[0] != wxxx[0]);
    lemma_one_more_frame(none, title_frame);
    lemma_one_more_frame(t, artist_frame);
    lemma_one_more_frame(a, artwork_frame);
    assert(title.len() > 0 ==> w[0] == title_frame);
    assert(artist.len() > 0 ==> w[t.len() as int] == artist_frame);
    assert(artwork_url.len() > 0 ==> w[a.len() as int] == artwork_frame);
}

proof fn lemma_one_more_frame(frames: Seq<(Seq<u8>, Seq<u8>)>, last: (Seq<u8>, Seq<u8>))
    ensures
        forall|id: Seq<u8>| #[trigger]
            frames_with(frames.push(last), id) == frames_with(frames, id) + if last.0 == id {
                1nat
            } else {
                0nat
            },
{
    assert(frames.push(last).drop_last() =~= frames);
}

proof fn lemma_frame_within(frames: Seq<(Seq<u8>, Seq<u8>)>, i: int)
    requires
        0 <= i < frames.len(),
    ensures
        frames[i].1.len() <= frames_bytes(frames).len(),
    decreases frames.len(),
{
    if i > 0 {
        lemma_frame_within(frames.drop_first(), i - 1);
    }
}

} // verus!
