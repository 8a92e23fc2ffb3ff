//! What the HTTP server answers.
use crate::buffers::bytes_view;
use crate::hls::segment_store::{
    data_of, is_consistent, lemma_get_by_number, lemma_numbers_fit, playlist_text, SegmentStore,
    StoreState,
};
use crate::providers::MetadataProvider;
use crate::text::{
    chars_of, contains, decimal, has_part, is_digit, lemma_decimal_round_trip,
    lemma_suffixes_come_off, number_of, number_up_to, occurs_at, parse_u64, push_decimal,
    same_text, trim_suffixes, without_suffixes,
};
use bytes::Bytes;
use vstd::prelude::*;
use vstd::string::StringExecFns;

verus! {

/// The scheme of the addresses that players are given: a host with a port is
/// reached directly, one without through a proxy with TLS.
pub open spec fn scheme_of(external_host: Seq<char>) -> Seq<char> {
    if has_part(external_host, ":"@) {
        "http"@
    } else {
        "https"@
    }
}

/// What the addresses that players are given start with.
pub open spec fn base_url_of(external_host: Seq<char>) -> Seq<char> {
    scheme_of(external_host) + "://"@ + external_host
}

/// What the addresses that players are given start with.
pub fn base_url(external_host: &str) -> (r: String)
    ensures
        r@ == base_url_of(external_host@),
{
    let mut url: String = if contains(external_host, ":") {
        "http".to_owned()
    } else {
        "https".to_owned()
    };
    url.append("://");
    url.append(external_host);
    url
}

/// The artwork of a channel while no track has any: its logo, where there is
/// one.
pub fn fallback_art(external_host: &str, channel: &str, has_logo: bool) -> (r: Option<String>)
    ensures
        r is Some <==> has_logo,
        r matches Some(url) ==> url@ == base_url_of(external_host@) + "/logo/"@ + channel@,
{
    if has_logo {
        let mut url: String = base_url(external_host);
        url.append("/logo/");
        url.append(channel);
        Some(url)
    } else {
        None
    }
}

/// A channel of the lineup of the tuner, as far as its numbers and names are
/// texts.
pub struct LineupEntry {
    pub guide_number: Option<String>,
    pub guide_name: Option<String>,
}

/// Whether an entry is that of a channel.
pub open spec fn is_channel(entry: LineupEntry, channel: Seq<char>) -> bool {
    entry.guide_number matches Some(number) && number@ == channel
}

/// The name of a channel: that of the first entry with its number, from `from`
/// on.
pub open spec fn guide_name_of(lineup: Seq<LineupEntry>, channel: Seq<char>, from: int) -> Option<
    Seq<char>,
>
    decreases lineup.len() - from,
{
    if from >= lineup.len() {
        None
    } else if is_channel(lineup[from], channel) {
        match lineup[from].guide_name {
            Some(name) => Some(name@),
            None => None,
        }
    } else {
        guide_name_of(lineup, channel, from + 1)
    }
}

/// A name that is found is that of an entry whose number is the channel as a
/// text, and no entry before it has that number. Where an entry has the number,
/// the first that does decides; where none has it, nothing is found.
#[verifier::spinoff_prover]
#[verifier::rlimit(60)]
pub proof fn lemma_guide_name_is_of_channel(lineup: Seq<LineupEntry>, channel: Seq<char>)
    ensures
        guide_name_of(lineup, channel, 0) matches Some(name) ==> exists|i: int|
            #![trigger lineup[i]]
            {
                &&& 0 <= i < lineup.len()
                &&& lineup[i].guide_number matches Some(number) && number@ == channel
                &&& lineup[i].guide_name matches Some(n) && n@ == name
                &&& forall|k: int|
                    0 <= k < i ==> ((#[trigger] lineup[k]).guide_number matches Some(number)
                        ==> number@ != channel)
            },
        forall|i: int|
            #![trigger lineup[i]]
            0 <= i < lineup.len() && (lineup[i].guide_number matches Some(number) && number@
                == channel) && (forall|k: int|
                0 <= k < i ==> ((#[trigger] lineup[k]).guide_number matches Some(number)
                    ==> number@ != channel)) ==> guide_name_of(lineup, channel, 0) == (
            match lineup[i].guide_name {
                Some(n) => Some(n@),
                None => None,
            }),
        (forall|k: int|
            0 <= k < lineup.len() ==> ((#[trigger] lineup[k]).guide_number matches Some(number)
                ==> number@ != channel)) ==> guide_name_of(lineup, channel, 0) is None,
{
    lemma_first_entry_decides(lineup, channel, 0);
}

#[verifier::spinoff_prover]
#[verifier::rlimit(60)]
proof fn lemma_first_entry_decides(lineup: Seq<LineupEntry>, channel: Seq<char>, from: int)
    requires
        0 <= from,
    ensures
        (forall|k: int|
            from <= k < lineup.len() ==> ((#[trigger] lineup[k]).guide_number matches Some(number)
                ==> number@ != channel)) && guide_name_of(lineup, channel, from) is None
            || exists|i: int|
            #![trigger lineup[i]]
            {
                &&& from <= i < lineup.len()
                &&& lineup[i].guide_number matches Some(number) && number@ == channel
                &&& guide_name_of(lineup, channel, from) == (match lineup[i].guide_name {
                    Some(n) => Some(n@),
                    None => None,
                })
                &&& forall|k: int|
                    from <= k < i ==> ((#[trigger] lineup[k]).guide_number matches Some(number)
                        ==> number@ != channel)
            },
    decreases lineup.len() - from,
{
    if from < lineup.len() {
        let here = lineup[from];
        if !(here.guide_number matches Some(number) && number@ == channel) {
            lemma_first_entry_decides(lineup, channel, from + 1);
        }
    }
}

/// Looks up the name of a channel.
pub fn guide_name(lineup: &Vec<LineupEntry>, channel: &str) -> (r: Option<String>)
    ensures
        match r {
            Some(name) => guide_name_of(lineup@, channel@, 0) == Some(name@),
            None => guide_name_of(lineup@, channel@, 0) is None,
        },
{
    let mut i: usize = 0;
    while i < lineup.len()
        invariant
            guide_name_of(lineup@, channel@, 0) == guide_name_of(lineup@, channel@, i as int),
        decreases lineup@.len() - i,
    {
        match &lineup[i].guide_number {
            Some(number) => {
                if same_text(number.as_str(), channel) {
                    return match &lineup[i].guide_name {
                        Some(name) => Some(name.clone()),
                        None => None,
                    };
                }
            },
            None => {},
        }
        i += 1;
    }
    None
}

/// The logo of a channel: that of the station that the lineup has it as.
pub fn resolve_logo<P: MetadataProvider + ?Sized>(
    provider: &P,
    lineup: &Vec<LineupEntry>,
    channel: &str,
) -> (r: Option<&'static str>)
    ensures
        match guide_name_of(lineup@, channel@, 0) {
            Some(name) => match r {
                Some(key) => provider.logo_of(name) == Some(key@),
                None => provider.logo_of(name) is None,
            },
            None => r is None,
        },
{
    match guide_name(lineup, channel) {
        Some(name) => provider.logo_key_for(name.as_str()),
        None => None,
    }
}

/// What is known of a channel when it starts.
pub struct ChannelPlan {
    /// The name of the station, empty where the lineup does not have it.
    pub guide_name: String,
    /// The artwork to start with.
    pub fallback_art: Option<String>,
    /// The station to ask for track information.
    pub station_id: Option<String>,
}

/// The name of a channel, empty where the lineup does not have it.
pub open spec fn name_or_empty(lineup: Seq<LineupEntry>, channel: Seq<char>) -> Seq<char> {
    match guide_name_of(lineup, channel, 0) {
        Some(name) => name,
        None => Seq::empty(),
    }
}

/// Finds out what is known of a channel.
pub fn plan_channel<P: MetadataProvider + ?Sized>(
    provider: &P,
    lineup: &Vec<LineupEntry>,
    channel: &str,
    external_host: &str,
) -> (r: ChannelPlan)
    ensures
        ({
            let name = name_or_empty(lineup@, channel@);
            &&& r.guide_name@ == name
            &&& match r.fallback_art {
                Some(url) => {
                    &&& provider.logo_of(name) is Some
                    &&& url@ == base_url_of(external_host@) + "/logo/"@ + channel@
                },
                None => provider.logo_of(name) is None,
            }
            &&& match r.station_id {
                Some(id) => provider.station_of(name) == Some(id@),
                None => provider.station_of(name) is None,
            }
        }),
{
    let name: String = match guide_name(lineup, channel) {
        Some(n) => n,
        None => String::new(),
    };
    let has_logo: bool = provider.logo_key_for(name.as_str()).is_some();
    let station_id: Option<String> = provider.station_id_for(name.as_str());
    ChannelPlan {
        guide_name: name,
        fallback_art: fallback_art(external_host, channel, has_logo),
        station_id,
    }
}

/// Where the tuner gives its lineup.
pub fn lineup_url(host: &str) -> (r: String)
    ensures
        r@ == "http://"@ + host@ + "/lineup.json"@,
{
    let mut url: String = "http://".to_owned();
    url.append(host);
    url.append("/lineup.json");
    url
}

/// Whether a lineup fetched `age` ago, in nanoseconds, is still used: for five
/// minutes.
pub fn is_lineup_fresh(age: u128) -> (r: bool)
    ensures
        r == (age < 300_000_000_000),
{
    age < 300_000_000_000
}

/// What to do about the lineup.
#[derive(Clone, Copy, PartialEq, Eq, Structural)]
pub enum LineupStep {
    /// Use the one that was fetched before.
    Use,
    /// Fetch it.
    Fetch,
}

/// What to do about the lineup, where one was fetched `age` nanoseconds ago or
/// none was yet.
pub fn lineup_step(age: Option<u128>) -> (r: LineupStep)
    ensures
        r == if age matches Some(a) && a < 300_000_000_000 {
            LineupStep::Use
        } else {
            LineupStep::Fetch
        },
{
    match age {
        Some(a) => if is_lineup_fresh(a) {
            LineupStep::Use
        } else {
            LineupStep::Fetch
        },
        None => LineupStep::Fetch,
    }
}

/// Which lineup a request gets after a fetch.
#[derive(Clone, Copy, PartialEq, Eq, Structural)]
pub enum LineupAnswer {
    /// The one that was fetched, which is now the one in store.
    Fetched,
    /// One without channels.
    Empty,
}

/// Takes in the outcome of a fetch. What was fetched replaces what is in store;
/// a fetch that failed leaves that as it is, and gives a lineup without
/// channels.
pub fn take_lineup<L>(cache: &mut Option<L>, fetched: Option<L>) -> (r: LineupAnswer)
    ensures
        *final(cache) == if fetched is Some {
            fetched
        } else {
            *old(cache)
        },
        r == if fetched is Some {
            LineupAnswer::Fetched
        } else {
            LineupAnswer::Empty
        },
{
    match fetched {
        Some(lineup) => {
            *cache = Some(lineup);
            LineupAnswer::Fetched
        },
        None => LineupAnswer::Empty,
    }
}

/// Whether a channel that nobody asked for in `idle` seconds is stopped.
pub fn is_expired(idle: u64, grace_period: u64) -> (r: bool)
    ensures
        r == (idle > grace_period),
{
    idle > grace_period
}

/// What to do about a request for a playlist.
#[derive(Clone, Copy, PartialEq, Eq, Structural)]
pub enum PlaylistStep {
    /// There are enough segments.
    Serve,
    /// Look again in a second.
    Wait,
    /// It took too long.
    GiveUp,
}

/// What to do when a playlist was looked for `tries` times before and now has
/// `count` segments. Twenty tries are made.
pub open spec fn playlist_step_of(tries: nat, count: nat, min_segments: nat) -> PlaylistStep {
    if tries >= 20 {
        PlaylistStep::GiveUp
    } else if count >= min_segments {
        PlaylistStep::Serve
    } else {
        PlaylistStep::Wait
    }
}

/// What to do about a request for a playlist.
pub fn playlist_step(tries: u32, count: usize, min_segments: usize) -> (r: PlaylistStep)
    ensures
        r == playlist_step_of(tries as nat, count as nat, min_segments as nat),
{
    if tries >= 20 {
        PlaylistStep::GiveUp
    } else if count >= min_segments {
        PlaylistStep::Serve
    } else {
        PlaylistStep::Wait
    }
}

/// A playlist that is served is never empty.
pub proof fn lemma_served_playlist_is_there(
    s: StoreState,
    base_url: Seq<char>,
    channel: Seq<char>,
    tries: nat,
    min_segments: nat,
)
    requires
        playlist_step_of(tries, s.segments.len(), min_segments) == PlaylistStep::Serve,
    ensures
        playlist_text(s.segments, base_url, channel, min_segments).len() > 0,
{
    reveal_strlit("\n");
}

/// The playlist of a channel, for players outside.
pub fn playlist(
    store: &SegmentStore,
    external_host: &str,
    channel: &str,
    min_segments: usize,
) -> (r: String)
    ensures
        r@ == playlist_text(
            store@.segments,
            base_url_of(external_host@),
            channel@,
            min_segments as nat,
        ),
{
    store.generate_playlist(base_url(external_host).as_str(), channel, min_segments)
}

/// The number in the last part of the address of a segment, such as "7.ts".
pub open spec fn requested_segment(rest: Seq<char>) -> Option<nat> {
    number_up_to(without_suffixes(rest, ".ts"@), u64::MAX as nat)
}

/// Reads the number out of the last part of the address of a segment.
pub fn read_segment_number(rest: &str) -> (r: Option<u64>)
    ensures
        match r {
            Some(seq) => requested_segment(rest@) == Some(seq as nat),
            None => requested_segment(rest@) is None,
        },
{
    let chars: Vec<char> = chars_of(rest);
    parse_u64(trim_suffixes(chars.as_slice(), ".ts"))
}

/// The answer to a request for a segment.
pub enum SegmentAnswer<'a> {
    /// The address has no number.
    BadRequest,
    /// There is no such channel, or it does not have the segment.
    NotFound,
    /// The segment.
    Data(&'a Bytes),
}

/// The answer to a request for a segment, by what it holds.
pub enum AnswerView {
    BadRequest,
    NotFound,
    Data(Seq<u8>),
}

impl<'a> View for SegmentAnswer<'a> {
    type V = AnswerView;

    open spec fn view(&self) -> AnswerView {
        match self {
            SegmentAnswer::BadRequest => AnswerView::BadRequest,
            SegmentAnswer::NotFound => AnswerView::NotFound,
            SegmentAnswer::Data(data) => AnswerView::Data(bytes_view(**data)),
        }
    }
}

/// The answer to a request for a segment of a channel, which may not be
/// running.
pub open spec fn segment_answer(store: Option<StoreState>, rest: Seq<char>) -> AnswerView {
    match requested_segment(rest) {
        Some(seq) => match store {
            Some(s) => match data_of(s, seq) {
                Some(data) => AnswerView::Data(data),
                None => AnswerView::NotFound,
            },
            None => AnswerView::NotFound,
        },
        None => AnswerView::BadRequest,
    }
}

/// Answers a request for a segment.
pub fn serve_segment<'a>(store: Option<&'a SegmentStore>, rest: &str) -> (r: SegmentAnswer<'a>)
    ensures
        r@ == segment_answer(
            match store {
                Some(s) => Some(s@),
                None => None,
            },
            rest@,
        ),
{
    match read_segment_number(rest) {
        Some(seq) => match store {
            Some(s) => match s.get(seq) {
                Some(data) => SegmentAnswer::Data(data),
                None => SegmentAnswer::NotFound,
            },
            None => SegmentAnswer::NotFound,
        },
        None => SegmentAnswer::BadRequest,
    }
}

/// The address of a segment asks for that segment.
pub proof fn lemma_segment_name_reads_back(seq: u64)
    ensures
        requested_segment(decimal(seq as nat) + ".ts"@) == Some(seq as nat),
{
    reveal_strlit(".ts");
    let digits = decimal(seq as nat);
    let name = digits + ".ts"@;
    lemma_decimal_round_trip(seq as nat);
    assert(name.subrange(name.len() - 3, name.len() as int) =~= ".ts"@);
    assert(name.take(name.len() - 3) =~= digits);
    assert(!occurs_at(digits, ".ts"@, digits.len() - 3)) by {
        if occurs_at(digits, ".ts"@, digits.len() - 3) {
            let end = digits.subrange(digits.len() - 3, digits.len() as int);
            assert(end[0] == digits[digits.len() - 3]);
            assert(is_digit(digits[digits.len() - 3]));
        }
    }
    assert(without_suffixes(digits, ".ts"@) == digits);
    assert(without_suffixes(name, ".ts"@) == digits);
}

/// Every segment that a playlist lists can be had at the address that it is
/// listed with, as long as the store holds it.
pub proof fn lemma_listed_segment_is_served(store: SegmentStore, i: int)
    requires
        is_consistent(store@),
        0 <= i < store@.segments.len(),
    ensures
        segment_answer(Some(store@), decimal(store@.segments[i].seq) + ".ts"@) == AnswerView::Data(
            store@.segments[i].data,
        ),
{
    let seq = store@.segments[i].seq;
    lemma_numbers_fit(store);
    lemma_segment_name_reads_back(seq as u64);
    lemma_get_by_number(store@, seq);
}

/// The answer to a request for the artwork of a channel.
pub enum ArtAnswer {
    /// It is elsewhere.
    Redirect(String),
    /// It is the logo.
    Logo,
    /// There is none.
    NotFound,
}

/// Answers a request for the artwork of a channel: the current artwork, or
/// else the logo.
pub fn serve_art(artwork_url: Option<String>, has_logo: bool) -> (r: ArtAnswer)
    ensures
        match r {
            ArtAnswer::Redirect(url) => artwork_url matches Some(current) && url@ == current@,
            ArtAnswer::Logo => artwork_url is None && has_logo,
            ArtAnswer::NotFound => artwork_url is None && !has_logo,
        },
{
    match artwork_url {
        Some(url) => ArtAnswer::Redirect(url),
        None => if has_logo {
            ArtAnswer::Logo
        } else {
            ArtAnswer::NotFound
        },
    }
}

/// The host that players are told by default.
pub fn default_external_host(port: u16) -> (r: String)
    ensures
        r@ == "localhost:"@ + decimal(port as nat),
{
    let mut host: String = "localhost:".to_owned();
    push_decimal(&mut host, port as u64);
    host
}

/// The address that the server listens on.
pub fn bind_address(port: u16) -> (r: String)
    ensures
        r@ == "0.0.0.0:"@ + decimal(port as nat),
{
    let mut address: String = "0.0.0.0:".to_owned();
    push_decimal(&mut address, port as u64);
    address
}

/// A page that plays a channel.
pub open spec fn test_page_of(channel: Seq<char>) -> Seq<char> {
    let stream_url = "/hls/"@ + channel + "/live.m3u8"@;
    "<!DOCTYPE html>\n<html><head><script src=\"https://cdn.jsdelivr.net/npm/hls.js@latest\"></script></head>\n<body style=\"background:#1a1a2e;color:white;font-family:sans-serif;text-align:center;padding:40px\">\n<h2>Stream Test — Channel "@
        + channel
        + "</h2>\n<audio id=\"a\" controls autoplay style=\"width:80%\"></audio>\n<p id=\"s\">Loading...</p>\n<script>\nvar a=document.getElementById('a'),s=document.getElementById('s');\nif(Hls.isSupported()){var h=new Hls();h.loadSource('"@
        + stream_url
        + "');h.attachMedia(a);\nh.on(Hls.Events.MANIFEST_PARSED,function(){s.textContent='Playing';a.play()});\nh.on(Hls.Events.ERROR,function(e,d){s.textContent='Error: '+d.type+' '+d.details})}\nelse if(a.canPlayType('application/vnd.apple.mpegurl')){a.src='"@
        + stream_url
        + "';s.textContent='Native HLS'}\nelse{s.textContent='HLS not supported'}\n</script></body></html>"@
}

/// A page that plays a channel.
pub fn test_page(channel: &str) -> (r: String)
    ensures
        r@ == test_page_of(channel@),
{
    let mut stream_url: String = "/hls/".to_owned();
    stream_url.append(channel);
    stream_url.append("/live.m3u8");
    let mut page: String =
        "<!DOCTYPE html>\n<html><head><script src=\"https://cdn.jsdelivr.net/npm/hls.js@latest\"></script></head>\n<body style=\"background:#1a1a2e;color:white;font-family:sans-serif;text-align:center;padding:40px\">\n<h2>Stream Test — Channel ".to_owned();
    page.append(channel);
    page.append(
        "</h2>\n<audio id=\"a\" controls autoplay style=\"width:80%\"></audio>\n<p id=\"s\">Loading...</p>\n<script>\nvar a=document.getElementById('a'),s=document.getElementById('s');\nif(Hls.isSupported()){var h=new Hls();h.loadSource('",
    );
    page.append(stream_url.as_str());
    page.append(
        "');h.attachMedia(a);\nh.on(Hls.Events.MANIFEST_PARSED,function(){s.textContent='Playing';a.play()});\nh.on(Hls.Events.ERROR,function(e,d){s.textContent='Error: '+d.type+' '+d.details})}\nelse if(a.canPlayType('application/vnd.apple.mpegurl')){a.src='",
    );
    page.append(stream_url.as_str());
    page.append(
        "';s.textContent='Native HLS'}\nelse{s.textContent='HLS not supported'}\n</script></body></html>",
    );
    page
}

/// A host with a colon, that is with a port, is reached without TLS; one
/// without through TLS.
#[verifier::spinoff_prover]
#[verifier::rlimit(60)]
pub proof fn lemma_scheme_goes_by_port(external_host: Seq<char>)
    ensures
        base_url_of(external_host) == (if external_host.contains(':') {
            "http://"@
        } else {
            "https://"@
        }) + external_host,
{
    reveal_strlit(":");
    reveal_strlit("http");
    reveal_strlit("https");
    reveal_strlit("://");
    reveal_strlit("http://");
    reveal_strlit("https://");
    if external_host.contains(':') {
        let i = external_host.index_of(':');
        assert(external_host.subrange(i, i + 1) =~= ":"@);
        assert(occurs_at(external_host, ":"@, i));
    }
    if has_part(external_host, ":"@) {
        let k = choose|k: int| #[trigger] occurs_at(external_host, ":"@, k);
        assert(external_host.subrange(k, k + 1)[0] == external_host[k]);
        assert(external_host[k] == ':');
    }
    assert(base_url_of(external_host) =~= (if external_host.contains(':') {
        "http://"@
    } else {
        "https://"@
    }) + external_host);
}

/// A playlist is served as soon as there are enough segments, within twenty
/// tries; more segments never make a request wait, and no request is tried for
/// ever.
pub proof fn lemma_playlist_is_served_in_time(
    tries: nat,
    count: nat,
    more: nat,
    min_segments: nat,
)
    ensures
        playlist_step_of(tries, count, min_segments) is Serve <==> tries < 20 && count
            >= min_segments,
        playlist_step_of(tries, count, min_segments) is GiveUp <==> tries >= 20,
        playlist_step_of(tries, count, min_segments) is Serve ==> playlist_step_of(
            tries,
            count + more,
            min_segments,
        ) is Serve,
{
}

/// A request for a segment is answered with data only where it has a number
/// that the running channel holds; without a number it is a bad one, and else
/// nothing is found.
pub proof fn lemma_segment_request_is_answered(store: Option<StoreState>, rest: Seq<char>)
    ensures
        segment_answer(store, rest) is BadRequest <==> requested_segment(rest) is None,
        store is None && requested_segment(rest) is Some ==> segment_answer(store, rest)
            is NotFound,
        segment_answer(store, rest) matches AnswerView::Data(data) ==> (store matches Some(s)
            && requested_segment(rest) matches Some(n) && data_of(s, n) == Some(data)),
        (store matches Some(s) && requested_segment(rest) matches Some(n) && data_of(s, n) is None)
            ==> segment_answer(store, rest) is NotFound,
{
}

/// The number in the address of a segment is that of its digits, with ".ts"
/// behind them or not; with any other character in it there is none.
pub proof fn lemma_segment_number_is_read(name: Seq<char>)
    requires
        !".ts"@.is_suffix_of(name),
    ensures
        requested_segment(name) == requested_segment(name + ".ts"@),
        requested_segment(name) matches Some(n) ==> number_of(name) == Some(n) && n <= u64::MAX,
        number_of(name) is None ==> requested_segment(name) is None,
        (number_of(name) matches Some(n) && n <= u64::MAX) ==> requested_segment(name)
            == number_of(name),
{
    reveal_strlit(".ts");
    lemma_suffixes_come_off(name, ".ts"@);
}

/// The page that plays a channel plays its playlist.
#[verifier::spinoff_prover]
#[verifier::rlimit(60)]
pub proof fn lemma_page_plays_channel(channel: Seq<char>)
    ensures
        has_part(test_page_of(channel), "/hls/"@ + channel + "/live.m3u8"@),
{
    let url = "/hls/"@ + channel + "/live.m3u8"@;
    let a =
        "<!DOCTYPE html>\n<html><head><script src=\"https://cdn.jsdelivr.net/npm/hls.js@latest\"></script></head>\n<body style=\"background:#1a1a2e;color:white;font-family:sans-serif;text-align:center;padding:40px\">\n<h2>Stream Test — Channel "@;
    let b =
        "</h2>\n<audio id=\"a\" controls autoplay style=\"width:80%\"></audio>\n<p id=\"s\">Loading...</p>\n<script>\nvar a=document.getElementById('a'),s=document.getElementById('s');\nif(Hls.isSupported()){var h=new Hls();h.loadSource('"@;
    let page = test_page_of(channel);
    let k = (a + channel + b).len() as int;
    assert(page.subrange(k, k + url.len()) =~= url);
    assert(occurs_at(page, url, k));
}

/// A channel is named as the lineup names it, and not at all where it does not.
pub proof fn lemma_channel_name(lineup: Seq<LineupEntry>, channel: Seq<char>)
    ensures
        guide_name_of(lineup, channel, 0) matches Some(name) ==> name_or_empty(lineup, channel)
            == name,
        guide_name_of(lineup, channel, 0) is None ==> name_or_empty(lineup, channel).len() == 0,
{
}

} // verus!
