//! The ABC and SBS networks of Australia.
use super::{table_view, MetadataProvider};
use crate::text::{begins_with, starts_with};
use vstd::prelude::*;
use vstd::string::StringExecFns;

verus! {

/// The stations with track information, by how their names start.
pub open spec fn stations() -> Seq<(Seq<char>, Seq<char>)> {
    seq![
        ("triple j Uneart"@, "triplej"@),
        ("triple j"@, "triplej"@),
        ("Double J"@, "doublej"@),
        ("ABC Jazz"@, "jazz"@),
        ("ABC Classic"@, "classic"@),
        ("ABC Country"@, "country"@),
    ]
}

/// The stations with a logo, by how their names start.
pub open spec fn logos() -> Seq<(Seq<char>, Seq<char>)> {
    seq![
        ("triple j Uneart"@, "triplej_unearthed"@),
        ("triple j"@, "triplej"@),
        ("Double J"@, "doublej"@),
        ("ABC Jazz"@, "abc_jazz"@),
        ("ABC KIDS Listen"@, "abc_kids"@),
        ("ABC Country"@, "abc_country"@),
        ("ABC NewsRadio"@, "abc_newsradio"@),
        ("ABC SYDNEY"@, "abc_sydney"@),
        ("ABC RN"@, "abc_rn"@),
        ("ABC Classic"@, "abc_classic"@),
        ("SBS Radio 1"@, "sbs_radio1"@),
        ("SBS Radio 2"@, "sbs_radio2"@),
        ("SBS Radio 3"@, "sbs_radio3"@),
        ("SBS Arabic"@, "sbs_arabic"@),
        ("SBS South Asian"@, "sbs_southasian"@),
        ("SBS Chill"@, "sbs_chill"@),
        ("SBS PopAsia"@, "sbs_popasia"@),
    ]
}

/// What a table gives for a name: the first entry, from `from` on, whose
/// prefix the name starts with.
pub open spec fn first_match(
    table: Seq<(Seq<char>, Seq<char>)>,
    name: Seq<char>,
    from: int,
) -> Option<Seq<char>>
    decreases table.len() - from,
{
    if from >= table.len() {
        None
    } else if begins_with(name, table[from].0) {
        Some(table[from].1)
    } else {
        first_match(table, name, from + 1)
    }
}

/// Looks a name up in a table of prefixes.
fn find_match(table: &Vec<(&'static str, &'static str)>, name: &str) -> (r: Option<&'static str>)
    ensures
        match r {
            Some(value) => first_match(table_view(table@), name@, 0) == Some(value@),
            None => first_match(table_view(table@), name@, 0) is None,
        },
{
    let mut i: usize = 0;
    while i < table.len()
        invariant
            first_match(table_view(table@), name@, 0) == first_match(
                table_view(table@),
                name@,
                i as int,
            ),
        decreases table@.len() - i,
    {
        if starts_with(name, table[i].0) {
            return Some(table[i].1);
        }
        i += 1;
    }
    None
}

/// Knows the stations of the ABC and the SBS.
pub struct AbcProvider;

impl MetadataProvider for AbcProvider {
    open spec fn station_of(&self, guide_name: Seq<char>) -> Option<Seq<char>> {
        first_match(stations(), guide_name, 0)
    }

    open spec fn logo_of(&self, guide_name: Seq<char>) -> Option<Seq<char>> {
        first_match(logos(), guide_name, 0)
    }

    fn station_id_for(&self, guide_name: &str) -> (r: Option<String>) {
        let table: Vec<(&'static str, &'static str)> = vec![
            ("triple j Uneart", "triplej"),
            ("triple j", "triplej"),
            ("Double J", "doublej"),
            ("ABC Jazz", "jazz"),
            ("ABC Classic", "classic"),
            ("ABC Country", "country"),
        ];
        assert(table_view(table@) =~= stations());
        match find_match(&table, guide_name) {
            Some(id) => Some(id.to_owned()),
            None => None,
        }
    }

    fn logo_key_for(&self, guide_name: &str) -> (r: Option<&'static str>) {
        let table: Vec<(&'static str, &'static str)> = vec![
            ("triple j Uneart", "triplej_unearthed"),
            ("triple j", "triplej"),
            ("Double J", "doublej"),
            ("ABC Jazz", "abc_jazz"),
            ("ABC KIDS Listen", "abc_kids"),
            ("ABC Country", "abc_country"),
            ("ABC NewsRadio", "abc_newsradio"),
            ("ABC SYDNEY", "abc_sydney"),
            ("ABC RN", "abc_rn"),
            ("ABC Classic", "abc_classic"),
            ("SBS Radio 1", "sbs_radio1"),
            ("SBS Radio 2", "sbs_radio2"),
            ("SBS Radio 3", "sbs_radio3"),
            ("SBS Arabic", "sbs_arabic"),
            ("SBS South Asian", "sbs_southasian"),
            ("SBS Chill", "sbs_chill"),
            ("SBS PopAsia", "sbs_popasia"),
        ];
        assert(table_view(table@) =~= logos());
        find_match(&table, guide_name)
    }
}

/// Where the network says what a station is playing.
pub open spec fn now_url_of(station_id: Seq<char>) -> Seq<char> {
    "https://music.abcradio.net.au/api/v1/plays/"@ + station_id + "/now.json"@
}

/// Where the network says which program a station is sending.
pub open spec fn program_url_of(station_id: Seq<char>) -> Seq<char> {
    "https://program.abcradio.net.au/api/v1/programitems/"@ + station_id + "/live.json"@
}

/// The address to ask for the track that is playing.
pub fn now_url(station_id: &str) -> (r: String)
    ensures
        r@ == now_url_of(station_id@),
{
    let mut url: String = "https://music.abcradio.net.au/api/v1/plays/".to_owned();
    url.append(station_id);
    url.append("/now.json");
    url
}

/// The address to ask for the program.
pub fn program_url(station_id: &str) -> (r: String)
    ensures
        r@ == program_url_of(station_id@),
{
    let mut url: String = "https://program.abcradio.net.au/api/v1/programitems/".to_owned();
    url.append(station_id);
    url.append("/live.json");
    url
}

/// One size of an artwork.
pub struct ArtSize {
    pub url: String,
    pub width: u32,
}

/// An artwork in several sizes.
pub struct Artwork {
    pub sizes: Vec<ArtSize>,
}

/// A release that a recording is on.
pub struct Release {
    pub artwork: Vec<Artwork>,
}

/// What the network says of the track that is playing.
pub struct NowReply {
    pub artist: Option<String>,
    pub title: Option<String>,
    pub releases: Vec<Release>,
}

/// The track that is playing.
pub struct NowPlaying {
    pub artist: String,
    pub title: String,
    pub art_url: Option<String>,
}

/// The text of an optional string, empty where there is none.
pub open spec fn text_or_empty(s: Option<String>) -> Seq<char> {
    match s {
        Some(text) => text@,
        None => Seq::empty(),
    }
}

/// An optional text.
pub open spec fn option_text(s: Option<String>) -> Option<Seq<char>> {
    match s {
        Some(text) => Some(text@),
        None => None,
    }
}

/// The first size at least 300 wide, from `from` on.
pub open spec fn first_wide(sizes: Seq<ArtSize>, from: int) -> Option<Seq<char>>
    decreases sizes.len() - from,
{
    if from >= sizes.len() {
        None
    } else if sizes[from].width >= 300 {
        Some(sizes[from].url@)
    } else {
        first_wide(sizes, from + 1)
    }
}

/// A size that is found is at least 300 wide, and every size before it is
/// narrower. Where some size is that wide, one is found; where none is, none
/// is.
pub proof fn lemma_first_wide_is_wide(sizes: Seq<ArtSize>, from: int)
    requires
        0 <= from,
    ensures
        match first_wide(sizes, from) {
            Some(url) => exists|i: int|
                #![trigger sizes[i]]
                {
                    &&& from <= i < sizes.len()
                    &&& sizes[i].width >= 300
                    &&& sizes[i].url@ == url
                    &&& forall|k: int| from <= k < i ==> (#[trigger] sizes[k]).width < 300
                },
            None => forall|k: int| from <= k < sizes.len() ==> (#[trigger] sizes[k]).width < 300,
        },
    decreases sizes.len() - from,
{
    if from < sizes.len() && sizes[from].width < 300 {
        lemma_first_wide_is_wide(sizes, from + 1);
    }
}

/// The artwork of a track is of the first artwork of the first release: the
/// first size there that is at least 300 wide. Where that artwork has no such
/// size, or there is no artwork, there is none.
pub proof fn lemma_artwork_is_wide(releases: Seq<Release>)
    ensures
        match art_of(releases) {
            Some(url) => {
                &&& releases.len() > 0
                &&& releases[0].artwork@.len() > 0
                &&& exists|i: int|
                    #![trigger releases[0].artwork@[0].sizes@[i]]
                    {
                        let sizes = releases[0].artwork@[0].sizes@;
                        &&& 0 <= i < sizes.len()
                        &&& sizes[i].width >= 300
                        &&& sizes[i].url@ == url
                        &&& forall|k: int| 0 <= k < i ==> (#[trigger] sizes[k]).width < 300
                    }
            },
            None => releases.len() > 0 && releases[0].artwork@.len() > 0 ==> forall|k: int|
                0 <= k < releases[0].artwork@[0].sizes@.len() ==> (
                #[trigger] releases[0].artwork@[0].sizes@[k]).width < 300,
        },
{
    if releases.len() > 0 && releases[0].artwork@.len() > 0 {
        lemma_first_wide_is_wide(releases[0].artwork@[0].sizes@, 0);
    }
}

/// A table gives the entry whose prefix the name starts with and that stands
/// before all others like it, and nothing where there is none.
pub proof fn lemma_first_match_is_first(
    table: Seq<(Seq<char>, Seq<char>)>,
    name: Seq<char>,
    from: int,
)
    requires
        0 <= from,
    ensures
        match first_match(table, name, from) {
            Some(value) => exists|i: int|
                #![trigger table[i]]
                {
                    &&& from <= i < table.len()
                    &&& table[i].0.is_prefix_of(name)
                    &&& table[i].1 == value
                    &&& forall|k: int|
                        from <= k < i ==> !(#[trigger] table[k]).0.is_prefix_of(name)
                },
            None => forall|k: int|
                from <= k < table.len() ==> !(#[trigger] table[k]).0.is_prefix_of(name),
        },
    decreases table.len() - from,
{
    if from < table.len() {
        let prefix = table[from].0;
        if prefix.len() <= name.len() {
            assert(name.subrange(0, prefix.len() as int) == name.take(prefix.len() as int));
        }
        if !prefix.is_prefix_of(name) {
            lemma_first_match_is_first(table, name, from + 1);
        }
    }
}

/// The artwork to show: of the first artwork of the first release, the first
/// size that is wide enough.
pub open spec fn art_of(releases: Seq<Release>) -> Option<Seq<char>> {
    if releases.len() > 0 && releases[0].artwork@.len() > 0 {
        first_wide(releases[0].artwork@[0].sizes@, 0)
    } else {
        None
    }
}

fn find_wide(sizes: &Vec<ArtSize>) -> (r: Option<String>)
    ensures
        option_text(r) == first_wide(sizes@, 0),
{
    let mut i: usize = 0;
    while i < sizes.len()
        invariant
            first_wide(sizes@, 0) == first_wide(sizes@, i as int),
        decreases sizes@.len() - i,
    {
        if sizes[i].width >= 300 {
            return Some(sizes[i].url.clone());
        }
        i += 1;
    }
    None
}

/// Reads a reply. A reply with neither artist nor title means that no track is
/// playing.
pub fn read_now_playing(now: NowReply) -> (r: Option<NowPlaying>)
    ensures
        match r {
            Some(np) => {
                &&& np.artist@ == text_or_empty(now.artist)
                &&& np.title@ == text_or_empty(now.title)
                &&& np.artist@.len() > 0 || np.title@.len() > 0
                &&& option_text(np.art_url) == art_of(now.releases@)
            },
            None => text_or_empty(now.artist).len() == 0 && text_or_empty(now.title).len() == 0,
        },
{
    let artist: String = match now.artist {
        Some(text) => text,
        None => String::new(),
    };
    let title: String = match now.title {
        Some(text) => text,
        None => String::new(),
    };
    if artist.as_str().is_empty() && title.as_str().is_empty() {
        return None;
    }
    let art_url: Option<String> = if now.releases.len() > 0 && now.releases[0].artwork.len() > 0 {
        find_wide(&now.releases[0].artwork[0].sizes)
    } else {
        None
    };
    Some(NowPlaying { artist, title, art_url })
}

/// Whether a reply describes a track at all: it is an object, and not an
/// empty one.
pub fn describes_track(is_object: bool, fields: usize) -> (r: bool)
    ensures
        r == (is_object && fields > 0),
{
    is_object && fields > 0
}

/// Which station a name in the lineup is: names may be cut or go on, so their
/// start decides, and the first entry where more than one fits.
pub proof fn lemma_station_by_name(name: Seq<char>, i: int)
    requires
        0 <= i < 6,
    ensures
        ({
            let table = seq![
                ("triple j Uneart"@, "triplej"@),
                ("triple j"@, "triplej"@),
                ("Double J"@, "doublej"@),
                ("ABC Jazz"@, "jazz"@),
                ("ABC Classic"@, "classic"@),
                ("ABC Country"@, "country"@),
            ];
            &&& table[i].0.is_prefix_of(name) && (forall|k: int|
                0 <= k < i ==> !(#[trigger] table[k]).0.is_prefix_of(name))
                ==> AbcProvider.station_of(name) == Some(table[i].1)
            &&& (forall|k: int| 0 <= k < 6 ==> !(#[trigger] table[k]).0.is_prefix_of(name))
                ==> AbcProvider.station_of(name) is None
        }),
{
    let table = seq![
        ("triple j Uneart"@, "triplej"@),
        ("triple j"@, "triplej"@),
        ("Double J"@, "doublej"@),
        ("ABC Jazz"@, "jazz"@),
        ("ABC Classic"@, "classic"@),
        ("ABC Country"@, "country"@),
    ];
    assert(stations() =~= table);
    lemma_first_match_is_first(table, name, 0);
}

/// Which logo goes with a name in the lineup, by its start.
pub proof fn lemma_logo_by_name(name: Seq<char>, i: int)
    requires
        0 <= i < 17,
    ensures
        ({
            let table = seq![
                ("triple j Uneart"@, "triplej_unearthed"@),
                ("triple j"@, "triplej"@),
                ("Double J"@, "doublej"@),
                ("ABC Jazz"@, "abc_jazz"@),
                ("ABC KIDS Listen"@, "abc_kids"@),
                ("ABC Country"@, "abc_country"@),
                ("ABC NewsRadio"@, "abc_newsradio"@),
                ("ABC SYDNEY"@, "abc_sydney"@),
                ("ABC RN"@, "abc_rn"@),
                ("ABC Classic"@, "abc_classic"@),
                ("SBS Radio 1"@, "sbs_radio1"@),
                ("SBS Radio 2"@, "sbs_radio2"@),
                ("SBS Radio 3"@, "sbs_radio3"@),
                ("SBS Arabic"@, "sbs_arabic"@),
                ("SBS South Asian"@, "sbs_southasian"@),
                ("SBS Chill"@, "sbs_chill"@),
                ("SBS PopAsia"@, "sbs_popasia"@),
            ];
            &&& table[i].0.is_prefix_of(name) && (forall|k: int|
                0 <= k < i ==> !(#[trigger] table[k]).0.is_prefix_of(name))
                ==> AbcProvider.logo_of(name) == Some(table[i].1)
            &&& (forall|k: int| 0 <= k < 17 ==> !(#[trigger] table[k]).0.is_prefix_of(name))
                ==> AbcProvider.logo_of(name) is None
        }),
{
    let table = seq![
        ("triple j Uneart"@, "triplej_unearthed"@),
        ("triple j"@, "triplej"@),
        ("Double J"@, "doublej"@),
        ("ABC Jazz"@, "abc_jazz"@),
        ("ABC KIDS Listen"@, "abc_kids"@),
        ("ABC Country"@, "abc_country"@),
        ("ABC NewsRadio"@, "abc_newsradio"@),
        ("ABC SYDNEY"@, "abc_sydney"@),
        ("ABC RN"@, "abc_rn"@),
        ("ABC Classic"@, "abc_classic"@),
        ("SBS Radio 1"@, "sbs_radio1"@),
        ("SBS Radio 2"@, "sbs_radio2"@),
        ("SBS Radio 3"@, "sbs_radio3"@),
        ("SBS Arabic"@, "sbs_arabic"@),
        ("SBS South Asian"@, "sbs_southasian"@),
        ("SBS Chill"@, "sbs_chill"@),
        ("SBS PopAsia"@, "sbs_popasia"@),
    ];
    assert(logos() =~= table);
    lemma_first_match_is_first(table, name, 0);
}

/// A text that is missing reads as empty, and one that is there as it is.
pub proof fn lemma_missing_is_empty(text: String)
    ensures
        text_or_empty(Some(text)) == text@,
        text_or_empty(None).len() == 0,
        option_text(Some(text)) == Some(text@),
        option_text(None) is None,
{
}

/// The two addresses of a station name it between fixed parts, and differ from
/// those of every other station.
pub proof fn lemma_addresses_name_station(a: Seq<char>, b: Seq<char>)
    ensures
        now_url_of(a) == "https://music.abcradio.net.au/api/v1/plays/"@ + a + "/now.json"@,
        program_url_of(a) == "https://program.abcradio.net.au/api/v1/programitems/"@ + a
            + "/live.json"@,
        now_url_of(a) == now_url_of(b) ==> a == b,
        program_url_of(a) == program_url_of(b) ==> a == b,
{
    lemma_middle_tells(
        "https://music.abcradio.net.au/api/v1/plays/"@,
        a,
        b,
        "/now.json"@,
    );
    lemma_middle_tells(
        "https://program.abcradio.net.au/api/v1/programitems/"@,
        a,
        b,
        "/live.json"@,
    );
}

proof fn lemma_middle_tells(lead: Seq<char>, a: Seq<char>, b: Seq<char>, end: Seq<char>)
    ensures
        lead + a + end == lead + b + end ==> a == b,
{
    let (x, y) = (lead + a + end, lead + b + end);
    if x == y {
        let n = lead.len() as int;
        assert(x.len() == y.len());
        assert(x.subrange(n, n + a.len()) =~= a);
        assert(y.subrange(n, n + b.len()) =~= b);
    }
}

} // verus!
