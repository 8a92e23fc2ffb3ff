use radio_bridge::providers::abc::{
    describes_track, now_url, program_url, read_now_playing, AbcProvider, ArtSize, Artwork,
    NowPlaying, NowReply, Release,
};
use radio_bridge::providers::poller::PollerState;
use radio_bridge::providers::MetadataProvider;

fn size(url: &str, width: u32) -> ArtSize {
    ArtSize { url: url.to_string(), width }
}

fn reply(artist: Option<&str>, title: Option<&str>, releases: Vec<Release>) -> NowReply {
    NowReply {
        artist: artist.map(|s| s.to_string()),
        title: title.map(|s| s.to_string()),
        releases,
    }
}

fn track(artist: &str, title: &str, art: Option<&str>) -> NowPlaying {
    NowPlaying {
        artist: artist.to_string(),
        title: title.to_string(),
        art_url: art.map(|s| s.to_string()),
    }
}

#[test]
fn stations_are_known_by_their_names() {
    let abc = AbcProvider;
    let id = |name: &str| abc.station_id_for(name);
    assert_eq!(id("triple j"), Some("triplej".to_string()));
    assert_eq!(id("triple j Unearthed"), Some("triplej".to_string()));
    assert_eq!(id("Double J"), Some("doublej".to_string()));
    assert_eq!(id("ABC Jazz"), Some("jazz".to_string()));
    assert_eq!(id("ABC Classic FM"), Some("classic".to_string()));
    assert_eq!(id("ABC Country"), Some("country".to_string()));
    assert_eq!(id("ABC RN"), None);
    assert_eq!(id("Triple J"), None);
    assert_eq!(id(""), None);
}

#[test]
fn logos_are_known_by_station_names() {
    let abc = AbcProvider;
    for (name, key) in [
        ("triple j Uneart", "triplej_unearthed"),
        ("triple j", "triplej"),
        ("Double J", "doublej"),
        ("ABC Jazz", "abc_jazz"),
        ("ABC KIDS Listen", "abc_kids"),
        ("ABC Country", "abc_country"),
        ("ABC NewsRadio", "abc_newsradio"),
        ("ABC SYDNEY", "abc_sydney"),
        ("ABC RN", "abc_rn"),
        ("ABC Classic 2", "abc_classic"),
        ("SBS Radio 1", "sbs_radio1"),
        ("SBS Radio 2", "sbs_radio2"),
        ("SBS Radio 3", "sbs_radio3"),
        ("SBS Arabic24", "sbs_arabic"),
        ("SBS South Asian", "sbs_southasian"),
        ("SBS Chill", "sbs_chill"),
        ("SBS PopAsia", "sbs_popasia"),
    ] {
        assert_eq!(abc.logo_key_for(name), Some(key));
    }
    assert_eq!(abc.logo_key_for("SBS Radio 4"), None);
}

#[test]
fn addresses_of_the_network() {
    assert_eq!(now_url("jazz"), "https://music.abcradio.net.au/api/v1/plays/jazz/now.json");
    assert_eq!(
        program_url("doublej"),
        "https://program.abcradio.net.au/api/v1/programitems/doublej/live.json"
    );
}

#[test]
fn replies_are_read() {
    let art = vec![
        Release {
            artwork: vec![
                Artwork { sizes: vec![size("small", 299), size("fits", 300), size("big", 900)] },
                Artwork { sizes: vec![size("other", 900)] },
            ],
        },
        Release { artwork: vec![Artwork { sizes: vec![size("second", 900)] }] },
    ];
    let np = read_now_playing(reply(Some("A"), Some("T"), art)).expect("a track");
    assert_eq!((np.artist.as_str(), np.title.as_str()), ("A", "T"));
    assert_eq!(np.art_url, Some("fits".to_string()));

    let np = read_now_playing(reply(None, Some("T"), vec![])).expect("a title is enough");
    assert_eq!((np.artist.as_str(), np.art_url), ("", None));

    let narrow = vec![Release { artwork: vec![Artwork { sizes: vec![size("small", 100)] }] }];
    let np = read_now_playing(reply(Some("A"), None, narrow)).expect("an artist is enough");
    assert_eq!(np.art_url, None);
    let bare = vec![Release { artwork: vec![] }];
    assert_eq!(read_now_playing(reply(Some("A"), None, bare)).unwrap().art_url, None);

    assert!(read_now_playing(reply(None, None, vec![])).is_none());
    assert!(read_now_playing(reply(Some(""), Some(""), vec![])).is_none());

    assert!(describes_track(true, 1));
    assert!(!describes_track(true, 0));
    assert!(!describes_track(false, 3));
}

#[test]
fn only_news_is_shown() {
    let mut poller = PollerState::new();
    assert!(poller.on_program(None).is_none());
    let update = poller.on_playing(track("A", "T", Some("art"))).expect("new");
    assert_eq!((update.title.as_str(), update.artist.as_str()), ("T", "A"));
    assert_eq!(update.artwork_url, Some("art".to_string()));
    assert!(poller.on_playing(track("A", "T", None)).is_none());
    assert!(poller.on_playing(track("A", "U", None)).is_some());

    let update = poller.on_program(Some("House Party".to_string())).expect("the track ended");
    assert_eq!((update.title.as_str(), update.artist.as_str()), ("House Party", ""));
    assert_eq!(update.artwork_url, None);
    assert!(poller.on_program(Some("House Party".to_string())).is_none());

    let update = poller.on_program(None).expect("the program ended");
    assert_eq!((update.title.as_str(), update.artist.as_str()), ("", ""));
    assert!(poller.on_program(None).is_none());
    assert!(poller.on_playing(track("A", "U", None)).is_some());
}
