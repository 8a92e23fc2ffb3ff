use bytes::Bytes;
use radio_bridge::hls::duration::SegmentDuration;
use radio_bridge::hls::segment_store::SegmentStore;
use radio_bridge::providers::abc::AbcProvider;
use radio_bridge::sessions::{running_at, SessionStep, Sessions};
use radio_bridge::web::{
    base_url, bind_address, default_external_host, fallback_art, guide_name, is_expired,
    is_lineup_fresh, lineup_step, lineup_url, plan_channel, playlist, playlist_step,
    read_segment_number, resolve_logo, serve_art, serve_segment, take_lineup, test_page, ArtAnswer,
    LineupAnswer, LineupEntry, LineupStep, PlaylistStep, SegmentAnswer,
};

fn entry(number: Option<&str>, name: Option<&str>) -> LineupEntry {
    LineupEntry {
        guide_number: number.map(|s| s.to_string()),
        guide_name: name.map(|s| s.to_string()),
    }
}

fn store(count: u8) -> SegmentStore {
    let mut s = SegmentStore::new(30);
    for i in 0..count {
        s.add(Bytes::copy_from_slice(&[i, 100 + i]), SegmentDuration { frames: 94, sample_rate: 48_000 });
    }
    s
}

#[test]
fn hosts_with_a_port_are_reached_directly() {
    assert_eq!(base_url("192.168.1.2:8000"), "http://192.168.1.2:8000");
    assert_eq!(base_url("radio.example.com"), "https://radio.example.com");
    assert_eq!(default_external_host(8000), "localhost:8000");
    assert_eq!(bind_address(8000), "0.0.0.0:8000");
    assert_eq!(lineup_url("tuner"), "http://tuner/lineup.json");
}

#[test]
fn channels_are_looked_up() {
    let lineup = vec![
        entry(None, Some("odd")),
        entry(Some("28"), Some("triple j")),
        entry(Some("28"), Some("second")),
        entry(Some("29"), None),
        entry(Some("30"), Some("Other FM")),
    ];
    assert_eq!(guide_name(&lineup, "28"), Some("triple j".to_string()));
    assert_eq!(guide_name(&lineup, "29"), None);
    assert_eq!(guide_name(&lineup, "31"), None);
    assert_eq!(resolve_logo(&AbcProvider, &lineup, "28"), Some("triplej"));
    assert_eq!(resolve_logo(&AbcProvider, &lineup, "30"), None);
    assert_eq!(resolve_logo(&AbcProvider, &lineup, "29"), None);

    let plan = plan_channel(&AbcProvider, &lineup, "28", "h:1");
    assert_eq!(plan.guide_name, "triple j");
    assert_eq!(plan.fallback_art, Some("http://h:1/logo/28".to_string()));
    assert_eq!(plan.station_id, Some("triplej".to_string()));
    let plan = plan_channel(&AbcProvider, &lineup, "31", "h");
    assert_eq!((plan.guide_name.as_str(), plan.fallback_art, plan.station_id), ("", None, None));
}

#[test]
fn logos_stand_in_for_artwork() {
    assert_eq!(fallback_art("h", "28", true), Some("https://h/logo/28".to_string()));
    assert_eq!(fallback_art("h", "28", false), None);
    assert!(matches!(serve_art(Some("u".to_string()), false), ArtAnswer::Redirect(u) if u == "u"));
    assert!(matches!(serve_art(None, true), ArtAnswer::Logo));
    assert!(matches!(serve_art(None, false), ArtAnswer::NotFound));
}

#[test]
fn times_run_out() {
    assert!(is_lineup_fresh(299_999_999_999));
    assert!(!is_lineup_fresh(300_000_000_000));
    assert!(!is_expired(30, 30));
    assert!(is_expired(31, 30));
}

#[test]
fn a_lineup_is_used_for_five_minutes() {
    assert!(lineup_step(None) == LineupStep::Fetch);
    assert!(lineup_step(Some(0)) == LineupStep::Use);
    assert!(lineup_step(Some(299_999_999_999)) == LineupStep::Use);
    assert!(lineup_step(Some(300_000_000_000)) == LineupStep::Fetch);
}

#[test]
fn a_failed_fetch_keeps_the_lineup() {
    let mut cache = None;
    assert!(take_lineup(&mut cache, None) == LineupAnswer::Empty);
    assert_eq!(cache, None);
    assert!(take_lineup(&mut cache, Some("one")) == LineupAnswer::Fetched);
    assert_eq!(cache, Some("one"));
    assert!(take_lineup(&mut cache, None) == LineupAnswer::Empty);
    assert_eq!(cache, Some("one"));
    assert!(take_lineup(&mut cache, Some("two")) == LineupAnswer::Fetched);
    assert_eq!(cache, Some("two"));
}

#[test]
fn a_running_channel_is_found() {
    let channels = vec!["28".to_string(), "29.1".to_string(), "".to_string()];
    assert_eq!(running_at(&channels, "28"), Some(0));
    assert_eq!(running_at(&channels, "29.1"), Some(1));
    assert_eq!(running_at(&channels, ""), Some(2));
    assert_eq!(running_at(&channels, "29"), None);
    assert_eq!(running_at(&Vec::new(), "28"), None);
}

#[test]
fn a_channel_is_started_once() {
    let mut sessions: Sessions<u32> = Sessions::new();
    assert!(matches!(sessions.step("28"), SessionStep::Start));
    // A start that fails stores nothing.
    assert_eq!(sessions.started("28", Err("no tuner")), Err("no tuner"));
    assert!(matches!(sessions.step("28"), SessionStep::Start));
    assert!(sessions.channels().is_empty());
    // One that succeeds leaves the others alone.
    assert_eq!(sessions.started::<()>("28", Ok(1)), Ok(()));
    assert_eq!(sessions.started::<()>("29", Ok(2)), Ok(()));
    assert_eq!(sessions.started::<()>("30", Ok(3)), Ok(()));
    assert_eq!(sessions.started("29", Err("no tuner")), Err("no tuner"));
    assert!(matches!(sessions.step("28"), SessionStep::Reuse(1)));
    assert!(matches!(sessions.step("29"), SessionStep::Reuse(2)));
    assert_eq!(sessions.started::<()>("29", Ok(4)), Ok(()));
    assert_eq!(sessions.channels().len(), 3);
    assert_eq!((sessions.get("29"), sessions.get("30")), (Some(&4), Some(&3)));
    // A channel that was taken out is started anew.
    assert_eq!(sessions.remove("28"), Some(1));
    assert_eq!(sessions.remove("28"), None);
    assert!(matches!(sessions.step("28"), SessionStep::Start));
    assert_eq!(sessions.channels(), &["29", "30"]);
    assert_eq!(sessions.get("28"), None);
    assert_eq!((sessions.get("29"), sessions.get("30")), (Some(&4), Some(&3)));
}

#[test]
fn playlists_are_waited_for() {
    assert!(playlist_step(0, 3, 3) == PlaylistStep::Serve);
    assert!(playlist_step(0, 2, 3) == PlaylistStep::Wait);
    assert!(playlist_step(19, 2, 3) == PlaylistStep::Wait);
    assert!(playlist_step(19, 3, 3) == PlaylistStep::Serve);
    assert!(playlist_step(20, 2, 3) == PlaylistStep::GiveUp);
    assert!(!playlist(&store(3), "h", "28", 3).is_empty());
    assert!(playlist(&store(2), "h", "28", 3).is_empty());
}

#[test]
fn segment_numbers_are_read() {
    assert_eq!(read_segment_number("7.ts"), Some(7));
    assert_eq!(read_segment_number("7"), Some(7));
    assert_eq!(read_segment_number("7.ts.ts"), Some(7));
    assert_eq!(read_segment_number("a.ts"), None);
    assert_eq!(read_segment_number(".ts"), None);
    assert_eq!(read_segment_number("18446744073709551615.ts"), Some(u64::MAX));
    assert_eq!(read_segment_number("18446744073709551616.ts"), None);
}

#[test]
fn what_a_playlist_lists_is_served() {
    let s = store(40);
    let text = playlist(&s, "h:8000", "28", 3);
    let prefix = "http://h:8000/hls/28/seg/";
    let listed: Vec<&str> = text.lines().filter_map(|l| l.strip_prefix(prefix)).collect();
    assert_eq!(listed.len(), 30);
    for (i, rest) in listed.iter().enumerate() {
        match serve_segment(Some(&s), rest) {
            SegmentAnswer::Data(data) => assert_eq!(data.to_vec(), [10 + i as u8, 110 + i as u8]),
            _ => panic!("{rest} is listed"),
        }
    }
}

#[test]
fn other_segments_are_refused() {
    let s = store(3);
    assert!(matches!(serve_segment(Some(&s), "x.ts"), SegmentAnswer::BadRequest));
    assert!(matches!(serve_segment(None, "x.ts"), SegmentAnswer::BadRequest));
    assert!(matches!(serve_segment(None, "1.ts"), SegmentAnswer::NotFound));
    assert!(matches!(serve_segment(Some(&s), "3.ts"), SegmentAnswer::NotFound));
    assert!(matches!(serve_segment(Some(&s), "2.ts"), SegmentAnswer::Data(_)));
}

#[test]
fn the_test_page_plays_the_channel() {
    let page = test_page("28");
    assert!(page.starts_with("<!DOCTYPE html>\n<html><head><script src=\"https://cdn.jsdelivr.net/npm/hls.js@latest\">"));
    assert!(page.contains("<h2>Stream Test — Channel 28</h2>"));
    assert!(page.contains("if(Hls.isSupported()){var h=new Hls();h.loadSource('/hls/28/live.m3u8');h.attachMedia(a);\n"));
    assert!(page.contains("{a.src='/hls/28/live.m3u8';s.textContent='Native HLS'}\n"));
    assert!(page.ends_with("</script></body></html>"));
}
