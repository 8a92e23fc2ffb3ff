use bytes::Bytes;
use radio_bridge::hls::duration::SegmentDuration;
use radio_bridge::hls::segment_store::SegmentStore;

fn length(frames: u32, sample_rate: u32) -> SegmentDuration {
    SegmentDuration { frames, sample_rate }
}

fn text(d: SegmentDuration) -> String {
    let mut out = String::new();
    d.push_text(&mut out);
    out
}

#[test]
fn a_ring_keeps_the_latest() {
    let mut store = SegmentStore::new(3);
    assert!(store.is_empty());
    assert_eq!((store.count(), store.first_seq(), store.last_seq()), (0, 0, 0));
    for i in 0..5u8 {
        let seq = store.add(Bytes::copy_from_slice(&[i, i]), length(94, 48_000));
        assert_eq!(seq, i as u64);
    }
    assert!(!store.is_empty());
    assert_eq!((store.count(), store.first_seq(), store.last_seq()), (3, 2, 4));
    assert!(store.get(1).is_none());
    assert_eq!(store.get(2).map(|b| b.to_vec()), Some(vec![2, 2]));
    assert_eq!(store.get(4).map(|b| b.to_vec()), Some(vec![4, 4]));
    assert!(store.get(5).is_none());
}

#[test]
fn a_ring_without_room_keeps_nothing() {
    let mut store = SegmentStore::new(0);
    assert_eq!(store.add(Bytes::from_static(b"x"), length(1, 48_000)), 0);
    assert_eq!(store.add(Bytes::from_static(b"x"), length(1, 48_000)), 1);
    assert!(store.is_empty());
    assert!(store.get(0).is_none());
}

#[test]
fn playlist_text_is_exact() {
    let mut store = SegmentStore::new(2);
    store.add(Bytes::from_static(b"a"), length(1, 48_000));
    store.add(Bytes::from_static(b"b"), length(94, 48_000));
    assert_eq!(store.generate_playlist("http://h:8000", "28", 3), "");
    store.add(Bytes::from_static(b"c"), length(93, 48_000));
    assert_eq!(
        store.generate_playlist("http://h:8000", "28", 2),
        "#EXTM3U\n#EXT-X-VERSION:3\n#EXT-X-TARGETDURATION:3\n#EXT-X-MEDIA-SEQUENCE:1\n\
         #EXTINF:2.005,\nhttp://h:8000/hls/28/seg/1.ts\n\
         #EXTINF:1.984,\nhttp://h:8000/hls/28/seg/2.ts\n"
    );
}

#[test]
fn an_empty_playlist_has_a_default_target() {
    let store = SegmentStore::new(2);
    assert_eq!(
        store.generate_playlist("https://h", "1", 0),
        "#EXTM3U\n#EXT-X-VERSION:3\n#EXT-X-TARGETDURATION:10\n#EXT-X-MEDIA-SEQUENCE:0\n"
    );
    assert_eq!(store.generate_playlist("https://h", "1", 1), "");
}

#[test]
fn durations_round_up_to_seconds() {
    assert_eq!(length(94, 48_000).ceil(), 3);
    assert_eq!(length(375, 48_000).ceil(), 8);
    assert_eq!(length(1, 48_000).ceil(), 1);
    assert_eq!(length(0, 48_000).ceil(), 0);
    assert_eq!(length(u32::MAX, 1).ceil(), u32::MAX as u64 * 1024);
    assert_eq!(length(5, 0).ceil(), u64::MAX);
    assert_eq!(length(0, 0).ceil(), 0);
}

#[test]
fn durations_have_three_decimals() {
    assert_eq!(text(length(94, 48_000)), "2.005");
    assert_eq!(text(length(1, 44_100)), "0.023");
    assert_eq!(text(length(375, 48_000)), "8.000");
    assert_eq!(text(length(0, 1)), "0.000");
    assert_eq!(text(length(3, 0)), "inf");
    assert_eq!(text(length(0, 0)), "NaN");
    // Exactly between two thousandths: the even one.
    assert_eq!(text(length(1, 16_384)), "0.062");
    assert_eq!(text(length(3, 16_384)), "0.188");
    // Between two thousandths, where double precision is a little above.
    assert_eq!(text(length(1, 81_920)), "0.013");
}

#[test]
fn durations_agree_with_floating_point() {
    let rates = [
        1u32, 3, 7, 1000, 2000, 8000, 11025, 16000, 16384, 22050, 32000, 44100, 48000, 49152,
        81920, 88200, 96000, 163_840, 819_200, 1 << 31, u32::MAX,
    ];
    for rate in rates {
        for frames in (0..1200u32).chain([65_535, 1 << 20, 1 << 31, u32::MAX]) {
            let d = length(frames, rate);
            let f = (frames as f64 * 1024.0) / rate as f64;
            assert_eq!(text(d), format!("{f:.3}"));
            assert_eq!(d.ceil(), f.ceil() as u64);
        }
    }
}
