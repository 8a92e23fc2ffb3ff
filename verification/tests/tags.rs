use radio_bridge::hls::id3_inject::{build_id3v2, syncsafe_u32, TrackMetadata};

#[test]
fn test_id3v2_structure() {
    let meta = TrackMetadata {
        title: "Test Song",
        artist: "Test Artist",
        artwork_url: "http://example.com/art.jpg",
    };
    let tag = build_id3v2(&meta);
    assert_eq!(&tag[0..3], b"ID3");
    assert_eq!(tag[3], 0x04); // v2.4
    assert!(tag.windows(4).any(|w| w == b"TIT2"));
    assert!(tag.windows(4).any(|w| w == b"TPE1"));
    assert!(tag.windows(4).any(|w| w == b"WXXX"));
}

#[test]
fn test_empty_metadata() {
    let meta = TrackMetadata {
        title: "",
        artist: "",
        artwork_url: "",
    };
    assert!(build_id3v2(&meta).is_empty());
}

#[test]
fn tag_bytes_are_exact() {
    let tag = build_id3v2(&TrackMetadata { title: "Hé", artist: "", artwork_url: "u" });
    let mut expected = b"ID3\x04\x00\x00\x00\x00\x00\x2A".to_vec();
    expected.extend_from_slice(b"TIT2\x00\x00\x00\x04\x00\x00\x03H\xC3\xA9");
    expected.extend_from_slice(b"WXXX\x00\x00\x00\x12\x00\x00\x03artworkURL_640x\x00u");
    assert_eq!(tag.len(), 10 + 0x2A);
    assert_eq!(tag, expected);
}

#[test]
fn long_fields_have_syncsafe_sizes() {
    let artist = "x".repeat(300);
    let tag = build_id3v2(&TrackMetadata { title: "", artist: &artist, artwork_url: "" });
    // 301 is 2 * 128 + 45, 311 is 2 * 128 + 55.
    assert_eq!(&tag[6..10], &[0, 0, 2, 55]);
    assert_eq!(&tag[10..14], b"TPE1");
    assert_eq!(&tag[14..18], &[0, 0, 2, 45]);
    assert_eq!(tag[20], 0x03);
    assert_eq!(&tag[21..], artist.as_bytes());
}

#[test]
fn syncsafe_sizes_round_trip() {
    assert_eq!(syncsafe_u32(0), [0, 0, 0, 0]);
    assert_eq!(syncsafe_u32(257), [0, 0, 2, 1]);
    assert_eq!(syncsafe_u32(0x0FFF_FFFF), [0x7F, 0x7F, 0x7F, 0x7F]);
    assert_eq!(syncsafe_u32(0x1000_0000), [0, 0, 0, 0]);
    for n in [1u32, 127, 128, 16_383, 16_384, 2_097_151, 2_097_152, 200_000_000] {
        let b = syncsafe_u32(n);
        assert!(b.iter().all(|x| *x < 0x80));
        let back = b.iter().fold(0u32, |v, x| (v << 7) | *x as u32);
        assert_eq!(back, n);
    }
}
