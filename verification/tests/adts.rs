use radio_bridge::transcoder::adts::{parse_header, AdtsStreamParser};
use radio_bridge::transcoder::frame::advance_pts;

/// An AAC-LC frame with a header, of `length` bytes, at 44100 Hz in stereo.
fn adts_frame(length: usize, fill: u8) -> Vec<u8> {
    let mut f = vec![
        0xFF,
        0xF1,
        0x50,
        0x80 | ((length >> 11) & 0x03) as u8,
        (length >> 3) as u8,
        ((length & 7) << 5) as u8,
        0x00,
    ];
    f.resize(length, fill);
    f
}

#[test]
fn test_parse_header() {
    // Valid ADTS header for 44100Hz stereo AAC-LC, frame_length=100, no CRC
    let header = [
        0xFF, 0xF1, // sync + MPEG4, Layer 0, no CRC
        0x50,       // AAC-LC, 44100Hz, private=0, channel_config high bit=0
        0x80,       // channel_config=2, frame_length high bits=0
        0x03,       // frame_length mid = 0x03 << 3 = 0x18
        0x20,       // frame_length low = 1, buffer fullness high
        0x00,       // buffer fullness low, num_frames=0+1
    ];
    // frame_length = (0x00 << 11) | (0x03 << 3) | (0x20 >> 5) = 0 | 24 | 1 = 25
    // That's too small, but let's just test parsing works
    let h = parse_header(&header).expect("should parse");
    assert_eq!(h.sample_rate, 44100);
    assert_eq!(h.header_length, 7);
    assert_eq!(h.frame_length, 25);
    assert_eq!(h.channel_config, 2);
}

#[test]
fn headers_are_refused() {
    let good = adts_frame(100, 0);
    assert!(parse_header(&good[..6]).is_none());
    let mut bad = good.clone();
    bad[0] = 0xFE;
    assert!(parse_header(&bad).is_none());
    let mut bad = good.clone();
    bad[1] = 0xE1;
    assert!(parse_header(&bad).is_none());
    let mut bad = good.clone();
    bad[2] = 0x74; // there is no thirteenth sample rate
    assert!(parse_header(&bad).is_none());
    assert!(parse_header(&adts_frame(7, 0)).is_some());
    let mut short = adts_frame(7, 0);
    short[4] = 0;
    short[5] = 6 << 5;
    assert!(parse_header(&short).is_none());
    // With a checksum the header has nine bytes.
    let mut checked = adts_frame(100, 0);
    checked[1] = 0xF0;
    assert_eq!(parse_header(&checked).map(|h| h.header_length), Some(9));
    checked[4] = 1;
    checked[5] = 0;
    assert!(parse_header(&checked).is_none());
}

#[test]
fn sample_rates_are_known() {
    let rates = [
        96000, 88200, 64000, 48000, 44100, 32000, 24000, 22050, 16000, 12000, 11025, 8000, 7350,
    ];
    for (i, rate) in rates.iter().enumerate() {
        let mut h = adts_frame(100, 0);
        h[2] = 0x40 | (i as u8) << 2;
        assert_eq!(parse_header(&h).map(|h| h.sample_rate), Some(*rate));
    }
}

#[test]
fn frames_come_out_with_timestamps() {
    let mut parser = AdtsStreamParser::new();
    let mut stream = vec![0x00, 0x12]; // what comes before the first frame is dropped
    stream.extend(adts_frame(20, 1));
    stream.extend(adts_frame(30, 2));
    stream.extend_from_slice(&adts_frame(40, 3)[..25]);
    let frames = parser.push(&stream);
    assert_eq!(frames.len(), 2);
    assert_eq!(frames[0].data.to_vec(), adts_frame(20, 1));
    assert_eq!(frames[1].data.to_vec(), adts_frame(30, 2));
    assert_eq!((frames[0].pts, frames[1].pts), (0, 2089));
    assert_eq!((frames[0].sample_rate, frames[0].samples), (44100, 1024));
    assert_eq!(parser.pending_len(), 25);
    let frames = parser.push(&adts_frame(40, 3)[25..]);
    assert_eq!(frames.len(), 1);
    assert_eq!(frames[0].pts, 4178);
    assert_eq!(parser.pending_len(), 0);
}

#[test]
fn chunks_do_not_matter() {
    let mut stream = vec![0x00, 0xFF, 0x00];
    for i in 0..5u8 {
        stream.extend(adts_frame(10 + 13 * i as usize, i));
    }
    let mut whole = AdtsStreamParser::new();
    let expected: Vec<(Vec<u8>, u64)> =
        whole.push(&stream).iter().map(|f| (f.data.to_vec(), f.pts)).collect();
    assert_eq!(expected.len(), 5);
    for size in 1..40 {
        let mut parser = AdtsStreamParser::default();
        let mut got = Vec::new();
        for chunk in stream.chunks(size) {
            got.extend(parser.push(chunk).iter().map(|f| (f.data.to_vec(), f.pts)));
        }
        assert_eq!(got, expected);
    }
}

#[test]
fn a_header_that_is_refused_stops_the_parser() {
    let mut parser = AdtsStreamParser::new();
    let mut bad = adts_frame(20, 0);
    bad[2] = 0x74;
    bad.extend(adts_frame(20, 1));
    assert!(parser.push(&bad).is_empty());
    assert!(parser.push(&adts_frame(20, 2)).is_empty());
    assert_eq!(parser.pending_len(), 60);
}

#[test]
fn the_clock_advances_by_whole_frames() {
    assert_eq!(advance_pts(0, 48000), 1920);
    assert_eq!(advance_pts(100, 44100), 2189);
    assert_eq!(advance_pts(u64::MAX, 48000), 1919);
}
