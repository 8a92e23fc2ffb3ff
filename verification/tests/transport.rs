use bytes::Bytes;
use radio_bridge::hls::codes::{crc32_mpeg2, encode_pts, write_pcr};
use radio_bridge::hls::duration::SegmentDuration;
use radio_bridge::hls::id3_inject::{build_id3v2, TrackMetadata};
use radio_bridge::hls::muxer::TsMuxer;
use radio_bridge::hls::packets::{build_audio_pes, build_metadata_pes, build_pat, build_pmt};
use radio_bridge::hls::pipeline::{
    channel_store, push_frame, read_kilobits, store_segment, transcoder_config, RING_SIZE,
};
use radio_bridge::hls::segment_store::SegmentStore;
use radio_bridge::transcoder::demux::{
    parse_audio_pid_from_pmt, parse_pmt_pid_from_pat, PesAssembler,
};
use radio_bridge::transcoder::AacFrame;

fn frame(data: &[u8], pts: u64) -> AacFrame {
    AacFrame { data: Bytes::copy_from_slice(data), pts, sample_rate: 48000, samples: 1024 }
}

fn pid(packet: &[u8]) -> u16 {
    ((packet[1] as u16 & 0x1F) << 8) | packet[2] as u16
}

fn payload(packet: &[u8]) -> &[u8] {
    if packet[3] & 0x20 != 0 {
        &packet[5 + packet[4] as usize..]
    } else {
        &packet[4..]
    }
}

/// What a receiver gets out of one stream of a segment.
fn receive(segment: &[u8], stream: u16) -> Vec<Vec<u8>> {
    let mut assembler = PesAssembler::new();
    let mut out = Vec::new();
    for packet in segment.chunks(188) {
        if pid(packet) == stream {
            out.extend(assembler.push(packet));
        }
    }
    // A new unit makes the assembler hand out one that is still open.
    let mut end = vec![0xFFu8; 188];
    end[0] = 0x47;
    end[1] = 0x40;
    end[3] = 0x10;
    out.extend(assembler.push(&end));
    out
}

#[test]
fn crc_of_check_string() {
    assert_eq!(crc32_mpeg2(b"123456789"), 0x0376_E6E7);
    assert_eq!(crc32_mpeg2(b""), 0xFFFF_FFFF);
    // With its checksum behind it, data has checksum zero.
    let mut data = b"123456789".to_vec();
    data.extend_from_slice(&0x0376_E6E7u32.to_be_bytes());
    assert_eq!(crc32_mpeg2(&data), 0);
}

#[test]
fn timestamps_are_encoded() {
    assert_eq!(encode_pts(0), [0x21, 0x00, 0x01, 0x00, 0x01]);
    assert_eq!(encode_pts(90000), [0x21, 0x00, 0x05, 0xBF, 0x21]);
    assert_eq!(encode_pts(0x1_2345_6789), [0x29, 0x8D, 0x15, 0xCF, 0x13]);
    assert_eq!(encode_pts(0x1_FFFF_FFFF), [0x2F, 0xFF, 0xFF, 0xFF, 0xFF]);
    assert_eq!(encode_pts(0x2_0000_0000), encode_pts(0));
}

#[test]
fn clock_references_are_encoded() {
    let mut out = vec![0xAA];
    write_pcr(&mut out, 90001);
    assert_eq!(out, [0xAA, 0x00, 0x00, 0xAF, 0xC8, 0xFE, 0x00]);
    let mut out = Vec::new();
    write_pcr(&mut out, 0x1_FFFF_FFFF);
    assert_eq!(out, [0xFF, 0xFF, 0xFF, 0xFF, 0xFE, 0x00]);
}

#[test]
fn tables_are_exact() {
    assert_eq!(
        build_pat(),
        [
            0x00, 0xB0, 0x0D, 0x00, 0x01, 0xC1, 0x00, 0x00, 0x00, 0x01, 0xF0, 0x00, 0x2A, 0xB1,
            0x04, 0xB2
        ]
    );
    assert_eq!(
        build_pmt(false),
        [
            0x02, 0xB0, 0x12, 0x00, 0x01, 0xC1, 0x00, 0x00, 0xE1, 0x00, 0xF0, 0x00, 0x0F, 0xE1,
            0x00, 0xF0, 0x00, 0xB6, 0x9B, 0xC0, 0xD9
        ]
    );
    assert_eq!(
        build_pmt(true),
        [
            0x02, 0xB0, 0x1D, 0x00, 0x01, 0xC1, 0x00, 0x00, 0xE1, 0x00, 0xF0, 0x00, 0x0F, 0xE1,
            0x00, 0xF0, 0x00, 0x15, 0xE1, 0x50, 0xF0, 0x06, 0x05, 0x04, 0x49, 0x44, 0x33, 0x20,
            0x81, 0xD7, 0xD8, 0x3B
        ]
    );
    assert_eq!(crc32_mpeg2(&build_pat()), 0);
    assert_eq!(crc32_mpeg2(&build_pmt(true)), 0);
}

#[test]
fn pes_packets_are_exact() {
    assert_eq!(
        build_audio_pes(&[1, 2, 3], 90000),
        [0, 0, 1, 0xC0, 0, 11, 0x80, 0x80, 5, 0x21, 0x00, 0x05, 0xBF, 0x21, 1, 2, 3]
    );
    assert_eq!(
        build_metadata_pes(&[9], 0),
        [0, 0, 1, 0xBD, 0, 9, 0x84, 0x80, 5, 0x21, 0x00, 0x01, 0x00, 0x01, 9]
    );
    // Too long for the length field: audio says so, metadata keeps the low bits.
    let long = vec![7u8; 0x1_0000];
    assert_eq!(&build_audio_pes(&long, 0)[4..6], &[0, 0]);
    assert_eq!(&build_metadata_pes(&long, 0)[4..6], &[0, 8]);
}

#[test]
fn first_segment_has_tables_tag_and_audio() {
    let tag = build_id3v2(&TrackMetadata { title: "T", artist: "A", artwork_url: "" });
    let mut muxer = TsMuxer::new(180_000);
    muxer.set_id3(tag.clone());
    assert!(muxer.push_frame(frame(&[0xFF, 0xF1, 1, 2, 3], 1000)).is_none());
    assert_eq!(muxer.frame_count(), 1);
    let segment = muxer.flush().expect("one frame was written");
    assert_eq!(segment.data.len(), 4 * 188);
    let packets: Vec<&[u8]> = segment.data.chunks(188).collect();
    assert!(packets.iter().all(|p| p[0] == 0x47));
    assert_eq!(packets.iter().map(|p| pid(p)).collect::<Vec<_>>(), [0, 0x1000, 0x150, 0x100]);
    assert_eq!(&payload(packets[0])[1..], build_pat());
    assert_eq!(&payload(packets[1])[1..], build_pmt(true));
    assert_eq!(parse_pmt_pid_from_pat(packets[0]), Some(0x1000));
    // The streams are AAC and metadata, not MPEG audio.
    assert_eq!(parse_audio_pid_from_pmt(packets[1]), None);
    // The audio packet carries the clock.
    let mut clock = Vec::new();
    write_pcr(&mut clock, 1000);
    assert_eq!(packets[3][5], 0x10);
    assert_eq!(&packets[3][6..12], &clock[..]);
    assert_eq!(receive(&segment.data, 0x150), [tag]);
    assert_eq!(receive(&segment.data, 0x100), [vec![0xFF, 0xF1, 1, 2, 3]]);
    assert!(segment.duration == SegmentDuration { frames: 1, sample_rate: 48000 });
}

#[test]
fn segments_close_at_the_target_and_lose_no_frame() {
    let mut muxer = TsMuxer::new(9600);
    let mut segments = Vec::new();
    for i in 0..12u64 {
        let data = vec![i as u8; 50 + 100 * i as usize];
        if let Some(s) = muxer.push_frame(frame(&data, 1920 * i)) {
            segments.push(s);
        }
    }
    segments.extend(muxer.flush());
    // 9600 ticks are five frames of 1920.
    let lengths: Vec<u32> = segments.iter().map(|s| s.duration.frames).collect();
    assert_eq!(lengths, [5, 5, 2]);
    let mut received = Vec::new();
    for s in &segments {
        assert_eq!(s.data.len() % 188, 0);
        assert_eq!(pid(&s.data[..188]), 0);
        assert_eq!(pid(&s.data[188..376]), 0x1000);
        received.extend(receive(&s.data, 0x100));
    }
    let sent: Vec<Vec<u8>> = (0..12usize).map(|i| vec![i as u8; 50 + 100 * i]).collect();
    assert_eq!(received, sent);
    // The counter of the audio packets runs on over the segments.
    let counters: Vec<u8> = segments
        .iter()
        .flat_map(|s| s.data.chunks(188))
        .filter(|p| pid(p) == 0x100)
        .map(|p| p[3] & 0x0F)
        .collect();
    for (i, c) in counters.iter().enumerate() {
        assert_eq!(*c as usize, i % 16);
    }
}

#[test]
fn packets_are_stuffed_to_their_size() {
    // A PES packet of every length from just one transport packet to a little
    // over two.
    for n in 1..400usize {
        let mut muxer = TsMuxer::new(1);
        let data: Vec<u8> = (0..n).map(|i| (i * 7 % 251) as u8).collect();
        assert!(muxer.push_frame(frame(&data, 5)).is_none());
        let second: Vec<u8> = (0..n).map(|i| (i * 5 % 241) as u8).collect();
        let mut longer = TsMuxer::new(1_000_000);
        assert!(longer.push_frame(frame(&data, 5)).is_none());
        assert!(longer.push_frame(frame(&second, 6)).is_none());
        let segment = longer.flush().expect("two frames");
        assert_eq!(segment.data.len() % 188, 0);
        assert_eq!(receive(&segment.data, 0x100), [data, second]);
    }
}

#[test]
fn flushing_an_unused_muxer_gives_nothing() {
    let mut muxer = TsMuxer::new(180_000);
    assert!(muxer.flush().is_none());
}

#[test]
fn a_tag_belongs_to_the_segment_that_opens_with_it() {
    let mut muxer = TsMuxer::new(1920);
    let first = push_frame(&mut muxer, frame(&[1], 0), "One", "A", Some("http://x/1.png"));
    assert!(first.is_none());
    let one = push_frame(&mut muxer, frame(&[2], 1920), "Two", "B", None).expect("closed");
    let two = push_frame(&mut muxer, frame(&[3], 3840), "", "", None).expect("closed");
    let three = muxer.flush().expect("open");
    let tag = |title, artist, artwork_url| build_id3v2(&TrackMetadata { title, artist, artwork_url });
    assert_eq!(receive(&one.data, 0x150), [tag("One", "A", "http://x/1.png")]);
    assert_eq!(receive(&two.data, 0x150), [tag("Two", "B", "")]);
    assert!(receive(&three.data, 0x150).is_empty());
    let mut store = SegmentStore::new(30);
    assert_eq!(store_segment(&mut store, one), 0);
    assert_eq!(store_segment(&mut store, two), 1);
    assert_eq!(store.count(), 2);
}

#[test]
fn segments_are_laid_out_however_tags_change() {
    let titles = ["One", "Two", "", "A title that takes more than one packet"];
    let long = "x".repeat(300);
    let mut muxer = TsMuxer::new(5760);
    let mut segments = Vec::new();
    for i in 0..23usize {
        let data = vec![i as u8; 20 + 40 * i];
        let artist = if i % 4 == 3 { long.as_str() } else { "" };
        segments.extend(push_frame(
            &mut muxer,
            frame(&data, 1920 * i as u64),
            titles[i % 4],
            artist,
            None,
        ));
    }
    segments.extend(muxer.flush());
    assert_eq!(segments.len(), 8);
    let mut frames = Vec::new();
    let mut counters = Vec::new();
    for (n, s) in segments.iter().enumerate() {
        let packets: Vec<&[u8]> = s.data.chunks(188).collect();
        assert_eq!((pid(packets[0]), pid(packets[1])), (0, 0x1000));
        let audio = packets.iter().position(|p| pid(p) == 0x100).expect("audio");
        assert!(packets[2..audio].iter().all(|p| pid(p) == 0x150));
        assert!(packets[audio..].iter().all(|p| pid(p) == 0x100));
        // The first frame of segment n is frame 3n: its tag is the one carried,
        // and its timestamp the clock of its first packet.
        let i = 3 * n;
        let artist = if i % 4 == 3 { long.as_str() } else { "" };
        let tag = build_id3v2(&TrackMetadata { title: titles[i % 4], artist, artwork_url: "" });
        let tags = if tag.is_empty() { vec![] } else { vec![tag] };
        assert_eq!(receive(&s.data, 0x150), tags);
        for (k, p) in packets.iter().enumerate() {
            let clock = p[3] & 0x20 != 0 && p[4] > 0 && p[5] & 0x10 != 0;
            assert_eq!(clock, k == audio);
        }
        let mut clock = Vec::new();
        write_pcr(&mut clock, 1920 * i as u64);
        assert_eq!(&packets[audio][6..12], &clock[..]);
        counters.extend(packets[audio..].iter().map(|p| (p[3] & 0x0F) as usize));
        frames.extend(receive(&s.data, 0x100));
    }
    let sent: Vec<Vec<u8>> = (0..23usize).map(|i| vec![i as u8; 20 + 40 * i]).collect();
    assert_eq!(frames, sent);
    assert!(counters.iter().enumerate().all(|(i, c)| *c == i % 16));
}

/// The units of one stream of a segment: payloads joined from each start of a
/// unit to the next.
fn units(segment: &[u8], stream: u16) -> Vec<Vec<u8>> {
    let mut out: Vec<Vec<u8>> = Vec::new();
    for packet in segment.chunks(188).filter(|p| pid(p) == stream) {
        match out.last_mut() {
            Some(last) if packet[1] & 0x40 == 0 => last.extend(payload(packet)),
            _ => out.push(payload(packet).to_vec()),
        }
    }
    out
}

#[test]
fn frames_and_tags_of_any_length_are_carried() {
    let long = vec![0xA5u8; 300_000];
    let title = "t".repeat(70_000);
    let mut muxer = TsMuxer::new(1920);
    assert!(push_frame(&mut muxer, frame(&long, 7), &title, "", None).is_none());
    let first = push_frame(&mut muxer, frame(&[1, 2], 1927), "", "", None).expect("closed");
    let second = muxer.flush().expect("open");
    assert_eq!(units(&first.data, 0x100), [build_audio_pes(&long, 7)]);
    assert_eq!(units(&second.data, 0x100), [build_audio_pes(&[1, 2], 1927)]);
    let tag = build_id3v2(&TrackMetadata { title: &title, artist: "", artwork_url: "" });
    assert_eq!(units(&first.data, 0x150), [build_metadata_pes(&tag, 7)]);
    assert!(units(&second.data, 0x150).is_empty());
    // The receiver of this library does not take a frame as long as that.
    assert!(receive(&first.data, 0x100) != [long]);
}

#[test]
fn a_channel_keeps_thirty_segments() {
    assert_eq!(RING_SIZE, 30);
    let mut store = channel_store();
    let mut muxer = TsMuxer::new(1);
    for i in 0..34u64 {
        if let Some(segment) = muxer.push_frame(frame(&[i as u8], 2 * i)) {
            assert_eq!(store_segment(&mut store, segment), i - 1);
        }
    }
    assert_eq!((store.count(), store.first_seq(), store.last_seq()), (30, 3, 32));
    assert!(store.get(2).is_none());
    for i in 3..33u64 {
        let data = store.get(i).expect("kept");
        assert_eq!(receive(data, 0x100), [vec![i as u8]]);
    }
    assert!(store.get(33).is_none());
}

#[test]
fn bit_rates_are_read() {
    assert_eq!(read_kilobits("256k"), 256);
    assert_eq!(read_kilobits("128"), 128);
    assert_eq!(read_kilobits("+96kk"), 96);
    assert_eq!(read_kilobits("high"), 256);
    assert_eq!(read_kilobits(""), 256);
    assert_eq!(read_kilobits("99999999999k"), 256);
}

#[test]
fn a_channel_is_streamed_from_the_tuner() {
    let config = transcoder_config("192.168.1.100", "5004", "28", "192k");
    assert_eq!(config.input_url, "http://192.168.1.100:5004/auto/v28");
    assert_eq!(config.bitrate, 192_000);
    assert_eq!(config.sample_rate, 44100);
    assert_eq!(config.channels, 2);
}
