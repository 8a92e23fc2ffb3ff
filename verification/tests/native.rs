use radio_bridge::transcoder::aac::{AacChannels, AacObjectType, AacTransport};
use radio_bridge::transcoder::adts::parse_header;
use radio_bridge::transcoder::demux::{
    parse_audio_pid_from_pmt, parse_pmt_pid_from_pat, PesAssembler, TsDemuxer,
};
use radio_bridge::transcoder::ffmpeg::arguments;
use radio_bridge::transcoder::mp2::Mp2Decoder;
use radio_bridge::transcoder::native::{
    native_settings, stamp, NativeTranscoder, TranscodeError,
};
use radio_bridge::transcoder::pcm::{
    extract_interleaved_i16, to_i16, DecodedAudio, PcmBuffer, SamplePlanes,
};
use radio_bridge::transcoder::TranscoderConfig;
use symphonia_bundle_mp3::MpaDecoder;
use symphonia_core::audio::{Audio, GenericAudioBufferRef};
use symphonia_core::codecs::audio::well_known::CODEC_ID_MP2;
use symphonia_core::codecs::audio::{AudioCodecParameters, AudioDecoder, AudioDecoderOptions};
use symphonia_core::packet::Packet;
use symphonia_core::units::{Duration, Timestamp};

fn config(bitrate: u32) -> TranscoderConfig {
    TranscoderConfig {
        input_url: "http://tuner:5004/auto/v28".to_string(),
        bitrate,
        sample_rate: 44100,
        channels: 2,
    }
}

/// A transport packet with a payload of its full size or less.
fn ts_packet(pid: u16, starts: bool, payload: &[u8]) -> Vec<u8> {
    let mut p = vec![0x47, (pid >> 8) as u8 | if starts { 0x40 } else { 0 }, pid as u8];
    let stuffing = 184 - payload.len();
    if stuffing == 0 {
        p.push(0x10);
    } else {
        p.push(0x30);
        p.push((stuffing - 1) as u8);
        if stuffing > 1 {
            p.push(0x00);
            p.resize(4 + stuffing, 0xFF);
        }
    }
    p.extend_from_slice(payload);
    assert_eq!(p.len(), 188);
    p
}

fn pat(pmt_pid: u16) -> Vec<u8> {
    let mut s = vec![0x00, 0x00, 0xB0, 0x0D, 0x00, 0x01, 0xC1, 0x00, 0x00, 0x00, 0x01];
    s.push(0xE0 | (pmt_pid >> 8) as u8);
    s.push(pmt_pid as u8);
    s.extend_from_slice(&[0, 0, 0, 0]);
    ts_packet(0, true, &s)
}

fn pmt(pid: u16, streams: &[(u8, u16)]) -> Vec<u8> {
    let length = 13 + 5 * streams.len();
    let mut s = vec![0x00, 0x02, 0xB0, length as u8, 0x00, 0x01, 0xC1, 0x00, 0x00, 0xE1, 0x00];
    s.extend_from_slice(&[0xF0, 0x00]);
    for (kind, es) in streams {
        s.extend_from_slice(&[*kind, 0xE0 | (es >> 8) as u8, *es as u8, 0xF0, 0x00]);
    }
    s.extend_from_slice(&[0, 0, 0, 0]);
    ts_packet(pid, true, &s)
}

/// The transport packets of a PES packet around some audio.
fn pes(pid: u16, audio: &[u8]) -> Vec<u8> {
    let mut p = vec![0x00, 0x00, 0x01, 0xC0];
    p.extend_from_slice(&((3 + audio.len()) as u16).to_be_bytes());
    p.extend_from_slice(&[0x80, 0x00, 0x00]);
    p.extend_from_slice(audio);
    p.chunks(184).enumerate().flat_map(|(i, c)| ts_packet(pid, i == 0, c)).collect()
}

/// A layer 2 frame at 48 kHz in stereo, 768 bytes, from a seed.
fn mp2_frame(seed: u32) -> Vec<u8> {
    let mut f = vec![0xFF, 0xFD, 0xC4, 0x00];
    let mut x = seed;
    while f.len() < 768 {
        if seed == 0 {
            f.push(0);
        } else {
            x = x.wrapping_mul(1_664_525).wrapping_add(1_013_904_223);
            f.push((x >> 24) as u8);
        }
    }
    f
}

/// Samples and sample rate that the decoder itself gives for some frames.
fn decode_all(frames: &[Vec<u8>]) -> Vec<Option<(u32, Vec<Vec<f32>>)>> {
    let mut params = AudioCodecParameters::new();
    params.for_codec(CODEC_ID_MP2);
    let mut decoder = MpaDecoder::try_new(&params, &AudioDecoderOptions::default()).unwrap();
    frames
        .iter()
        .map(|f| {
            let packet = Packet::new(0, Timestamp::ZERO, Duration::ZERO, f.clone());
            match decoder.decode(&packet) {
                Ok(GenericAudioBufferRef::F32(b)) => {
                    Some((b.spec().rate(), b.iter_planes().map(|p| p.to_vec()).collect()))
                }
                Ok(_) => panic!("unexpected format"),
                Err(_) => None,
            }
        })
        .collect()
}

#[test]
fn tables_lead_to_the_audio_stream() {
    assert_eq!(parse_pmt_pid_from_pat(&pat(0x123)), Some(0x123));
    assert_eq!(parse_audio_pid_from_pmt(&pmt(0x123, &[(0x1B, 0x200), (0x04, 0x201)])), Some(0x201));
    assert_eq!(parse_audio_pid_from_pmt(&pmt(0x123, &[(0x03, 0x202), (0x04, 0x201)])), Some(0x202));
    assert_eq!(parse_audio_pid_from_pmt(&pmt(0x123, &[(0x0F, 0x200)])), None);
    assert_eq!(parse_pmt_pid_from_pat(&pmt(0x123, &[(0x03, 0x202)])), None);
    assert_eq!(parse_audio_pid_from_pmt(&pat(0x123)), None);
    assert_eq!(parse_pmt_pid_from_pat(&[0x47; 100]), None);
    let mut wrong = pat(0x123);
    wrong[0] = 0x48;
    assert_eq!(parse_pmt_pid_from_pat(&wrong), None);
    let mut continued = pat(0x123);
    continued[1] &= 0x1F;
    assert_eq!(parse_pmt_pid_from_pat(&continued), None);
}

#[test]
fn pes_packets_are_reassembled() {
    let audio: Vec<u8> = (0..600u32).map(|i| i as u8).collect();
    let packets = pes(0x200, &audio);
    let mut assembler = PesAssembler::new();
    let mut out = Vec::new();
    for p in packets.chunks(188) {
        out.extend(assembler.push(p));
    }
    assert_eq!(out, [audio.clone()]);
    // One without a length ends where the next begins.
    let mut open = pes(0x200, &audio);
    let start = 188 - 184;
    open[start + 4] = 0;
    open[start + 5] = 0;
    let mut assembler = PesAssembler::new();
    for p in open.chunks(188) {
        assert_eq!(assembler.push(p), None);
    }
    assert_eq!(assembler.push(&packets[..188]), Some(audio));
}

#[test]
fn an_endless_pes_packet_is_dropped() {
    let mut assembler = PesAssembler::new();
    let mut start = vec![0u8; 184];
    start[2] = 1;
    assert_eq!(assembler.push(&ts_packet(0x200, true, &start)), None);
    for _ in 0..2000 {
        assert_eq!(assembler.push(&ts_packet(0x200, false, &[9; 184])), None);
    }
    assert_eq!(assembler.push(&ts_packet(0x200, true, &start)), None);
}

#[test]
fn a_stream_is_demultiplexed_in_any_chunks() {
    let mut stream = vec![1, 2, 3];
    stream.extend(pes(0x200, &[5; 50])); // before the tables, so not known as audio
    stream.extend(pat(0x123));
    stream.extend(pmt(0x123, &[(0x03, 0x200)]));
    stream.extend(pes(0x200, &[6; 300]));
    stream.extend(pes(0x201, &[7; 300]));
    stream.extend(pes(0x200, &[8; 300]));
    let expected = [vec![6u8; 300], vec![8u8; 300]];
    for size in [1usize, 100, 187, 188, 189, 1000, 10_000] {
        let mut demuxer = TsDemuxer::new();
        let mut out = Vec::new();
        for chunk in stream.chunks(size) {
            out.extend(demuxer.push_chunk(chunk));
        }
        assert_eq!(out, expected);
    }
}

#[test]
fn samples_convert_as_in_floating_point() {
    let convert = |f: f32| (f.clamp(-1.0, 1.0) * 32767.0) as i16;
    let special = [
        0.0f32,
        -0.0,
        1.0,
        -1.0,
        2.5,
        -7.0,
        f32::INFINITY,
        f32::NEG_INFINITY,
        f32::NAN,
        f32::MIN_POSITIVE,
        1e-40,
        0.5,
        -0.25,
        1.0 / 32767.0,
        1.0 / 32768.0,
        0.999_999_94,
        -0.999_999_94,
    ];
    for f in special {
        assert_eq!(to_i16(f.to_bits()), convert(f), "{f}");
    }
    assert_eq!(to_i16(0.5f32.to_bits()), 16383);
    assert_eq!(to_i16((-1.0f32).to_bits()), -32767);
    let mut x = 12345u32;
    for _ in 0..200_000 {
        x = x.wrapping_mul(1_664_525).wrapping_add(1_013_904_223);
        assert_eq!(to_i16(x), convert(f32::from_bits(x)), "{x:#x}");
        // The exponents that matter.
        let near = 0x3700_0000 + x % 0x0900_0000;
        assert_eq!(to_i16(near), convert(f32::from_bits(near)), "{near:#x}");
    }
    // Values a little to either side of a step.
    for n in 1..32767u32 {
        let bits = (n as f32 / 32767.0).to_bits();
        for b in [bits - 1, bits, bits + 1] {
            assert_eq!(to_i16(b), convert(f32::from_bits(b)), "{b:#x}");
        }
    }
}

#[test]
fn channels_are_interleaved() {
    let planes = SamplePlanes::Signed16(vec![vec![1, 2, 3], vec![-1, -2, -3]]);
    assert_eq!(extract_interleaved_i16(&planes), [1, -1, 2, -2, 3, -3]);
    let left = vec![1.0f32.to_bits(), 0.0f32.to_bits()];
    let right = vec![(-0.5f32).to_bits(), 0.25f32.to_bits()];
    assert_eq!(
        extract_interleaved_i16(&SamplePlanes::Float(vec![left.clone(), right])),
        [32767, -16383, 0, 8191]
    );
    assert_eq!(extract_interleaved_i16(&SamplePlanes::Float(vec![left])), [32767, 0]);
    assert!(extract_interleaved_i16(&SamplePlanes::Float(vec![])).is_empty());
    assert!(extract_interleaved_i16(&SamplePlanes::Other).is_empty());
}

#[test]
fn waiting_samples_are_cut_into_frames() {
    let mut buffer = PcmBuffer::new();
    let all: Vec<i16> = (0..6912u32).map(|i| i as i16).collect();
    let mut taken = Vec::new();
    for part in all.chunks(2304) {
        buffer.push(part);
        while let Some(frame) = buffer.take_frame() {
            assert_eq!(frame.len(), 2048);
            taken.extend(frame);
        }
    }
    assert_eq!(taken.len(), 3 * 2048);
    assert_eq!(taken[..], all[..3 * 2048]);
    // What is left comes before what is added.
    buffer.push(&vec![7; 2048]);
    let next = buffer.take_frame().expect("a whole frame");
    assert_eq!(next[..768], all[3 * 2048..]);
    assert_eq!(next[768], 7);
}

#[test]
fn an_overflow_drops_what_waited() {
    let mut buffer = PcmBuffer::new();
    buffer.push(&vec![1; 96_000]);
    buffer.push(&[2; 2048]);
    assert_eq!(buffer.take_frame(), Some(vec![2; 2048]));
    assert_eq!(buffer.take_frame(), None);
    buffer.push(&vec![3; 2049]);
    buffer.push(&vec![4; 96_000 - 2049]);
    assert_eq!(buffer.take_frame(), Some(vec![3; 2048]));
}

#[test]
fn layer_two_frames_are_decoded() {
    // Noise gives both frames that decode and frames that run out of bits.
    let frames: Vec<Vec<u8>> = (0..12u32).map(mp2_frame).collect();
    let expected = decode_all(&frames);
    assert!(expected[0].is_some());
    let mut decoder = Mp2Decoder::new();
    for (frame, want) in frames.iter().zip(&expected) {
        let got = decoder.decode(frame.clone());
        match (got, want) {
            (Some(audio), Some((rate, planes))) => {
                assert_eq!(audio.sample_rate, *rate);
                let bits: Vec<Vec<u32>> =
                    planes.iter().map(|p| p.iter().map(|s| s.to_bits()).collect()).collect();
                assert!(matches!(audio.planes, SamplePlanes::Float(p) if p == bits));
            }
            (None, None) => {}
            _ => panic!("the decoder was given something else"),
        }
    }
}

#[test]
fn silence_decodes_to_zeros() {
    let audio = Mp2Decoder::new().decode(mp2_frame(0)).expect("a valid frame");
    assert_eq!(audio.sample_rate, 48000);
    assert_eq!(extract_interleaved_i16(&audio.planes), vec![0i16; 2304]);
}

#[test]
fn what_is_not_a_frame_is_refused() {
    let mut decoder = Mp2Decoder::new();
    assert!(decoder.decode(Vec::new()).is_none());
    assert!(decoder.decode(vec![1, 2, 3]).is_none());
    let mut long = mp2_frame(0);
    long.push(0);
    assert!(decoder.decode(long).is_none());
    assert!(decoder.decode(mp2_frame(0)).is_some());
}

#[test]
fn collected_data_stands_behind_its_header() {
    let mut assembler = PesAssembler::new();
    assert!(assembler.extract_audio_data().is_empty());
    let data: Vec<u8> = (0..400u32).map(|i| (i % 251) as u8).collect();
    let stream = pes(0x200, &data);
    let packets: Vec<&[u8]> = stream.chunks(188).collect();
    assert!(assembler.push(packets[0]).is_none());
    let some = assembler.extract_audio_data();
    assert!(!some.is_empty() && some.len() < data.len());
    assert_eq!(some, data[..some.len()]);
}

#[test]
fn output_is_stamped() {
    let (frame, clock) = stamp(&[1, 2], 500, 48000);
    let frame = frame.expect("there is output");
    assert_eq!(frame.data.to_vec(), [1, 2]);
    assert_eq!((frame.pts, frame.sample_rate, frame.samples), (500, 48000, 1024));
    assert_eq!(clock, 2420);
    let (frame, clock) = stamp(&[], 500, 48000);
    assert!(frame.is_none());
    assert_eq!(clock, 500);
}

#[test]
fn a_broadcast_is_transcoded() {
    let mut stream = pat(0x123);
    stream.extend(pmt(0x123, &[(0x03, 0x200)]));
    for i in 0..40 {
        stream.extend(pes(0x200, &mp2_frame(if i % 2 == 0 { 0 } else { 5 })));
    }
    let mut transcoder = NativeTranscoder::new(&config(128_000));
    let mut frames = Vec::new();
    for chunk in stream.chunks(1316) {
        match transcoder.push_chunk(chunk) {
            Ok(more) => frames.extend(more),
            Err(TranscodeError::Encoder(e)) => panic!("{}", e.error()),
        }
    }
    assert!(frames.len() >= 15);
    for (i, f) in frames.iter().enumerate() {
        let header = parse_header(&f.data).expect("an ADTS header");
        assert_eq!(header.frame_length, f.data.len());
        assert_eq!(header.sample_rate, 48000);
        assert_eq!(header.channel_config, 2);
        assert_eq!(f.sample_rate, 48000);
        assert_eq!(f.samples, 1024);
        assert_eq!(f.pts, 1920 * i as u64);
    }
}

#[test]
fn decoded_audio_goes_to_the_encoder() {
    let mut transcoder = NativeTranscoder::new(&config(96_000));
    let tone: Vec<i16> = (0..1152i32).map(|i| ((i * 311) % 20_000 - 10_000) as i16).collect();
    let audio = |rate| DecodedAudio {
        sample_rate: rate,
        planes: SamplePlanes::Signed16(vec![tone.clone(), tone.clone()]),
    };
    let mut count = 0;
    for _ in 0..16 {
        match transcoder.push_audio(&audio(32_000)) {
            Ok(frames) => {
                for f in frames {
                    assert_eq!(f.sample_rate, 32_000);
                    assert_eq!(f.pts, 2880 * count);
                    assert_eq!(parse_header(&f.data).map(|h| h.sample_rate), Some(32_000));
                    count += 1;
                }
            }
            Err(TranscodeError::Encoder(e)) => panic!("{}", e.error()),
        }
    }
    // 16 frames of 1152 samples are 18 of 1024.
    assert!(count >= 15 && count <= 18);
}

#[test]
fn a_rate_without_an_encoder_stops_the_transcoder() {
    let mut transcoder = NativeTranscoder::new(&config(96_000));
    let audio = DecodedAudio {
        sample_rate: 12_345,
        planes: SamplePlanes::Signed16(vec![vec![0; 1152], vec![0; 1152]]),
    };
    let refusal = match transcoder.push_audio(&audio) {
        Ok(_) => panic!("no encoder has this rate"),
        Err(TranscodeError::Encoder(e)) => e,
    };
    let asked = refusal.settings();
    assert!(asked == native_settings(96_000, 12_345));
    assert_eq!((asked.sample_rate, asked.bit_rate), (12_345, 96_000));
    assert!(matches!(asked.transport, AacTransport::Adts));
    assert!(matches!(asked.channels, AacChannels::Stereo));
    assert!(matches!(asked.object_type, AacObjectType::Mpeg4LowComplexity));
    assert!(!refusal.error().to_string().is_empty());
}

#[test]
fn a_higher_bit_rate_gives_more_bytes() {
    let bytes = |bitrate: u32| -> usize {
        let mut transcoder = NativeTranscoder::new(&config(bitrate));
        let mut x = 1u32;
        let mut total = 0;
        for _ in 0..40 {
            let noise: Vec<i16> = (0..1152)
                .map(|_| {
                    x = x.wrapping_mul(1_664_525).wrapping_add(1_013_904_223);
                    (x >> 17) as i16
                })
                .collect();
            let audio = DecodedAudio {
                sample_rate: 48_000,
                planes: SamplePlanes::Signed16(vec![noise.clone(), noise]),
            };
            match transcoder.push_audio(&audio) {
                Ok(frames) => total += frames.iter().map(|f| f.data.len()).sum::<usize>(),
                Err(TranscodeError::Encoder(e)) => panic!("{}", e.error()),
            }
        }
        total
    };
    assert!(bytes(256_000) > 2 * bytes(64_000));
}

#[test]
fn the_program_is_called_with_the_configuration() {
    let mut c = config(256_000);
    c.channels = 1;
    assert_eq!(
        arguments(&c),
        [
            "-hide_banner",
            "-loglevel",
            "warning",
            "-i",
            "http://tuner:5004/auto/v28",
            "-c:a",
            "aac",
            "-b:a",
            "256k",
            "-ac",
            "1",
            "-ar",
            "44100",
            "-f",
            "adts",
            "pipe:1",
        ]
    );
}
