# Radio Bridge

Bridges over-the-air radio channels of an HDHomeRun network tuner to HLS
streams, with the current track and its artwork as timed metadata.

The library is written in Verus: its functions state what they return or
change, a method of a trait through the trait, and Verus proves it.

| Path | What it holds |
|------|---------------|
| `src/mpegts.rs` | The fields of a transport stream packet |
| `src/transcoder/` | From a broadcast transport stream to timed AAC frames |
| `src/hls/` | From AAC frames to segments, playlists and ID3 tags |
| `src/providers/` | Stations of the ABC and SBS, and what a poller shows |
| `src/discovery.rs`, `src/sonos.rs` | Finding tuners and speakers, and what is said to speakers |
| `src/sessions.rs` | The channels that are running |
| `src/web.rs` | What the HTTP server answers |
| `src/text.rs`, `src/buffers.rs` | Text and byte strings |
| `app/` | The server: command line, HTTP, network and tasks |
| `tests/` | The library on concrete values |

## What is proved of the whole

- Cutting a stream into chunks differently does not change what comes out of
  the ADTS parser or of the demultiplexer, and garbage between packets is
  skipped.
- No sample is lost between the MP2 decoder, whose frames have 1152 samples,
  and the AAC encoder, whose frames have 1024.
- Every output of the AAC encoder becomes one frame, in order and timed by the
  frames before it; an empty output becomes none.
- The segments carry every AAC frame, unaltered, in order and with its
  timestamp, and each segment the one ID3 tag that was set when it was opened,
  however tags change in the run. The receiver of this library reassembles them
  all, as long as the PES packet of a frame has at most 262144 bytes, and the
  length field of the PES packet of a tag is true.
- Every segment has a PAT and a PMT with intact checksums, then the metadata
  packets, and then only audio packets. The first audio packet and no other
  packet carries the clock, and the continuity counter of the audio runs on from
  segment to segment.
- The store holds the latest segments, thirty for a channel, numbered without a
  gap. What a channel gives out under a number is the segment of that number in
  its run, and each segment that a playlist lists is served at the address that
  it is listed with.
- A channel that is running is not started again, starting one leaves the others
  alone, and a start that fails stores nothing.

## What is not proved

What the `bytes`, `symphonia` and `fdk-aac` crates do is stated in the items
marked `external_body` and `assume_specification` in `src/buffers.rs`,
`src/transcoder/mp2.rs` and `src/transcoder/aac.rs`, and taken on trust.
`String::push` in `src/text.rs` is the one such item for the standard library.

## Running it

`app/` takes its settings from the command line or the environment:

| Flag | Variable | Default |
|------|----------|---------|
| `--hdhr-host` | `HDHR_HOST` | found on the network |
| `--hdhr-port` | `HDHR_PORT` | `5004` |
| `--bitrate` | `BITRATE` | `256k` |
| `--port` | `PORT` | `8000` |
| `--grace-period` | `GRACE_PERIOD` | `30` |
| `--external-host` | `EXTERNAL_HOST` | `localhost:PORT` |
| `--segment-duration` | `SEGMENT_DURATION` | `2.0` |
| `--min-segments` | `MIN_SEGMENTS` | `3` |

Station logos are read from `logos/` when the server starts, one PNG file for
each key that the provider knows.
