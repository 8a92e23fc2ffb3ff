//! From a broadcast transport stream to timed AAC frames.
pub mod aac;
pub mod adts;
pub mod demux;
pub mod ffmpeg;
pub mod frame;
pub mod mp2;
pub mod native;
pub mod pcm;
pub mod stream_laws;
pub mod table_laws;

pub use frame::{AacFrame, TranscoderConfig};
