//! From timed AAC frames to HLS segments and playlists.
pub mod codes;
pub mod duration;
pub mod format_laws;
pub mod id3_inject;
pub mod muxer;
pub mod packets;
pub mod pipeline;
pub mod playlist_laws;
pub mod receiver;
pub mod segment_laws;
pub mod segment_store;
pub mod unit_laws;
