//! Bridges radio channels of a network tuner to HLS streams with track
//! metadata.
//!
//! The library holds all that is decided and computed: the path of the audio
//! from transport stream to segments ([`transcoder`], [`hls`]), where track
//! information comes from ([`providers`]), which channels run ([`sessions`]),
//! what the HTTP server answers ([`web`]), and which addresses are looked at
//! ([`discovery`], [`sonos`]).
pub mod buffers;
pub mod discovery;
pub mod hls;
pub mod mpegts;
pub mod providers;
pub mod sessions;
pub mod sonos;
pub mod text;
pub mod transcoder;
pub mod web;
