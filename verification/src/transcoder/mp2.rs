//! Decoding of MPEG layer 2 audio, which the `symphonia` decoder does.
use super::pcm::{plane_views, DecodedAudio, SamplePlanes};
use symphonia_bundle_mp3::MpaDecoder;
use symphonia_core::audio::{Audio, GenericAudioBufferRef};
use symphonia_core::codecs::audio::well_known::CODEC_ID_MP2;
use symphonia_core::codecs::audio::{AudioCodecParameters, AudioDecoder, AudioDecoderOptions};
use symphonia_core::packet::Packet;
use symphonia_core::units::{Duration, Timestamp};
use vstd::prelude::*;

verus! {

/// `symphonia_bundle_mp3::MpaDecoder`, an MPEG audio decoder.
#[verifier::external_type_specification]
#[verifier::external_body]
pub struct ExMpaDecoder(symphonia_bundle_mp3::MpaDecoder);

/// `symphonia_core::errors::Error`, why a decoder refuses.
#[verifier::external_type_specification]
#[verifier::external_body]
pub struct ExDecoderError(symphonia_core::errors::Error);

/// The packets that a decoder was given, in order.
pub uninterp spec fn packets_seen(d: symphonia_bundle_mp3::MpaDecoder) -> Seq<Seq<u8>>;

/// What a layer 2 decoder makes of the last of the packets that it was given:
/// the sample rate, and the samples of each channel by the bits of their
/// single precision values; nothing where it refuses the packet.
pub uninterp spec fn mp2_decoded(packets: Seq<Seq<u8>>) -> Option<(u32, Seq<Seq<u32>>)>;

/// `MpaDecoder::try_new` for layer 2: it succeeds, and the decoder has not
/// been given anything.
#[verifier::external_body]
fn new_mp2_decoder() -> (r: Result<MpaDecoder, symphonia_core::errors::Error>)
    ensures
        r is Ok,
        packets_seen(r->Ok_0) == Seq::<Seq<u8>>::empty(),
{
    let mut params = AudioCodecParameters::new();
    params.for_codec(CODEC_ID_MP2);
    MpaDecoder::try_new(&params, &AudioDecoderOptions::default())
}

/// `AudioDecoder::decode` of a layer 2 decoder: what comes out depends on the
/// packets given so far and on nothing else. The samples are in single
/// precision, 1152 for each of one or two channels, at one of the rates that
/// the format knows.
#[verifier::external_body]
fn decode_packet(decoder: &mut MpaDecoder, data: Vec<u8>) -> (r: Result<
    DecodedAudio,
    symphonia_core::errors::Error,
>)
    ensures
        packets_seen(*final(decoder)) == packets_seen(*old(decoder)).push(data@),
        r is Err ==> mp2_decoded(packets_seen(*old(decoder)).push(data@)) is None,
        r matches Ok(audio) ==> {
            &&& audio.planes matches SamplePlanes::Float(planes)
            &&& mp2_decoded(packets_seen(*old(decoder)).push(data@)) == Some(
                (audio.sample_rate, plane_views(planes@)),
            )
            &&& 8000 <= audio.sample_rate <= 48000
            &&& 1 <= planes@.len() <= 2
            &&& forall|i: int| 0 <= i < planes@.len() ==> (#[trigger] planes@[i])@.len() == 1152
        },
{
    let packet = Packet::new(0, Timestamp::ZERO, Duration::ZERO, data);
    let decoded = decoder.decode(&packet)?;
    let sample_rate = decoded.spec().rate();
    let planes = match decoded {
        GenericAudioBufferRef::F32(b) => SamplePlanes::Float(
            b.iter_planes().map(|p| p.iter().map(|s| s.to_bits()).collect()).collect(),
        ),
        GenericAudioBufferRef::S16(b) => SamplePlanes::Signed16(
            b.iter_planes().map(|p| p.to_vec()).collect(),
        ),
        _ => SamplePlanes::Other,
    };
    Ok(DecodedAudio { sample_rate, planes })
}

/// A decoder that is made when the first packet comes.
pub struct Mp2Decoder {
    inner: Option<MpaDecoder>,
}

impl View for Mp2Decoder {
    type V = Seq<Seq<u8>>;

    closed spec fn view(&self) -> Seq<Seq<u8>> {
        match self.inner {
            Some(d) => packets_seen(d),
            None => Seq::empty(),
        }
    }
}

impl Mp2Decoder {
    /// A decoder that has seen nothing.
    pub fn new() -> (r: Self)
        ensures
            r@ == Seq::<Seq<u8>>::empty(),
    {
        Self { inner: None }
    }

    /// Decodes one packet, unless the decoder refuses it.
    pub fn decode(&mut self, data: Vec<u8>) -> (r: Option<DecodedAudio>)
        ensures
            final(self)@ == old(self)@.push(data@),
            match r {
                Some(audio) => {
                    &&& audio.planes matches SamplePlanes::Float(planes)
                    &&& mp2_decoded(old(self)@.push(data@)) == Some(
                        (audio.sample_rate, plane_views(planes@)),
                    )
                    &&& 8000 <= audio.sample_rate <= 48000
                    &&& 1 <= planes@.len() <= 2
                    &&& forall|i: int|
                        0 <= i < planes@.len() ==> (#[trigger] planes@[i])@.len() == 1152
                },
                None => mp2_decoded(old(self)@.push(data@)) is None,
            },
    {
        if self.inner.is_none() {
            match new_mp2_decoder() {
                Ok(d) => {
                    self.inner = Some(d);
                },
                Err(_) => {
                    return None;
                },
            }
        }
        match &mut self.inner {
            Some(d) => match decode_packet(d, data) {
                Ok(audio) => Some(audio),
                Err(_) => None,
            },
            None => None,
        }
    }
}

} // verus!
