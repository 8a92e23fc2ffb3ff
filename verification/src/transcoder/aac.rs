//! Encoding to AAC, which the `fdk-aac` encoder does.
use fdk_aac::enc::{
    AudioObjectType, BitRate, ChannelMode, Encoder, EncoderError, EncoderParams, Transport,
};
use vstd::prelude::*;

verus! {

/// `fdk_aac::enc::Encoder`, an AAC encoder.
#[verifier::external_type_specification]
#[verifier::external_body]
pub struct ExEncoder(fdk_aac::enc::Encoder);

/// `fdk_aac::enc::EncoderError`, why an encoder refuses.
#[verifier::external_type_specification]
#[verifier::external_body]
pub struct ExEncoderError(fdk_aac::enc::EncoderError);

/// How AAC frames are wrapped.
#[derive(Clone, Copy, PartialEq, Eq, Structural)]
pub enum AacTransport {
    Adts,
    Raw,
}

/// The channels of the audio to encode.
#[derive(Clone, Copy, PartialEq, Eq, Structural)]
pub enum AacChannels {
    Mono,
    Stereo,
}

/// The kinds of AAC.
#[derive(Clone, Copy, PartialEq, Eq, Structural)]
pub enum AacObjectType {
    Mpeg4LowComplexity,
    Mpeg4HeAac,
    Mpeg4HeAacV2,
    Mpeg4LowDelay,
    Mpeg4EnhancedLowDelay,
    Mpeg2Aac,
    Mpeg2HeAac,
}

/// What an encoder is to do, at a constant bit rate.
#[derive(Clone, Copy, PartialEq, Eq, Structural)]
pub struct AacSettings {
    pub bit_rate: u32,
    pub sample_rate: u32,
    pub transport: AacTransport,
    pub channels: AacChannels,
    pub object_type: AacObjectType,
}

/// What an encoder was made for.
pub uninterp spec fn encoder_settings(e: fdk_aac::enc::Encoder) -> AacSettings;

/// The runs of samples that an encoder was given, in order.
pub uninterp spec fn samples_given(e: fdk_aac::enc::Encoder) -> Seq<Seq<i16>>;

/// The outputs that an encoder wrote, one for each run of samples that it was
/// given: empty where it wrote nothing or refused.
pub uninterp spec fn outputs_written(e: fdk_aac::enc::Encoder) -> Seq<Seq<u8>>;

/// `Encoder::new`: an encoder for the settings, which was not given anything
/// yet and has written nothing. When one is to be had is not said here: it
/// takes memory, and settings that the encoder knows.
#[verifier::external_body]
fn new_encoder(settings: AacSettings) -> (r: Result<Encoder, EncoderError>)
    ensures
        r is Ok ==> encoder_settings(r->Ok_0) == settings,
        r is Ok ==> samples_given(r->Ok_0) == Seq::<Seq<i16>>::empty(),
        r is Ok ==> outputs_written(r->Ok_0) == Seq::<Seq<u8>>::empty(),
{
    let transport = match settings.transport { AacTransport::Adts => Transport::Adts, AacTransport::Raw => Transport::Raw };
    let channels = match settings.channels { AacChannels::Mono => ChannelMode::Mono, AacChannels::Stereo => ChannelMode::Stereo };
    let audio_object_type = match settings.object_type {
        AacObjectType::Mpeg4LowComplexity => AudioObjectType::Mpeg4LowComplexity,
        AacObjectType::Mpeg4HeAac => AudioObjectType::Mpeg4HeAac,
        AacObjectType::Mpeg4HeAacV2 => AudioObjectType::Mpeg4HeAacV2,
        AacObjectType::Mpeg4LowDelay => AudioObjectType::Mpeg4LowDelay,
        AacObjectType::Mpeg4EnhancedLowDelay => AudioObjectType::Mpeg4EnhancedLowDelay,
        AacObjectType::Mpeg2Aac => AudioObjectType::Mpeg2Aac,
        AacObjectType::Mpeg2HeAac => AudioObjectType::Mpeg2HeAac,
    };
    let (bit_rate, sample_rate) = (BitRate::Cbr(settings.bit_rate), settings.sample_rate);
    Encoder::new(EncoderParams { bit_rate, sample_rate, transport, channels, audio_object_type })
}

/// An encoder that was not to be had: what it was asked for, and why it was
/// refused. Only [`open_encoder`] makes one.
pub struct EncoderRefusal {
    settings: AacSettings,
    error: EncoderError,
}

impl EncoderRefusal {
    /// What the encoder was asked for.
    pub closed spec fn asked(&self) -> AacSettings {
        self.settings
    }

    /// Why it was refused.
    pub closed spec fn reason(&self) -> EncoderError {
        self.error
    }

    /// What the encoder was asked for.
    pub fn settings(&self) -> (r: AacSettings)
        ensures
            r == self.asked(),
    {
        self.settings
    }

    /// Why it was refused.
    pub fn error(&self) -> (r: &EncoderError)
        ensures
            *r == self.reason(),
    {
        &self.error
    }
}

/// Asks for an encoder. A refusal tells which settings were refused.
pub fn open_encoder(settings: AacSettings) -> (r: Result<Encoder, EncoderRefusal>)
    ensures
        match r {
            Ok(encoder) => {
                &&& encoder_settings(encoder) == settings
                &&& samples_given(encoder) == Seq::<Seq<i16>>::empty()
                &&& outputs_written(encoder) == Seq::<Seq<u8>>::empty()
            },
            Err(refusal) => refusal.asked() == settings,
        },
{
    match new_encoder(settings) {
        Ok(encoder) => Ok(encoder),
        Err(error) => Err(EncoderRefusal { settings, error }),
    }
}

/// `Encoder::encode`: the encoder is given the samples, and says how many
/// bytes of output it wrote to the start of the buffer, never more than the
/// buffer holds; these bytes are its output, and there is none where it
/// refuses. Which bytes these are, and whether there are any, is not said
/// here: the encoder's arithmetic differs from processor to processor.
///
/// The encoder counts samples and bytes in 32 bits, so more are excluded.
#[verifier::external_body]
pub(crate) fn encode_samples(encoder: &mut Encoder, input: &[i16], output: &mut Vec<u8>) -> (r: Result<
    usize,
    EncoderError,
>)
    requires
        input@.len() <= i32::MAX,
        old(output)@.len() <= i32::MAX,
    ensures
        samples_given(*final(encoder)) == samples_given(*old(encoder)).push(input@),
        encoder_settings(*final(encoder)) == encoder_settings(*old(encoder)),
        final(output)@.len() == old(output)@.len(),
        r is Ok ==> r->Ok_0 <= final(output)@.len(),
        outputs_written(*final(encoder)) == outputs_written(*old(encoder)).push(
            match r {
                Ok(n) => final(output)@.take(n as int),
                Err(_) => Seq::<u8>::empty(),
            },
        ),
{
    encoder.encode(input, output).map(|info| info.output_size)
}

} // verus!
