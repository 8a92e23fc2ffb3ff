//! How the `ffmpeg` program is called to do the transcoding instead.
use super::frame::TranscoderConfig;
use crate::text::{decimal, lemma_decimal_round_trip, number_of, texts, to_decimal};
use vstd::prelude::*;
use vstd::string::StringExecFns;

verus! {

/// The arguments for `ffmpeg`: read the stream, and write AAC with ADTS
/// headers to standard output.
pub open spec fn arguments_for(config: TranscoderConfig) -> Seq<Seq<char>> {
    seq![
        "-hide_banner"@,
        "-loglevel"@,
        "warning"@,
        "-i"@,
        config.input_url@,
        "-c:a"@,
        "aac"@,
        "-b:a"@,
        decimal((config.bitrate / 1000) as nat) + "k"@,
        "-ac"@,
        decimal(config.channels as nat),
        "-ar"@,
        decimal(config.sample_rate as nat),
        "-f"@,
        "adts"@,
        "pipe:1"@,
    ]
}

/// The arguments to call `ffmpeg` with.
pub fn arguments(config: &TranscoderConfig) -> (r: Vec<String>)
    ensures
        texts(r@) == arguments_for(*config),
{
    let mut bitrate: String = to_decimal((config.bitrate / 1000) as u64);
    bitrate.append("k");
    let r: Vec<String> = vec![
        "-hide_banner".to_owned(),
        "-loglevel".to_owned(),
        "warning".to_owned(),
        "-i".to_owned(),
        config.input_url.clone(),
        "-c:a".to_owned(),
        "aac".to_owned(),
        "-b:a".to_owned(),
        bitrate,
        "-ac".to_owned(),
        to_decimal(config.channels as u64),
        "-ar".to_owned(),
        to_decimal(config.sample_rate as u64),
        "-f".to_owned(),
        "adts".to_owned(),
        "pipe:1".to_owned(),
    ];
    assert(texts(r@) =~= arguments_for(*config));
    r
}

/// Whether an option is followed by a value among some arguments.
pub open spec fn is_given(arguments: Seq<Seq<char>>, option: Seq<char>, value: Seq<char>) -> bool {
    exists|i: int|
        0 <= i < arguments.len() - 1 && #[trigger] arguments[i] == option && arguments[i + 1]
            == value
}

/// The program is given the address to read, the codec, the bit rate in
/// kilobits, the channels, the sample rate and the format; it writes to
/// standard output.
pub proof fn lemma_program_is_given(config: TranscoderConfig)
    ensures
        ({
            let args = arguments_for(config);
            &&& is_given(args, "-i"@, config.input_url@)
            &&& is_given(args, "-c:a"@, "aac"@)
            &&& exists|digits: Seq<char>|
                #[trigger] number_of(digits) == Some((config.bitrate / 1000) as nat) && is_given(
                    args,
                    "-b:a"@,
                    digits + "k"@,
                )
            &&& exists|digits: Seq<char>|
                #[trigger] number_of(digits) == Some(config.channels as nat) && is_given(
                    args,
                    "-ac"@,
                    digits,
                )
            &&& exists|digits: Seq<char>|
                #[trigger] number_of(digits) == Some(config.sample_rate as nat) && is_given(
                    args,
                    "-ar"@,
                    digits,
                )
            &&& is_given(args, "-f"@, "adts"@)
            &&& args.last() == "pipe:1"@
        }),
{
    let args = arguments_for(config);
    let rate = decimal((config.bitrate / 1000) as nat);
    lemma_decimal_round_trip((config.bitrate / 1000) as nat);
    lemma_decimal_round_trip(config.channels as nat);
    lemma_decimal_round_trip(config.sample_rate as nat);
    assert(args[3] == "-i"@ && args[4] == config.input_url@);
    assert(args[5] == "-c:a"@ && args[6] == "aac"@);
    assert(args[7] == "-b:a"@ && args[8] == rate + "k"@);
    assert(args[9] == "-ac"@ && args[10] == decimal(config.channels as nat));
    assert(args[11] == "-ar"@ && args[12] == decimal(config.sample_rate as nat));
    assert(args[13] == "-f"@ && args[14] == "adts"@);
}

} // verus!
