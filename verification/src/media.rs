//! Reading audio files: WAV by `hound`, MP3 by `minimp3`.

use hound::{WavIntoSamples, WavReader};
use minimp3::Decoder;
use vstd::prelude::*;

verus! {

#[verifier::external_type_specification]
#[verifier::external_body]
#[verifier::reject_recursive_types(R)]
pub struct ExWavReader<R>(hound::WavReader<R>);

#[verifier::external_type_specification]
#[verifier::external_body]
#[verifier::reject_recursive_types(R)]
#[verifier::reject_recursive_types(S)]
pub struct ExWavIntoSamples<R, S>(hound::WavIntoSamples<R, S>);

#[verifier::external_type_specification]
#[verifier::external_body]
pub struct ExHoundError(hound::Error);

#[verifier::external_type_specification]
#[verifier::external_body]
#[verifier::reject_recursive_types(R)]
pub struct ExMp3Decoder<R>(minimp3::Decoder<R>);

/// Why an MP3 decoder gives no further frame.
#[derive(PartialEq, Eq, Structural, Clone, Copy, Debug)]
pub enum Mp3Error {
    Io,
    InsufficientData,
    SkippedData,
    Eof,
}

/// The audio of one MP3 frame.
pub struct Mp3Frame {
    pub data: Vec<i16>,
    pub channels: usize,
}

/// What `hound` reads out of the bytes of a WAV file: the number of channels, and the samples as
/// 16-bit numbers, `None` for each that cannot be read as one. `None` where it takes the bytes for
/// no WAV file.
pub uninterp spec fn wav_file(bytes: Seq<u8>) -> Option<(u16, Seq<Option<i16>>)>;

/// What a reader of a WAV file holds: the number of channels, and the samples.
pub uninterp spec fn wav_held(reader: WavReader<&[u8]>) -> (u16, Seq<Option<i16>>);

/// The samples that are still to be read.
pub uninterp spec fn wav_left(samples: WavIntoSamples<&[u8], i16>) -> Seq<Option<i16>>;

/// What `minimp3` makes of some bytes: how many samples each frame has, and how many channels, and
/// why no further frame comes. The samples themselves are left out: the decoder computes in floating
/// point, as the processor does that it is built for, and does not clear its working memory, which
/// some files make it read.
pub uninterp spec fn mp3_shape(bytes: Seq<u8>) -> (Seq<(nat, usize)>, Mp3Error);

/// The number of samples and of channels of each frame.
pub open spec fn shape_of(frames: Seq<(Seq<i16>, usize)>) -> Seq<(nat, usize)> {
    frames.map_values(|f: (Seq<i16>, usize)| (f.0.len(), f.1))
}

/// What a decoder is still to give: the samples and channels of each frame, and why no further
/// frame comes.
pub uninterp spec fn mp3_left(decoder: Decoder<&[u8]>) -> (Seq<(Seq<i16>, usize)>, Mp3Error);

/// Calls `WavReader::new`, which reads the header.
#[verifier::external_body]
pub(crate) fn wav_open(bytes: &[u8]) -> (r: Result<WavReader<&[u8]>, hound::Error>)
    ensures
        r is Ok == wav_file(bytes@) is Some,
        r matches Ok(reader) ==> wav_file(bytes@) == Some(wav_held(reader)),
{
    WavReader::new(bytes)
}

/// Calls `WavReader::spec` for the number of channels, which is never zero: such a header is
/// refused.
#[verifier::external_body]
pub(crate) fn wav_channels(reader: &WavReader<&[u8]>) -> (n: u16)
    ensures
        n == wav_held(*reader).0,
        n > 0,
{
    reader.spec().channels
}

/// Calls `WavReader::into_samples`, for 16-bit samples.
#[verifier::external_body]
pub(crate) fn wav_samples(reader: WavReader<&[u8]>) -> (samples: WavIntoSamples<&[u8], i16>)
    ensures
        wav_left(samples) == wav_held(reader).1,
{
    reader.into_samples()
}

/// Calls `next` of the iterator `WavIntoSamples`: the next sample, or an error in place of one that
/// cannot be read, or the end.
#[verifier::external_body]
pub(crate) fn wav_next(samples: &mut WavIntoSamples<&[u8], i16>) -> (r: Option<
    Result<i16, hound::Error>,
>)
    ensures
        r is None == (wav_left(*old(samples)).len() == 0),
        r matches Some(Ok(x)) ==> wav_left(*old(samples))[0] == Some(x),
        r matches Some(Err(_)) ==> wav_left(*old(samples))[0] is None,
        r is Some ==> wav_left(*final(samples)) == wav_left(*old(samples)).drop_first(),
{
    samples.next()
}

/// Calls `Decoder::new` of `minimp3`. Of what the decoder will give, the bytes fix all but the
/// samples: how many frames come, how long they are, how many channels they have, and why they end.
#[verifier::external_body]
pub(crate) fn mp3_open(bytes: &[u8]) -> (decoder: Decoder<&[u8]>)
    ensures
        (shape_of(mp3_left(decoder).0), mp3_left(decoder).1) == mp3_shape(bytes@),
{
    Decoder::new(bytes)
}

/// Calls `Decoder::next_frame` of `minimp3`: the next frame, which has one or two channels, or why
/// none comes.
#[verifier::external_body]
pub(crate) fn mp3_next(decoder: &mut Decoder<&[u8]>) -> (r: Result<Mp3Frame, Mp3Error>)
    ensures
        r is Ok == (mp3_left(*old(decoder)).0.len() > 0),
        r matches Ok(frame) ==> {
            &&& mp3_left(*old(decoder)).0[0] == (frame.data@, frame.channels)
            &&& mp3_left(*final(decoder)).0 == mp3_left(*old(decoder)).0.drop_first()
            &&& mp3_left(*final(decoder)).1 == mp3_left(*old(decoder)).1
            &&& 1 <= frame.channels <= 2
        },
        r matches Err(e) ==> e == mp3_left(*old(decoder)).1,
{
    match decoder.next_frame() {
        Ok(frame) => Ok(Mp3Frame { data: frame.data, channels: frame.channels }),
        Err(minimp3::Error::Io(_)) => Err(Mp3Error::Io),
        Err(minimp3::Error::InsufficientData) => Err(Mp3Error::InsufficientData),
        Err(minimp3::Error::SkippedData) => Err(Mp3Error::SkippedData),
        Err(minimp3::Error::Eof) => Err(Mp3Error::Eof),
    }
}

} // verus!
