use hound::{SampleFormat, WavSpec, WavWriter};
use multisync::backing::{
    decode, decode_mp3, decode_rest, join_frames, join_samples, lay_metronome, read_raw, Backing,
    DecodeFault, Mp3Fault,
};
use multisync::media::{Mp3Error, Mp3Frame};
use multisync::message::Message;
use std::io::Cursor;

fn wav(channels: u16, bits_per_sample: u16, samples: &[i32]) -> Vec<u8> {
    let spec = WavSpec {
        channels,
        sample_rate: 48000,
        bits_per_sample,
        sample_format: SampleFormat::Int,
    };
    let mut bytes = Vec::new();
    let mut writer = WavWriter::new(Cursor::new(&mut bytes), spec).unwrap();
    for s in samples {
        writer.write_sample(*s).unwrap();
    }
    writer.finalize().unwrap();
    bytes
}

/// An MP3 frame of silence: 128 kbit/s at 44100 samples per second.
fn mp3_frame(mode: u8) -> Vec<u8> {
    let mut frame = vec![0xff, 0xfb, 0x90, mode];
    frame.resize(417, 0);
    frame
}

const STEREO: u8 = 0x00;
const MONO: u8 = 0xc0;

#[test]
fn a_wav_file_is_decoded() {
    let bytes = wav(2, 16, &[1, -2, 32767, -32768]);
    assert_eq!(decode(&bytes), Ok(Some((vec![1, -2, 32767, -32768], 2))));
    let bytes = wav(1, 8, &[-128, 0, 127]);
    assert_eq!(decode(&bytes), Ok(Some((vec![-128, 0, 127], 1))));
    assert_eq!(decode(&wav(1, 16, &[])), Ok(Some((vec![], 1))));
}

#[test]
fn a_wav_file_with_wide_samples_is_a_fault() {
    assert_eq!(decode(&wav(1, 24, &[1, 2])), Err(DecodeFault::BadSample));
}

#[test]
fn a_wav_file_that_is_cut_off_is_a_fault() {
    let mut bytes = wav(1, 16, &[1, 2, 3]);
    bytes.pop();
    assert_eq!(decode(&bytes), Err(DecodeFault::BadSample));
}

#[test]
fn an_empty_file_is_silence() {
    assert_eq!(decode(&[]), Ok(Some((vec![], 1))));
}

#[test]
fn bytes_that_are_no_audio_hold_no_frame() {
    assert_eq!(decode(b"this is no audio file"), Ok(Some((vec![], 1))));
    assert_eq!(decode_mp3(b"this is no audio file"), Ok((vec![], 1)));
}

#[test]
fn an_mp3_file_is_decoded() {
    let bytes = [mp3_frame(STEREO), mp3_frame(STEREO), mp3_frame(STEREO)].concat();
    assert_eq!(decode_mp3(&bytes), Ok((vec![0; 3 * 2 * 1152], 2)));
    assert_eq!(decode(&bytes), Ok(Some((vec![0; 3 * 2 * 1152], 2))));
    let bytes = [mp3_frame(MONO), mp3_frame(MONO)].concat();
    assert_eq!(decode(&bytes), Ok(Some((vec![0; 2 * 1152], 1))));
}

#[test]
fn an_mp3_file_keeps_to_its_channels() {
    let bytes = [mp3_frame(STEREO), mp3_frame(MONO), mp3_frame(MONO)].concat();
    assert_eq!(decode_mp3(&bytes), Err(Mp3Fault::ChannelsDiffer));
    assert_eq!(decode(&bytes), Err(DecodeFault::ChannelsDiffer));
}

#[test]
fn the_rest_of_an_mp3_file_is_decoded() {
    let bytes = [mp3_frame(STEREO), mp3_frame(MONO), mp3_frame(MONO)].concat();
    let mut decoder = minimp3::Decoder::new(&bytes[..]);
    assert_eq!(decoder.next_frame().unwrap().channels, 2);
    assert_eq!(decode_rest(decoder), Ok((vec![0; 2 * 1152], 1)));
}

fn frame(data: &[i16], channels: usize) -> Mp3Frame {
    Mp3Frame { data: data.to_vec(), channels }
}

#[test]
fn frames_are_joined() {
    let frames = vec![frame(&[1, 2], 2), frame(&[3, 4], 2)];
    assert_eq!(join_frames(frames, Mp3Error::Eof), Ok((vec![1, 2, 3, 4], 2)));
    assert_eq!(join_frames(vec![], Mp3Error::Eof), Ok((vec![], 1)));
}

#[test]
fn frames_that_end_in_an_error_are_none() {
    for e in [Mp3Error::Io, Mp3Error::InsufficientData, Mp3Error::SkippedData] {
        assert_eq!(join_frames(vec![frame(&[1], 1)], e), Err(Mp3Fault::Decoder(e)));
    }
    let frames = vec![frame(&[1, 2], 2), frame(&[3], 1)];
    assert_eq!(join_frames(frames, Mp3Error::Io), Err(Mp3Fault::ChannelsDiffer));
}

#[test]
fn samples_are_joined() {
    assert_eq!(join_samples(2, &vec![Some(1), Some(-1)]), Ok((vec![1, -1], 2)));
    assert_eq!(join_samples(2, &vec![Some(1), None]), Err(DecodeFault::BadSample));
}

#[test]
fn raw_samples_have_their_lower_byte_first() {
    assert_eq!(read_raw(&vec![1, 0, 0, 1, 255, 255, 0, 128]), vec![1, 256, -1, -32768]);
}

#[test]
fn a_metronome_is_laid_out() {
    let track = lay_metronome(&vec![0, 4, 6, 9], 2, &vec![1, 2, 3], &vec![7]);
    assert_eq!(track, vec![1, 2, 3, 0, 7, 0, 1, 2, 3, 7]);
}

#[test]
fn a_beat_cuts_the_sound_before_it() {
    let track = lay_metronome(&vec![0, 2], 1, &vec![1, 2, 3, 4], &vec![]);
    assert_eq!(track, vec![1, 2, 1, 2, 3, 4]);
}

#[test]
fn a_beat_is_heard_where_it_stands() {
    let track = lay_metronome(&vec![3, 10, 20], 3, &vec![5, 6], &vec![8, 9]);
    assert_eq!(&track[3..5], &[5, 6]);
    assert_eq!(&track[10..12], &[8, 9]);
    assert_eq!(&track[20..22], &[8, 9]);
    assert_eq!(track.len(), 22);
}

#[test]
fn a_backing_track_is_decoded() {
    let none = vec![];
    let file = Backing::File(wav(2, 16, &[4, 5]));
    assert!(file.can_decode(&vec![], &none, &none));
    assert_eq!(file.decode(&vec![], &none, &none), Ok((vec![4, 5], 2)));
    let metronome = Backing::Metronome("60".to_string(), 4);
    let (beats, up, tick) = (vec![0, 3], vec![1, 0], vec![2, 0, 3, 0]);
    assert!(metronome.can_decode(&beats, &up, &tick));
    assert_eq!(metronome.decode(&beats, &up, &tick), Ok((vec![1, 0, 0, 2, 3], 1)));
}

#[test]
fn not_every_metronome_can_be_laid_out() {
    let none = vec![];
    let beats = vec![0, 3];
    assert!(!Backing::Metronome("60".to_string(), 0).can_decode(&beats, &none, &none));
    let metronome = Backing::Metronome("60".to_string(), 4);
    assert!(!metronome.can_decode(&beats, &vec![1], &none));
    assert!(!metronome.can_decode(&beats, &none, &vec![1]));
    assert!(!metronome.can_decode(&vec![0, usize::MAX], &none, &none));
    assert!(metronome.can_decode(&beats, &none, &none));
}

#[test]
fn users_are_told_of_the_backing_track() {
    let file = Backing::File(vec![9, 8]);
    assert_eq!(
        file.news_messages(),
        vec![Message::Text("bck:".to_string()), Message::Binary(vec![9, 8])]
    );
    assert_eq!(file.welcome_message(), Message::Binary(vec![9, 8]));
    let metronome = Backing::Metronome("92.5".to_string(), 3);
    assert_eq!(metronome.news_messages(), vec![Message::Text("met:92.5:3".to_string())]);
    assert_eq!(metronome.welcome_message(), Message::Text("met:92.5:3".to_string()));
}
