use audio_sort::audio::Audio;
use audio_sort::error::{DecodeErrorKind, DecodeStage};

/// A WAV file with 16-bit PCM samples, interleaved.
fn wav_file(channels: u16, rate: u32, samples: &[i16]) -> Vec<u8> {
    let data_len = (samples.len() * 2) as u32;
    let block_align = channels * 2;
    let mut bytes = Vec::new();
    bytes.extend_from_slice(b"RIFF");
    bytes.extend_from_slice(&(36 + data_len).to_le_bytes());
    bytes.extend_from_slice(b"WAVE");
    bytes.extend_from_slice(b"fmt ");
    bytes.extend_from_slice(&16u32.to_le_bytes());
    bytes.extend_from_slice(&1u16.to_le_bytes());
    bytes.extend_from_slice(&channels.to_le_bytes());
    bytes.extend_from_slice(&rate.to_le_bytes());
    bytes.extend_from_slice(&(rate * block_align as u32).to_le_bytes());
    bytes.extend_from_slice(&block_align.to_le_bytes());
    bytes.extend_from_slice(&16u16.to_le_bytes());
    bytes.extend_from_slice(b"data");
    bytes.extend_from_slice(&data_len.to_le_bytes());
    for sample in samples {
        bytes.extend_from_slice(&sample.to_le_bytes());
    }
    bytes
}

/// A tone that rises and falls, `frames` frames of `channels` channels.
fn tone(frames: usize, channels: usize) -> Vec<i16> {
    let mut samples = Vec::new();
    for frame in 0..frames {
        for channel in 0..channels {
            let value = ((frame * 37 + channel * 1000) % 20001) as i32 - 10000;
            samples.push(value as i16);
        }
    }
    samples
}

/// The canonical form of interleaved samples, worked out frame by frame.
fn expected_canonical(samples: &[i16], channels: usize, rate: u64) -> Vec<i16> {
    let frames = samples.len() / channels;
    let mut mono = Vec::new();
    for frame in 0..frames {
        let mut total: i64 = 0;
        for channel in 0..channels {
            total += samples[frame * channels + channel] as i64;
        }
        mono.push((total / channels as i64) as i16);
    }
    let mut out = Vec::new();
    let mut j: u64 = 0;
    while j * rate < frames as u64 * 44_100 {
        out.push(mono[(j * rate / 44_100) as usize]);
        j += 1;
    }
    out
}

#[test]
fn mono_file_at_canonical_rate_decodes_unchanged() {
    let samples: Vec<i16> = vec![0, 100, -100, 50, 32767, -32768, 7];
    let audio = Audio::from_file("take.wav".to_string(), Some(wav_file(1, 44_100, &samples)))
        .expect("a well-formed file decodes");
    assert_eq!(audio.pcm(), samples.as_slice());
    assert_eq!(audio.path(), "take.wav");
}

#[test]
fn known_good_files_decode_to_samples() {
    for (channels, rate) in [(1u16, 8_000u32), (2, 44_100), (2, 48_000), (6, 96_000), (1, 11_025)] {
        let samples = tone(500, channels as usize);
        let audio = Audio::from_file("good.wav".to_string(), Some(wav_file(channels, rate, &samples)))
            .expect("a well-formed file decodes");
        assert!(!audio.pcm().is_empty());
        assert_eq!(audio.pcm(), expected_canonical(&samples, channels as usize, rate as u64).as_slice());
    }
}

#[test]
fn stereo_file_is_mixed_down() {
    let samples: Vec<i16> = vec![100, 200, -100, -201, 32767, 32767, -32768, -32768, 5, -6];
    let audio = Audio::from_file("stereo.wav".to_string(), Some(wav_file(2, 44_100, &samples)))
        .expect("a well-formed file decodes");
    assert_eq!(audio.pcm(), &[150, -150, 32767, -32768, 0]);
}

#[test]
fn slower_file_is_stretched_to_canonical_rate() {
    let audio = Audio::from_file("slow.wav".to_string(), Some(wav_file(1, 22_050, &[10, 20, 30])))
        .expect("a well-formed file decodes");
    assert_eq!(audio.pcm(), &[10, 10, 20, 20, 30, 30]);
}

#[test]
fn faster_file_is_thinned_to_canonical_rate() {
    let audio = Audio::from_file("fast.wav".to_string(), Some(wav_file(1, 88_200, &[1, 2, 3, 4, 5])))
        .expect("a well-formed file decodes");
    assert_eq!(audio.pcm(), &[1, 3, 5]);
}

#[test]
fn long_file_is_resampled_across_packets() {
    let samples = tone(20_000, 2);
    let audio = Audio::from_file("long.wav".to_string(), Some(wav_file(2, 48_000, &samples)))
        .expect("a well-formed file decodes");
    let expected = expected_canonical(&samples, 2, 48_000);
    assert_eq!(expected.len(), 18_375);
    assert_eq!(audio.pcm(), expected.as_slice());
}

#[test]
fn unreadable_source_is_source_unreadable() {
    let error = Audio::from_file("missing/nowhere.wav".to_string(), None)
        .expect_err("nothing to decode");
    assert_eq!(error.kind, DecodeErrorKind::SourceUnreadable);
    assert_eq!(error.stage, DecodeStage::Open);
    assert_eq!(error.path, "missing/nowhere.wav");
}

#[test]
fn content_in_no_known_format_is_refused() {
    let noise: Vec<u8> = (0..4096u32).map(|i| (i * 7 % 251) as u8 | 0x80).collect();
    let error = Audio::from_file("noise.wav".to_string(), Some(noise)).expect_err("not audio");
    assert_eq!(error.kind, DecodeErrorKind::UnsupportedOrCorruptFormat);
    assert_eq!(error.stage, DecodeStage::Identify);
    assert_eq!(error.path, "noise.wav");
}

#[test]
fn empty_content_is_refused() {
    let error = Audio::from_file("empty.wav".to_string(), Some(Vec::new())).expect_err("not audio");
    assert_eq!(error.kind, DecodeErrorKind::UnsupportedOrCorruptFormat);
    assert_eq!(error.stage, DecodeStage::Identify);
}

#[test]
fn truncated_header_is_refused() {
    let mut bytes = wav_file(1, 44_100, &[1, 2, 3, 4]);
    bytes.truncate(20);
    let error = Audio::from_file("cut.wav".to_string(), Some(bytes)).expect_err("header is cut");
    assert_eq!(error.kind, DecodeErrorKind::UnsupportedOrCorruptFormat);
    assert_eq!(error.path, "cut.wav");
}

#[test]
fn decoding_twice_gives_the_same_samples() {
    let bytes = wav_file(2, 32_000, &tone(3_000, 2));
    let first = Audio::from_file("twice.wav".to_string(), Some(bytes.clone()))
        .expect("a well-formed file decodes");
    let second = Audio::from_file("twice.wav".to_string(), Some(bytes))
        .expect("a well-formed file decodes");
    assert!(!first.pcm().is_empty());
    assert_eq!(first.pcm(), second.pcm());
}

#[test]
fn decoded_file_has_its_score() {
    let audio = Audio::from_file("unit.wav".to_string(), Some(wav_file(1, 44_100, &[0, 100, -100, 50])))
        .expect("a well-formed file decodes");
    let score = audio.mean_absolute();
    assert_eq!(score.total, 250);
    assert_eq!(score.count, 4);
}

#[test]
fn report_names_stage_and_file() {
    let error = Audio::from_file("some/dir/noise.wav".to_string(), Some(vec![0x80; 64]))
        .expect_err("not audio");
    assert_eq!(error.message(), "invalid format for file: noise.wav");
    assert_eq!(error.message_for("that file"), "invalid format for file: that file");
    let missing = Audio::from_file("gone.flac".to_string(), None).expect_err("nothing to decode");
    assert_eq!(missing.message(), "failed to open file: gone.flac");
}

#[test]
fn file_without_samples_is_refused() {
    let error = Audio::from_file("hollow.wav".to_string(), Some(wav_file(1, 44_100, &[])))
        .expect_err("no samples");
    assert_eq!(error.kind, DecodeErrorKind::UnsupportedOrCorruptFormat);
    assert_eq!(error.path, "hollow.wav");
}

#[test]
fn file_cut_before_its_samples_is_refused() {
    let mut bytes = wav_file(2, 48_000, &tone(100, 2));
    bytes.truncate(44);
    let error = Audio::from_file("cut.wav".to_string(), Some(bytes)).expect_err("samples are cut");
    assert_eq!(error.kind, DecodeErrorKind::UnsupportedOrCorruptFormat);
}

#[test]
fn report_shows_a_piece_of_the_path() {
    for path in ["plain.wav", "a/b/c.flac", "music/", "x/..", "/", ""] {
        let error = Audio::from_file(path.to_string(), None).expect_err("nothing to decode");
        let text = error.message();
        let name = text.strip_prefix("failed to open file: ").expect("the words of the stage");
        assert!(path.contains(name));
    }
    let shown = |path: &str| Audio::from_file(path.to_string(), None).unwrap_err().message();
    assert_eq!(shown("plain.wav"), "failed to open file: plain.wav");
    assert_eq!(shown("a/b/c.flac"), "failed to open file: c.flac");
    assert_eq!(shown("music/"), "failed to open file: music");
    assert_eq!(shown("x/.."), "failed to open file: ");
    assert_eq!(shown("/"), "failed to open file: ");
}

#[test]
fn source_without_bytes_never_decodes() {
    let error = Audio::from_file("nothing.flac".to_string(), Some(Vec::new()))
        .expect_err("no bytes");
    assert_ne!(error.kind, DecodeErrorKind::SourceUnreadable);
    assert_eq!(error.path, "nothing.flac");
}

#[test]
fn file_that_could_not_be_read_fails_at_opening() {
    let error = Audio::from_unreadable("far/away.ogg".to_string()).expect_err("nothing to decode");
    assert_eq!(error.kind, DecodeErrorKind::SourceUnreadable);
    assert_eq!(error.stage, DecodeStage::Open);
    assert_eq!(error.path, "far/away.ogg");
    assert_eq!(error.message(), "failed to open file: away.ogg");
}
