use mg30_extract::error::Error;
use mg30_extract::waves::{
    filter_by_min_duration, find_waves, parse_fmt_chunk, parse_wav_at, select_waves, wav_filename,
    waves_dir, WavFormat,
};

fn format_block(format: WavFormat) -> Vec<u8> {
    let mut out = Vec::new();
    out.extend_from_slice(&format.audio_format.to_le_bytes());
    out.extend_from_slice(&format.channels.to_le_bytes());
    out.extend_from_slice(&format.sample_rate.to_le_bytes());
    out.extend_from_slice(&format.byte_rate.to_le_bytes());
    out.extend_from_slice(&format.block_align.to_le_bytes());
    out.extend_from_slice(&format.bits_per_sample.to_le_bytes());
    out
}

fn pcm(channels: u16, sample_rate: u32, bits_per_sample: u16) -> WavFormat {
    let block_align = channels * bits_per_sample / 8;
    WavFormat {
        audio_format: 1,
        channels,
        sample_rate,
        byte_rate: sample_rate * block_align as u32,
        block_align,
        bits_per_sample,
    }
}

fn chunk(id: &[u8; 4], contents: &[u8]) -> Vec<u8> {
    let mut out = id.to_vec();
    out.extend_from_slice(&(contents.len() as u32).to_le_bytes());
    out.extend_from_slice(contents);
    if contents.len() % 2 == 1 {
        out.push(0);
    }
    out
}

fn riff(chunks: &[Vec<u8>]) -> Vec<u8> {
    let size: usize = chunks.iter().map(|c| c.len()).sum();
    let mut out = b"RIFF".to_vec();
    out.extend_from_slice(&(size as u32 + 4).to_le_bytes());
    out.extend_from_slice(b"WAVE");
    for c in chunks {
        out.extend_from_slice(c);
    }
    out
}

/// A mono sound of 16-bit samples at 8000 Hz.
fn sound(frames: usize) -> Vec<u8> {
    riff(&[chunk(b"fmt ", &format_block(pcm(1, 8000, 16))), chunk(b"data", &vec![1; frames * 2])])
}

#[test]
fn formats_are_read() {
    let f = parse_fmt_chunk(&format_block(pcm(2, 44_100, 24))).unwrap();
    assert_eq!(f, pcm(2, 44_100, 24));
    assert_eq!(f.block_align, 6);
    assert_eq!(f.byte_rate, 264_600);
    let mut long = format_block(pcm(1, 192_000, 32));
    long.extend_from_slice(&[9, 9]);
    assert_eq!(parse_fmt_chunk(&long), Ok(pcm(1, 192_000, 32)));
}

#[test]
fn other_formats_are_refused() {
    let good = pcm(2, 44_100, 16);
    let parse = |f: WavFormat| parse_fmt_chunk(&format_block(f)).unwrap_err();
    assert_eq!(parse_fmt_chunk(&format_block(good)[..15]), Err(Error::FmtChunkTooSmall));
    assert_eq!(
        parse(WavFormat { audio_format: 3, channels: 7, ..good }),
        Error::UnsupportedAudioFormat { audio_format: 3 }
    );
    assert_eq!(
        parse(WavFormat { channels: 0, sample_rate: 1, ..good }),
        Error::InvalidChannelCount { channels: 0 }
    );
    assert_eq!(parse(WavFormat { channels: 3, ..good }), Error::InvalidChannelCount { channels: 3 });
    assert_eq!(
        parse(WavFormat { sample_rate: 7_999, ..good }),
        Error::InvalidSampleRate { sample_rate: 7_999 }
    );
    assert_eq!(
        parse(WavFormat { sample_rate: 192_001, ..good }),
        Error::InvalidSampleRate { sample_rate: 192_001 }
    );
    assert_eq!(
        parse(WavFormat { bits_per_sample: 12, ..good }),
        Error::InvalidBitsPerSample { bits_per_sample: 12 }
    );
    assert_eq!(
        parse(WavFormat { block_align: 3, ..good }),
        Error::BlockAlignMismatch { block_align: 3, expected_block_align: 4 }
    );
    assert_eq!(
        parse(WavFormat { byte_rate: 1, ..good }),
        Error::ByteRateMismatch { byte_rate: 1, expected_byte_rate: 176_400 }
    );
}

#[test]
fn sounds_are_read() {
    let mut buf = vec![0; 10];
    buf.extend_from_slice(&sound(100));
    buf.extend_from_slice(&[0; 10]);
    let r = parse_wav_at(&buf, 10, 0x1000).unwrap().unwrap();
    assert_eq!(r.index, 0);
    assert_eq!(r.clean_bina_offset, 10);
    assert_eq!(r.clean_bina_offset_hex, "0x0000000a");
    assert_eq!(r.clean_abs_offset, 0x100a);
    assert_eq!(r.clean_abs_offset_hex, "0x0000100a");
    assert_eq!(r.original_abs_offset, 0x100a);
    assert_eq!(r.original_abs_offset_hex, "0x0000100a");
    assert_eq!(r.end_clean_bina_offset, 10 + 244);
    assert_eq!(r.wav_size, 244);
    assert_eq!(r.riff_size, 236);
    assert_eq!(r.fmt_chunk_offset, 22);
    assert_eq!(r.data_chunk_offset, 46);
    assert_eq!(r.data_size, 200);
    assert_eq!((r.audio_format, r.channels, r.sample_rate), (1, 1, 8000));
    assert_eq!((r.byte_rate, r.block_align, r.bits_per_sample), (16_000, 2, 16));
    assert_eq!(r.sample_frames, 100);
    assert_eq!(r.bytes(&buf), &sound(100)[..]);
    assert_eq!(r.path(13), "wav_000_clean_0000100a_orig_0000100a_8000hz_1ch_16bit_13ms.wav");
    assert!(parse_wav_at(&buf, 9, 0).unwrap().is_none());
    assert!(parse_wav_at(&buf, usize::MAX, 0).unwrap().is_none());
}

#[test]
fn other_chunks_are_passed_over() {
    let buf = riff(&[
        chunk(b"LIST", &[1, 2, 3]),
        chunk(b"data", &[1; 6]),
        chunk(b"fmt ", &format_block(pcm(2, 8000, 8))),
        chunk(b"fmt ", &format_block(pcm(1, 16_000, 16))),
        chunk(b"data", &[1; 8]),
    ]);
    let r = parse_wav_at(&buf, 0, 0).unwrap().unwrap();
    assert_eq!(r.fmt_chunk_offset, 12 + 12 + 14 + 24);
    assert_eq!(r.data_chunk_offset, 12 + 12 + 14 + 48);
    assert_eq!((r.sample_rate, r.channels, r.sample_frames), (16_000, 1, 4));
}

#[test]
fn files_that_are_no_sounds_are_passed_over() {
    let fmt = chunk(b"fmt ", &format_block(pcm(1, 8000, 16)));
    let none = |buf: Vec<u8>| parse_wav_at(&buf, 0, 0).unwrap().is_none();
    assert!(none(Vec::new()));
    assert!(none(sound(10)[..50].to_vec()));
    assert!(none(riff(&[chunk(b"data", &[1; 40])])));
    assert!(none(riff(&[fmt.clone(), chunk(b"LIST", &[0; 20])])));
    assert!(none(riff(&[fmt.clone(), chunk(b"LIST", &[0; 20]), chunk(b"data", &[])])));
    assert!(none(riff(&[fmt.clone(), chunk(b"data", &[1; 5])])));
    assert!(none(riff(&[chunk(b"fmt ", &[0; 15]), chunk(b"data", &[1; 40])])));
    assert!(none(riff(&[fmt.clone()])));
    let mut overrun = riff(&[fmt, chunk(b"data", &[1; 4])]);
    overrun[40] = 5;
    assert!(none(overrun));
    let mut other = sound(10);
    other[8] = b'X';
    assert!(none(other));
    let mut padded = sound(10);
    padded.push(0);
    assert!(!none(padded));
}

#[test]
fn refused_formats_end_the_reading() {
    let bad = riff(&[
        chunk(b"fmt ", &format_block(pcm(1, 4000, 16))),
        chunk(b"data", &[1; 8]),
    ]);
    let expected = Error::InvalidSampleRate { sample_rate: 4000 };
    assert_eq!(parse_wav_at(&bad, 0, 0).unwrap_err(), expected);
    let mut buf = sound(10);
    buf.extend_from_slice(&bad);
    assert_eq!(find_waves(&buf, 0, 0).unwrap_err(), expected);
    assert_eq!(select_waves(&buf, 0, 0, 0).unwrap_err(), expected);
}

#[test]
fn sounds_are_found_in_order_without_overlap() {
    let inner = sound(5);
    let mut outer = chunk(b"data", &inner);
    outer = riff(&[chunk(b"fmt ", &format_block(pcm(1, 8000, 16))), outer]);
    let mut buf = vec![7; 3];
    buf.extend_from_slice(b"RIFF");
    buf.extend_from_slice(&outer);
    buf.extend_from_slice(&sound(4));
    buf.push(1);
    buf.extend_from_slice(&sound(6));
    let found = find_waves(&buf, 0x20, 0).unwrap();
    let offsets: Vec<usize> = found.iter().map(|r| r.clean_bina_offset).collect();
    assert_eq!(offsets, vec![7, 7 + outer.len(), 7 + outer.len() + 53]);
    for (i, r) in found.iter().enumerate() {
        assert_eq!(r.index, i);
        assert_eq!(r.clean_abs_offset, r.clean_bina_offset + 0x20);
    }
    let later = find_waves(&buf, 0x20, 8).unwrap();
    assert_eq!(later[0].clean_bina_offset, 7 + 44);
    assert_eq!(later[0].index, 0);
    assert_eq!(later.len(), 3);
    assert!(find_waves(&buf, 0, usize::MAX).unwrap().is_empty());
}

#[test]
fn short_sounds_are_left_out() {
    let mut buf = Vec::new();
    for frames in [8, 80, 79, 800, 81] {
        buf.extend_from_slice(&sound(frames));
    }
    let frames = |ms: u64| -> Vec<(usize, usize)> {
        let found = find_waves(&buf, 0, 0).unwrap();
        filter_by_min_duration(found, ms).iter().map(|r| (r.index, r.sample_frames)).collect()
    };
    assert_eq!(frames(0).len(), 5);
    assert_eq!(frames(1).len(), 5);
    assert_eq!(frames(10), vec![(0, 80), (1, 800), (2, 81)]);
    assert_eq!(frames(11), vec![(0, 800)]);
    assert_eq!(frames(u64::MAX), Vec::new());
    let twice = filter_by_min_duration(
        filter_by_min_duration(find_waves(&buf, 0, 0).unwrap(), 10),
        5,
    );
    assert_eq!(twice.iter().map(|r| r.sample_frames).collect::<Vec<usize>>(), vec![80, 800, 81]);
    let selected = select_waves(&buf, 0, 0, 10).unwrap();
    assert_eq!(selected.len(), 3);
    assert_eq!(selected[2].clean_bina_offset_hex, twice[2].clean_bina_offset_hex);
}

#[test]
fn durations_are_compared_as_fractions_are() {
    for rate in [8_000u32, 11_025, 44_100, 96_000, 192_000] {
        for frames in [1usize, 7, 11, 44, 441, 1_000] {
            let buf = riff(&[
                chunk(b"fmt ", &format_block(pcm(1, rate, 8))),
                chunk(b"data", &vec![0; frames]),
                chunk(b"LIST", &[0; 8]),
            ]);
            for ms in [0u64, 1, 2, 5, 10, 40, 125] {
                let kept = select_waves(&buf, 0, 0, ms).unwrap().len();
                let long = frames as f64 / rate as f64 >= ms as f64 / 1000.0;
                assert_eq!(kept == 1, long);
            }
        }
    }
}

#[test]
fn sounds_are_named_after_their_places() {
    assert_eq!(waves_dir(), "waves");
    assert_eq!(
        wav_filename(12, 0xabc, 0x1_0000_0000, 44_100, 2, 24, 1501),
        "wav_012_clean_00000abc_orig_100000000_44100hz_2ch_24bit_1501ms.wav"
    );
    assert_eq!(
        wav_filename(1234, 0, 0, 8000, 1, 8, 0),
        "wav_1234_clean_00000000_orig_00000000_8000hz_1ch_8bit_0ms.wav"
    );
    assert_ne!(wav_filename(1, 0, 0, 8000, 1, 8, 0), wav_filename(2, 0, 0, 8000, 1, 8, 0));
}
