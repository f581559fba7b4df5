use shenava_asr_server::fbank::{
    filter_cells, filterbank, frame_count, padded_frame, parse_filters, reflect_pad, to_fixed,
    FilterError, Ragged, N_FFT,
};
use shenava_asr_server::wav::{
    check_header, full_scale, read_wav_bytes, Samples, WavError, WavHeader,
};

fn spec(channels: u16, sample_rate: u32, bits: u16, format: hound::SampleFormat) -> hound::WavSpec {
    hound::WavSpec { channels, sample_rate, bits_per_sample: bits, sample_format: format }
}

fn integers(channels: u16, rate: u32, bits: u16, samples: &[i32]) -> Vec<u8> {
    let mut out = std::io::Cursor::new(Vec::new());
    let format = spec(channels, rate, bits, hound::SampleFormat::Int);
    let mut writer = hound::WavWriter::new(&mut out, format).unwrap();
    for &sample in samples {
        writer.write_sample(sample).unwrap();
    }
    writer.finalize().unwrap();
    out.into_inner()
}

#[test]
fn integer_audio_of_every_depth_is_read() {
    for (bits, samples) in [
        (8, vec![-128, 127, 0, 5]),
        (16, vec![-32768, 32767, 1, -1]),
        (24, vec![-8_388_608, 8_388_607, 0, 77]),
        (32, vec![i32::MIN, i32::MAX, 0, -9]),
    ] {
        let wav = read_wav_bytes(&integers(2, 44_100, bits, &samples)).unwrap();
        assert_eq!((wav.sample_rate, wav.channels), (44_100, 2));
        match wav.samples {
            Samples::Integers(depth, values) => {
                assert_eq!(depth, bits);
                assert_eq!(values, samples);
                let scale = i64::from(full_scale(bits));
                assert!(values.iter().all(|&v| -scale <= i64::from(v) && i64::from(v) < scale));
            }
            Samples::Floats => panic!("integers expected"),
        }
    }
}

#[test]
fn floating_point_audio_is_recognised() {
    let mut out = std::io::Cursor::new(Vec::new());
    let format = spec(1, 8000, 32, hound::SampleFormat::Float);
    let mut writer = hound::WavWriter::new(&mut out, format).unwrap();
    writer.write_sample(0.25f32).unwrap();
    writer.finalize().unwrap();
    let wav = read_wav_bytes(&out.into_inner()).unwrap();
    assert_eq!((wav.sample_rate, wav.channels), (8000, 1));
    assert!(matches!(wav.samples, Samples::Floats));
}

#[test]
fn broken_audio_is_refused() {
    assert!(matches!(read_wav_bytes(&[]), Err(WavError::Format(_))));
    assert!(matches!(read_wav_bytes(b"RIFF"), Err(WavError::Format(_))));
    let whole = integers(1, 16_000, 16, &[1, 2, 3, 4]);
    assert!(matches!(
        read_wav_bytes(&whole[..whole.len() - 2]),
        Err(WavError::Format(_))
    ));
}

#[test]
fn audio_needs_a_sample_rate() {
    let mut bytes = integers(1, 16_000, 16, &[1, 2]);
    // The samples and the bytes per second.
    bytes[24..32].fill(0);
    assert!(matches!(read_wav_bytes(&bytes), Err(WavError::ZeroRate)));
}

#[test]
fn only_known_depths_are_supported() {
    let header = |bits_per_sample, float| WavHeader {
        channels: 1,
        sample_rate: 16_000,
        bits_per_sample,
        float,
    };
    assert!(check_header(header(8, false)).is_ok());
    assert!(check_header(header(32, false)).is_ok());
    assert!(check_header(header(32, true)).is_ok());
    assert!(matches!(check_header(header(7, false)), Err(WavError::UnsupportedBits(7))));
    assert!(matches!(check_header(header(40, false)), Err(WavError::UnsupportedBits(40))));
    assert!(matches!(check_header(header(16, true)), Err(WavError::UnsupportedBits(16))));
    let still = WavHeader { sample_rate: 0, ..header(16, false) };
    assert!(matches!(check_header(still), Err(WavError::ZeroRate)));
}

#[test]
fn samples_are_scaled_by_their_depth() {
    assert_eq!(full_scale(1), 1);
    assert_eq!(full_scale(8), 128);
    assert_eq!(full_scale(16), 32_768);
    assert_eq!(full_scale(24), 8_388_608);
    assert_eq!(full_scale(32), 2_147_483_648);
}

#[test]
fn ends_are_mirrored_without_repeating_them() {
    assert_eq!(reflect_pad(&vec![1, 2, 3], 2, 0), vec![3, 2, 1, 2, 3, 2, 1]);
    assert_eq!(reflect_pad(&vec![1, 2], 0, 0), vec![1, 2]);
    assert_eq!(reflect_pad(&Vec::new(), 2, 0), vec![0; 4]);
}

#[test]
fn short_signals_are_mirrored_again() {
    assert_eq!(reflect_pad(&vec![1, 2], 2, 0), vec![1, 2, 1, 2, 1, 2]);
    assert_eq!(reflect_pad(&vec![1, 2, 3], 5, 0), vec![2, 1, 2, 3, 2, 1, 2, 3, 2, 1, 2, 3, 2]);
    assert_eq!(reflect_pad(&vec![7], 3, 0), vec![7; 7]);
    assert_eq!(reflect_pad(&vec![1, 2, 3], 3, 0), vec![2, 3, 2, 1, 2, 3, 2, 1, 2]);
}

#[test]
fn frames_begin_every_160_samples() {
    assert_eq!(frame_count(0), 1);
    assert_eq!(frame_count(159), 1);
    assert_eq!(frame_count(160), 2);
    assert_eq!(frame_count(160_000), 1001);
    let signal: Vec<u32> = (1..=700).collect();
    let frame = padded_frame(&signal, 0, 0);
    assert_eq!(frame, signal[..N_FFT]);
    let frame = padded_frame(&signal, 2, 0);
    assert_eq!(frame[..380], signal[320..]);
    assert!(frame[380..].iter().all(|&x| x == 0));
}

#[test]
fn features_are_cut_or_filled_up_to_the_window() {
    let table = |frames: usize| -> Vec<Vec<u32>> {
        (0..80).map(|m| (0..frames).map(|f| (m * 10_000 + f + 1) as u32).collect()).collect()
    };
    let short = to_fixed(&table(3), 3, 0);
    assert_eq!(short.len(), 80 * 2005);
    assert_eq!(short[..4], [1, 2, 3, 0]);
    assert_eq!(short[79 * 2005 + 2], 790_003);
    assert_eq!(short[79 * 2005 + 3], 0);
    let long = to_fixed(&table(2100), 2100, 0);
    assert_eq!(long[2004], 2005);
    assert_eq!(long[2005], 10_001);
    // Frames beyond the window need not be there, and rows beyond the bins and
    // frames beyond those announced do not count.
    assert_eq!(to_fixed(&table(2005), 9000, 0), long);
    let mut wide = table(5);
    wide.push(vec![]);
    assert_eq!(to_fixed(&wide, 3, 0), short);
}

#[test]
fn filters_may_stand_in_rows_or_columns() {
    let rows: Vec<Vec<u32>> = (0..80).map(|m| vec![m, m + 100, m + 200]).collect();
    assert_eq!(filterbank(&rows), Ok(rows.clone()));
    let columns: Vec<Vec<u32>> = (0..3).map(|j| (0..80).map(|m| m + 100 * j).collect()).collect();
    assert_eq!(filterbank(&columns), Ok(rows));
    assert_eq!(filterbank(&vec![vec![1, 2], vec![3]]), Err(Ragged));
    // Rows are laid out one behind the other, so only their total counts.
    assert_eq!(
        filterbank(&vec![vec![1, 2], vec![3], vec![4, 5, 6]]),
        Ok(vec![vec![1, 3, 5], vec![2, 4, 6]])
    );
}

#[test]
fn filter_files_hold_an_array_of_arrays() {
    let widths = |text: &str| -> Vec<usize> {
        let value = parse_filters(text).unwrap();
        filter_cells(&value).unwrap().iter().map(|row| row.len()).collect()
    };
    assert_eq!(widths("[[1, 2], [3]]"), vec![2, 1]);
    assert_eq!(widths(r#"{"filters": [[0.5], [], [1, 2]]}"#), vec![1, 0, 2]);
    let value = parse_filters("[[0.5, 2]]").unwrap();
    assert_eq!(filter_cells(&value).unwrap()[0][0].as_f64(), Some(0.5));
    assert!(matches!(parse_filters("["), Err(FilterError::Json(_))));
    let refused = |text: &str| filter_cells(&parse_filters(text).unwrap()).err();
    assert!(matches!(refused("{}"), Some(FilterError::NotArray)));
    assert!(matches!(refused(r#"{"filters": 1}"#), Some(FilterError::NotArray)));
    assert!(matches!(refused("[]"), Some(FilterError::Empty)));
    assert!(matches!(refused("[[], 1, 2]"), Some(FilterError::RowNotArray(1))));
}
