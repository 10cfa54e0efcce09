use meeting_scribe::wav::{repair, repair_report, RepairError};

/// A header as it stands while a file is being written.
fn unfinished(channels: u16, rate: u32, bits: u16) -> Vec<u8> {
    let mut h = Vec::new();
    h.extend(b"RIFF");
    h.extend([0; 4]);
    h.extend(b"WAVEfmt ");
    h.extend(16u32.to_le_bytes());
    h.extend(1u16.to_le_bytes());
    h.extend(channels.to_le_bytes());
    h.extend(rate.to_le_bytes());
    h.extend((rate * channels as u32 * bits as u32 / 8).to_le_bytes());
    h.extend((channels * bits / 8).to_le_bytes());
    h.extend(bits.to_le_bytes());
    h.extend(b"data");
    h.extend([0; 4]);
    h
}

/// The start of a file with that header, as much as is looked at.
fn start(mut header: Vec<u8>, size: u64) -> Vec<u8> {
    header.resize(68.min(size as usize), 7);
    header
}

#[test]
fn the_sizes_are_filled_in() {
    let head = start(unfinished(2, 48_000, 16), 1_000);
    let size = 44 + 48_000 * 4 * 3 / 2;
    let r = match repair(&head, size) {
        Ok(r) => r,
        Err(_) => panic!("this is a WAV file"),
    };
    assert_eq!(&r.header[4..8], (size as u32 - 8).to_le_bytes());
    assert_eq!(&r.header[40..44], (size as u32 - 44).to_le_bytes());
    assert_eq!(r.header[..4], head[..4]);
    assert_eq!(r.header[8..40], head[8..40]);
    assert_eq!(r.header[44..], head[44..]);
    assert_eq!((r.channels, r.rate, r.bits, r.data_len), (2, 48_000, 16, 288_000));
    assert_eq!(
        repair_report("a.wav", &r),
        "a.wav を直した: 48000 Hz / 2ch / 16bit / 1.50 秒\n\
         \x20 !! 途中終了した録音なので `*-meta.json` が無い（または不完全）。\n\
         \x20    時刻の補正ができないため、統合すると WAV 内の時刻のまま並ぶ。\n"
    );
    let again = match repair(&r.header, size) {
        Ok(r) => r,
        Err(_) => panic!("this is a WAV file"),
    };
    assert_eq!(again.header, r.header);
}

#[test]
fn a_repaired_file_can_be_read() {
    let mut file = unfinished(1, 8_000, 16);
    for s in [1i16, -2, 3, 32767] {
        file.extend(s.to_le_bytes());
    }
    assert!(hound::WavReader::new(&file[..]).and_then(|r| r.into_samples::<i16>().collect::<Result<Vec<_>, _>>()).map(|v| v.len()).unwrap_or(0) == 0);
    let size = file.len() as u64;
    let r = match repair(&file[..52], size) {
        Ok(r) => r,
        Err(_) => panic!("this is a WAV file"),
    };
    file[..52].copy_from_slice(&r.header);
    let samples: Vec<i16> = hound::WavReader::new(&file[..]).unwrap().into_samples::<i16>().map(|s| s.unwrap()).collect();
    assert_eq!(samples, vec![1, -2, 3, 32767]);
}

#[test]
fn short_files_and_other_files_are_refused() {
    assert!(matches!(repair(&[0; 43], 43), Err(RepairError::Empty)));
    assert!(matches!(repair(&[], 0), Err(RepairError::Empty)));
    let mut head = start(unfinished(1, 8_000, 16), 100);
    head[3] = b'X';
    assert!(matches!(repair(&head, 100), Err(RepairError::NotWav)));
    let mut head = start(unfinished(1, 8_000, 16), 100);
    head[8] = b'w';
    assert!(matches!(repair(&head, 100), Err(RepairError::NotWav)));
    assert!(repair(&unfinished(1, 8_000, 16), 44).is_ok());
}

#[test]
fn sizes_beyond_32_bits_wrap() {
    let size = 0x1_0000_0000 + 50;
    let r = match repair(&start(unfinished(2, 48_000, 16), size), size) {
        Ok(r) => r,
        Err(_) => panic!("this is a WAV file"),
    };
    assert_eq!(r.data_len, 6);
    assert_eq!(&r.header[4..8], 42u32.to_le_bytes());
}

#[test]
fn a_format_without_bytes_has_no_length() {
    let r = match repair(&start(unfinished(0, 48_000, 16), 54), 54) {
        Ok(r) => r,
        Err(_) => panic!("this is a WAV file"),
    };
    assert!(repair_report("x", &r).contains("/ inf 秒"));
    let r = match repair(&unfinished(1, 0, 16), 44) {
        Ok(r) => r,
        Err(_) => panic!("this is a WAV file"),
    };
    assert!(repair_report("x", &r).contains("/ NaN 秒"));
}

/// A finished file as hound writes it, with its two sizes put back to zero.
fn cut_off(channels: u16, data_field: usize) -> (Vec<u8>, Vec<u8>) {
    let mut file = std::io::Cursor::new(Vec::new());
    let spec = hound::WavSpec {
        channels,
        sample_rate: 48_000,
        bits_per_sample: 16,
        sample_format: hound::SampleFormat::Int,
    };
    let mut w = hound::WavWriter::new(&mut file, spec).unwrap();
    for i in 0..channels as i32 * 128 {
        w.write_sample(i as i16).unwrap();
    }
    w.finalize().unwrap();
    let whole = file.into_inner();
    let mut cut = whole.clone();
    cut[4..8].fill(0);
    cut[data_field..data_field + 4].fill(0);
    (whole, cut)
}

#[test]
fn files_of_every_channel_count_are_restored() {
    for (channels, data_field) in [(1, 40), (2, 40), (4, 64), (6, 64)] {
        let (whole, mut cut) = cut_off(channels, data_field);
        assert_ne!(whole, cut);
        let size = cut.len() as u64;
        let r = match repair(&cut[..68], size) {
            Ok(r) => r,
            Err(_) => panic!("this is a WAV file"),
        };
        assert_eq!(r.channels, channels);
        assert_eq!(r.data_len as usize, channels as usize * 256);
        cut[..68].copy_from_slice(&r.header);
        assert_eq!(cut, whole);
    }
}

#[test]
fn a_long_header_that_is_cut_off_is_refused() {
    let (_, cut) = cut_off(4, 64);
    assert!(matches!(repair(&cut[..67], 67), Err(RepairError::CutOff)));
    let r = match repair(&cut[..68], 68) {
        Ok(r) => r,
        Err(_) => panic!("this is a WAV file"),
    };
    assert_eq!(r.data_len, 0);
}
