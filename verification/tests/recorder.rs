use meeting_scribe::recorder::{Action, Chunk, Recorder};

const MS: u64 = 1_000_000;

fn bits(samples: &[f32]) -> Vec<u32> {
    samples.iter().map(|s| s.to_bits()).collect()
}

/// `frames` frames of `channels` equal samples.
fn mono(frames: usize, channels: usize, value: f32) -> Vec<u32> {
    vec![value.to_bits(); frames * channels]
}

fn feed(r: &mut Recorder, at: u64, samples: Vec<u32>) -> Action {
    assert!(r.has_room(samples.len()));
    r.receive(Chunk { samples, at })
}

fn is_wait(a: &Action) -> bool {
    matches!(a, Action::Wait)
}

#[test]
fn a_microphone_with_equal_channels_is_dropped_to_one() {
    // 100 frames per second: two seconds are 200 frames, a fifth of a second is 20.
    let mut r = Recorder::for_track(100, 4, false);
    assert!(is_wait(&feed(&mut r, 1000 * MS, mono(100, 4, 0.5))));
    match feed(&mut r, 2000 * MS, mono(100, 4, 0.25)) {
        Action::Create { channels, samples } => {
            assert_eq!(channels, 1);
            assert_eq!(samples.len(), 200);
            assert_eq!(samples[0], 0.5f32.to_bits());
            assert_eq!(samples[199], 0.25f32.to_bits());
        }
        _ => panic!("the file should be created"),
    }
    assert!(r.downmixed);
    assert_eq!(r.channels_out, 1);
    assert_eq!(r.frames_written, 200);
    assert_eq!(r.peak, 0.5f32.to_bits());
    match feed(&mut r, 2010 * MS, bits(&[0.1, 0.1, 0.1, 0.1, 0.2, 0.2, 0.2, 0.3])) {
        Action::Write { samples } => assert_eq!(samples, bits(&[0.1, 0.2])),
        _ => panic!("the samples should be written"),
    }
    assert_eq!(r.downmix_violations, 1);
    match r.close() {
        Action::Write { samples } => assert!(samples.is_empty()),
        _ => panic!("the file exists"),
    }
}

#[test]
fn what_the_computer_plays_keeps_its_channels() {
    let mut r = Recorder::for_track(100, 2, true);
    assert!(is_wait(&feed(&mut r, 0, mono(199, 2, 0.5))));
    match feed(&mut r, 0, mono(1, 2, 0.5)) {
        Action::Create { channels, samples } => {
            assert_eq!(channels, 2);
            assert_eq!(samples.len(), 400);
        }
        _ => panic!("the file should be created"),
    }
    assert!(!r.downmixed);
    assert_eq!(r.channels_out, 2);
    assert_eq!(r.downmix_violations, 0);
}

#[test]
fn one_frame_that_differs_keeps_the_channels() {
    let mut r = Recorder::new(100, 2, true);
    let mut samples = mono(200, 2, 0.5);
    samples[101] = 0.25f32.to_bits();
    match feed(&mut r, 0, samples) {
        Action::Create { channels, .. } => assert_eq!(channels, 2),
        _ => panic!("the file should be created"),
    }
}

#[test]
fn silence_that_differs_does_not_count() {
    let mut r = Recorder::new(100, 2, true);
    let mut samples = mono(200, 2, 0.5);
    samples[100] = 0.00005f32.to_bits();
    samples[101] = 0.00001f32.to_bits();
    match feed(&mut r, 0, samples) {
        Action::Create { channels, .. } => assert_eq!(channels, 1),
        _ => panic!("the file should be created"),
    }
    assert_eq!(r.downmix_violations, 1);
}

#[test]
fn too_little_sound_waits_for_five_seconds_and_keeps_the_channels() {
    let mut r = Recorder::new(100, 2, true);
    assert!(is_wait(&feed(&mut r, 0, mono(480, 2, 0.0))));
    assert!(is_wait(&feed(&mut r, 0, mono(19, 2, 0.5))));
    match feed(&mut r, 0, mono(1, 2, 0.0)) {
        Action::Create { channels, samples } => {
            assert_eq!(channels, 2);
            assert_eq!(samples.len(), 1000);
        }
        _ => panic!("the file should be created"),
    }
}

#[test]
fn sound_that_comes_late_decides_as_soon_as_there_is_enough() {
    let mut r = Recorder::new(100, 2, true);
    assert!(is_wait(&feed(&mut r, 0, mono(300, 2, 0.0))));
    match feed(&mut r, 0, mono(20, 2, 0.5)) {
        Action::Create { channels, .. } => assert_eq!(channels, 1),
        _ => panic!("the file should be created"),
    }
}

#[test]
fn a_recording_without_data_leaves_an_empty_file() {
    let mut r = Recorder::new(48_000, 2, true);
    assert!(is_wait(&feed(&mut r, 5, vec![])));
    assert_eq!(r.last_lag, None);
    match r.close() {
        Action::Create { channels, samples } => {
            assert_eq!(channels, 2);
            assert!(samples.is_empty());
        }
        _ => panic!("the file should be created"),
    }
    assert_eq!(r.drops.len(), 0);
}

#[test]
fn an_early_end_writes_what_was_held_back() {
    let mut r = Recorder::new(100, 2, true);
    assert!(is_wait(&feed(&mut r, 0, mono(30, 2, 0.5))));
    match r.close() {
        Action::Create { channels, samples } => {
            // Thirty frames of sound are enough to tell, though two seconds have not passed.
            assert_eq!(channels, 1);
            assert_eq!(samples.len(), 30);
        }
        _ => panic!("the file should be created"),
    }
}

#[test]
fn a_device_without_channels_is_read_sample_by_sample() {
    let mut r = Recorder::new(10, 0, true);
    match feed(&mut r, 0, mono(20, 1, 0.5)) {
        Action::Create { channels, samples } => {
            assert_eq!(channels, 0);
            assert_eq!(samples.len(), 20);
        }
        _ => panic!("the file should be created"),
    }
}

#[test]
fn an_incomplete_frame_is_not_written() {
    let mut r = Recorder::new(1, 2, false);
    match feed(&mut r, 0, mono(5, 2, 0.5)) {
        Action::Create { .. } => {}
        _ => panic!("the file should be created"),
    }
    match feed(&mut r, 0, bits(&[0.1, 0.2, 0.3])) {
        Action::Write { samples } => assert_eq!(samples, bits(&[0.1, 0.2])),
        _ => panic!("the samples should be written"),
    }
    assert_eq!(r.frames_written, 6);
}

#[test]
fn gaps_are_noted_in_time_and_length() {
    let mut r = Recorder::new(1000, 1, false);
    // The start: 200 ms until the first sound.
    feed(&mut r, 200 * MS, mono(5000, 1, 0.5));
    assert!(r.created);
    assert_eq!(r.drops.len(), 1);
    assert_eq!(r.drops[0].at, 200 * MS);
    assert_eq!(r.drops[0].len, 200 * MS as i128 * 1000);
    // Five seconds were written; arrival at 5.2 seconds plus 50 ms is still in time.
    feed(&mut r, 5250 * MS, mono(100, 1, 0.5));
    assert_eq!(r.drops.len(), 1);
    // A rise of the lag by exactly a fifth of a second is no gap, one more nanosecond is.
    feed(&mut r, 5350 * MS + 200 * MS, mono(100, 1, 0.5));
    assert_eq!(r.drops.len(), 1);
    feed(&mut r, 5650 * MS + 200 * MS + 1, mono(100, 1, 0.5));
    assert_eq!(r.drops.len(), 2);
    assert_eq!(r.drops[1].at, 5850 * MS + 1);
    assert_eq!(r.drops[1].len, (200 * MS as i128 + 1) * 1000);
}

#[test]
fn a_first_chunk_at_the_start_is_no_gap() {
    let mut r = Recorder::new(1000, 1, false);
    feed(&mut r, 0, mono(1, 1, 0.5));
    assert_eq!(r.drops.len(), 0);
    assert_eq!(r.last_lag, Some(0));
}

#[test]
fn everything_that_comes_in_is_written() {
    let mut r = Recorder::new(50, 2, true);
    let mut fed: Vec<u32> = Vec::new();
    let mut out: Vec<u32> = Vec::new();
    for k in 0..40u32 {
        let samples: Vec<u32> = (0..2 * (k % 7)).map(|i| ((i * 37 + k) as f32 / 900.0).to_bits()).collect();
        fed.extend(&samples);
        match feed(&mut r, k as u64 * 20 * MS, samples) {
            Action::Wait => {}
            Action::Create { samples, .. } | Action::Write { samples } => out.extend(samples),
        }
    }
    match r.close() {
        Action::Wait => panic!("the end always says what to do"),
        Action::Create { samples, .. } | Action::Write { samples } => out.extend(samples),
    }
    assert_eq!(out, fed);
    assert_eq!(r.frames_written as usize, fed.len() / 2);
}

#[test]
fn a_clean_downmix_stands_for_all_channels() {
    let mut r = Recorder::new(10, 2, true);
    let fed: Vec<u32> = (0..40).flat_map(|i| [(i as f32 / 50.0).to_bits(); 2]).collect();
    match feed(&mut r, 0, fed.clone()) {
        Action::Create { channels, samples } => {
            assert_eq!(channels, 1);
            for i in 0..40 {
                assert_eq!(samples[i], fed[2 * i]);
                assert_eq!(samples[i], fed[2 * i + 1]);
            }
        }
        _ => panic!("the file should be created"),
    }
    assert_eq!(r.downmix_violations, 0);
}

#[test]
fn sound_that_is_held_back_counts_as_arrived() {
    // Three half seconds in a row: only the late start is a gap.
    let mut r = Recorder::new(8, 1, false);
    for at in [500, 1_000, 1_500] {
        assert!(is_wait(&feed(&mut r, at * MS, mono(4, 1, 0.5))));
        assert_eq!(r.last_lag, Some(500 * MS as i128 * 8));
    }
    assert_eq!(r.drops.len(), 1);
    assert_eq!((r.drops[0].at, r.drops[0].len), (500 * MS, 500 * MS as i128 * 8));
    r.close();
    assert_eq!(r.drops.len(), 1);
    assert_eq!(r.frames_written, 12);
}

#[test]
fn a_gap_right_after_the_file_is_created_is_noted() {
    // Ten frames in time, a second and a half without packets, one frame more.
    let mut r = Recorder::new(5, 1, false);
    for k in 0..10u64 {
        feed(&mut r, k * 200 * MS, mono(1, 1, 0.5));
    }
    assert!(r.created);
    assert_eq!(r.drops.len(), 0);
    feed(&mut r, 3_500 * MS, mono(1, 1, 0.5));
    assert_eq!(r.drops.len(), 1);
    assert_eq!((r.drops[0].at, r.drops[0].len), (3_500 * MS, 1_500 * MS as i128 * 5));
}

#[test]
fn gaps_before_the_file_exists_are_as_long_as_they_are() {
    let mut r = Recorder::new(1_000, 1, false);
    feed(&mut r, 200 * MS, mono(500, 1, 0.5));
    feed(&mut r, 700 * MS, mono(200, 1, 0.5));
    feed(&mut r, 10_500 * MS, mono(100, 1, 0.5));
    assert!(!r.created);
    let gaps: Vec<(u64, i128)> = r.drops.iter().map(|g| (g.at, g.len)).collect();
    assert_eq!(gaps, vec![(200 * MS, 200 * MS as i128 * 1_000), (10_500 * MS, 9_600 * MS as i128 * 1_000)]);
}

#[test]
fn the_end_of_every_gap_comes_back_at_its_arrival() {
    // Chunks of ten milliseconds with gaps before, during and after the start of the file.
    let mut r = Recorder::new(48_000, 2, true);
    let mut at = 137 * MS + 400_000;
    let mut frames = 0u64;
    let mut ends: Vec<(u64, u64)> = Vec::new();
    for k in 0..1_000u64 {
        if k == 0 || k % 90 == 50 {
            at += if k == 0 { 0 } else { 1_234 * MS + 567_000 };
            ends.push((frames, at));
        }
        feed(&mut r, at, mono(480, 2, 0.25));
        frames += 480;
        at += 10 * MS;
    }
    r.close();
    assert_eq!(r.drops.len(), ends.len());
    let s = meeting_scribe::meta::Session {
        speaker: meeting_scribe::track::Speaker::Me,
        device: "d".to_string(),
        path: "p".to_string(),
        loopback: false,
        buffer_frames: 0,
        wall: at,
        underruns: vec![],
        first_data: None,
        timeline: vec![],
        peak_dbfs: "-12.0".to_string(),
        rms_dbfs: "-12.0".to_string(),
    };
    let text = meeting_scribe::meta::meta_json(&r, &s);
    let t = match meeting_scribe::track::Track::from_meta(&text, meeting_scribe::track::Speaker::Me) {
        Ok(t) => t,
        Err(_) => panic!("the metadata should be readable"),
    };
    for (i, (before, arrival)) in ends.iter().enumerate() {
        let file_time = before * 1_000_000_000 / 48_000;
        // The rounding may put the step a little behind the chunk.
        let behind = (i as u64 + 2) * 500_000;
        let back = t.to_real((file_time + behind) as i64) - behind as i128;
        assert!((back - *arrival as i128).abs() <= behind as i128, "gap {i}: {back} {arrival}");
    }
}

#[test]
fn rows_of_samples_are_quantised() {
    assert_eq!(
        meeting_scribe::recording::quantise_all(&bits(&[0.0, 1.0, -1.0, 0.5, 3.0])),
        vec![0, 32767, -32767, 16383, 32767]
    );
}

#[test]
fn frames_counted_on_arrival_are_written() {
    let mut a = meeting_scribe::stream::Arrivals::new(2);
    let mut r = Recorder::for_track(100, 2, true);
    for k in 0..300u64 {
        let samples = mono((k % 5) as usize, 2, 0.5);
        if a.delivered(k * 20 * MS, samples.len()) {
            feed(&mut r, k * 20 * MS, samples);
        }
    }
    r.close();
    assert_eq!(a.frames, r.frames_written);
    assert_eq!(a.frames, 600);
    assert_eq!(a.first_data, Some(20 * MS));
}

#[test]
fn the_cut_into_chunks_does_not_matter() {
    let all: Vec<u32> = (0..4_000).map(|i| (i as f32 / 5_000.0).to_bits()).collect();
    let mut outs = Vec::new();
    for size in [2usize, 6, 400, 4_000] {
        let mut r = Recorder::for_track(100, 2, true);
        let mut out: Vec<u32> = Vec::new();
        for part in all.chunks(size) {
            match feed(&mut r, 0, part.to_vec()) {
                Action::Wait => {}
                Action::Create { samples, .. } | Action::Write { samples } => out.extend(samples),
            }
        }
        match r.close() {
            Action::Wait => panic!("the end always says what to do"),
            Action::Create { samples, .. } | Action::Write { samples } => out.extend(samples),
        }
        assert_eq!(r.peak, *all.last().unwrap());
        outs.push(out);
    }
    assert!(outs.iter().all(|o| *o == all));
}
