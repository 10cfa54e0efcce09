use meeting_scribe::track::{parse_timestamp, MetaError, SegmentError, Speaker, Track};

const S: i64 = 1_000_000_000;

fn track(meta: &str) -> Track {
    match Track::from_meta(meta, Speaker::Other) {
        Ok(t) => t,
        Err(_) => panic!("the metadata should be readable"),
    }
}

#[test]
fn a_track_is_read_from_its_metadata() {
    let t = track(
        "{\"sample_rate\": 96000, \"device\": \"スピーカー\", \"drops_sec_len\": [[0.200, 0.200], [10.500, 9.600]]}",
    );
    assert_eq!(t.rate, 96_000);
    assert_eq!(t.device, "スピーカー");
    assert_eq!(t.speaker, Speaker::Other);
    assert_eq!(t.steps, vec![(0, 200_000_000), (700_000_000, 9_800_000_000)]);
    assert_eq!(t.total_lag, 9_800_000_000);
    assert_eq!(t.to_real(700_000_000), 10_500_000_000);
}

#[test]
fn missing_metadata_has_its_defaults() {
    let t = track("{\"sample_rate\": 48000}");
    assert_eq!(t.device, "(不明)");
    assert!(t.steps.is_empty());
    assert_eq!(t.total_lag, 0);
    let t = track("{\"sample_rate\": 1, \"device\": 5, \"drops_sec_len\": [[\"x\"], 7, [1.5, 1]]}");
    assert_eq!(t.device, "(不明)");
    // Whatever is no number counts as zero.
    assert_eq!(t.steps, vec![(0, 0), (0, 0), (500_000_000, 1_000_000_000)]);
}

#[test]
fn metadata_that_cannot_be_used_is_refused() {
    assert!(matches!(Track::from_meta("nonsense", Speaker::Me), Err(MetaError::NotJson(_))));
    for meta in ["{}", "[]", "{\"sample_rate\": \"48000\"}", "{\"sample_rate\": 48000.0}", "{\"sample_rate\": -1}"] {
        assert!(matches!(Track::from_meta(meta, Speaker::Me), Err(MetaError::NoSampleRate)), "{meta}");
    }
}

#[test]
fn errors_name_their_file() {
    let no_json = MetaError::NotJson("EOF".to_string());
    assert_eq!(no_json.text("a.json"), "a.json が JSON として読めない");
    assert_eq!(MetaError::NoSampleRate.text("a.json"), "a.json: sample_rate が無い");
    let no_json = SegmentError::NotJson("EOF".to_string());
    assert_eq!(no_json.text("b"), "b が JSON として読めない");
    assert_eq!(
        SegmentError::NoTranscription.text("b"),
        "b: transcription が無い。whisper-cli -oj の出力か確認する"
    );
    assert_eq!(SegmentError::NoTimes.text("b"), "b: セグメントに offsets も timestamps も無い");
}

#[test]
fn time_stamps_with_comma_or_point() {
    assert_eq!(parse_timestamp("00:01:07,860"), Some(67 * S + 860_000_000));
    assert_eq!(parse_timestamp("00:01:07.860"), Some(67 * S + 860_000_000));
    assert_eq!(parse_timestamp("1:00:00"), Some(3600 * S));
    assert_eq!(parse_timestamp("1.5:0:0"), Some(5400 * S));
    assert_eq!(parse_timestamp("-1:0:0"), Some(-3600 * S));
    for s in ["", "01:07", "0:0:0:0", "a:b:c", "00:01:", "::", "0: 1:0", "infin:0:0"] {
        assert_eq!(parse_timestamp(s), None, "{s:?}");
    }
}

#[test]
fn segments_are_moved_to_real_time() {
    let t = track("{\"sample_rate\": 48000, \"drops_sec_len\": [[0.2, 0.2], [10.5, 9.6]]}");
    let speech = "{\"transcription\": [
        {\"offsets\": {\"from\": 0, \"to\": 690}, \"text\": \" はい。\"},
        {\"offsets\": {\"from\": 700, \"to\": 1500.5}, \"text\": \"次です \"},
        {\"offsets\": {\"from\": 1600, \"to\": 1700}, \"text\": \" \\u3000\"},
        {\"timestamps\": {\"from\": \"00:00:07,000\", \"to\": \"00:00:08,000\"}, \"text\": \"予備\"}
    ]}";
    let segs = match t.segments(speech) {
        Ok(s) => s,
        Err(_) => panic!("the segments should be readable"),
    };
    assert_eq!(segs.len(), 3);
    let all: Vec<(i128, i128, i64, &str)> =
        segs.iter().map(|s| (s.start, s.end, s.wav_start, s.text.as_str())).collect();
    assert_eq!(
        all,
        vec![
            (200_000_000, 890_000_000, 0, "はい。"),
            (10_500_000_000, 11_300_500_000, 700_000_000, "次です"),
            (16_800_000_000, 17_800_000_000, 7_000_000_000, "予備"),
        ]
    );
    assert!(segs.iter().all(|s| s.speaker == Speaker::Other));
}

#[test]
fn segments_that_cannot_be_used_are_refused() {
    let t = track("{\"sample_rate\": 48000}");
    assert!(matches!(t.segments("{"), Err(SegmentError::NotJson(_))));
    assert!(matches!(t.segments("{}"), Err(SegmentError::NoTranscription)));
    assert!(matches!(t.segments("{\"transcription\": 1}"), Err(SegmentError::NoTranscription)));
    for item in [
        "{}",
        "{\"text\": \"\"}",
        "{\"offsets\": {\"from\": 0}, \"text\": \"x\"}",
        "{\"timestamps\": {\"from\": \"0:0:0\", \"to\": 5}}",
    ] {
        let speech = format!("{{\"transcription\": [{item}]}}");
        assert!(matches!(t.segments(&speech), Err(SegmentError::NoTimes)), "{item}");
    }
    match t.segments("{\"transcription\": []}") {
        Ok(s) => assert!(s.is_empty()),
        Err(_) => panic!("an empty list is in order"),
    }
}

#[test]
fn time_stamps_take_what_floats_take() {
    assert_eq!(parse_timestamp("inf:0:0"), Some(i64::MAX));
    assert_eq!(parse_timestamp("0:-Infinity:5"), Some(i64::MIN));
    assert_eq!(parse_timestamp("1e400:0:0"), Some(i64::MAX));
    assert_eq!(parse_timestamp("-1e30:0:+INF"), Some(i64::MAX));
    assert_eq!(parse_timestamp("inf:-inf:0"), Some(0));
    assert_eq!(parse_timestamp("1:NaN:0"), Some(0));
    for s in ["inf:0:0", "nan:1:2", "1:2:infinity", "i:0:0", "inf:0", "1:2:3", "1,5:2:3", "a:0:0", "0:in:0"] {
        let dotted = s.replace(',', ".");
        let parts: Vec<&str> = dotted.split(':').collect();
        let floats = parts.len() == 3 && parts.iter().all(|p| p.parse::<f64>().is_ok());
        assert_eq!(parse_timestamp(s).is_some(), floats, "{s:?}");
    }
}

#[test]
fn time_stamps_are_added_up_exactly_and_rounded_once() {
    // A ten-billionth of an hour is 360 nanoseconds.
    assert_eq!(parse_timestamp("0.0000000001:00:00"), Some(360));
    assert_eq!(parse_timestamp("0:0.0000000001:0"), Some(6));
    assert_eq!(parse_timestamp("0.0000000000001:0.00000000000001:0.0000000002"), Some(1));
    // Large parts that cancel each other.
    assert_eq!(parse_timestamp("10000000000:-600000000000:0"), Some(0));
    assert_eq!(parse_timestamp("1e300:-60e300:7.5"), Some(7_500_000_000));
    assert_eq!(parse_timestamp("-1e25:60e25:-7.5"), Some(-7_500_000_000));
    // Halves go away from zero, and everything behind them counts.
    assert_eq!(parse_timestamp("0:0:0.0000000005"), Some(1));
    assert_eq!(parse_timestamp("0:0:-0.0000000005"), Some(-1));
    assert_eq!(parse_timestamp("0:-1e-300:0.0000000005"), Some(0));
    assert_eq!(parse_timestamp("0:1e-300:-0.0000000005"), Some(0));
    assert_eq!(parse_timestamp("0:-1e-300:-0.0000000005"), Some(-1));
    assert_eq!(parse_timestamp("0:1:-0.0000000005"), Some(60 * S));
    assert_eq!(parse_timestamp("0:-1:0.0000000005"), Some(-60 * S));
    assert_eq!(parse_timestamp("0:1:-0.0000000006"), Some(60 * S - 1));
    // The ends of the range.
    assert_eq!(parse_timestamp("0:0:9223372036.854775807"), Some(i64::MAX));
    assert_eq!(parse_timestamp("0:0:9223372036.8547758074"), Some(i64::MAX));
    assert_eq!(parse_timestamp("0:0:-9223372036.854775808"), Some(i64::MIN));
    assert_eq!(parse_timestamp("9999999:00:00"), Some(i64::MAX));
    assert_eq!(parse_timestamp("-9999999:00:00"), Some(i64::MIN));
    // Beyond what a float holds.
    assert_eq!(parse_timestamp("1e400:-1e400:5"), Some(0));
    assert_eq!(parse_timestamp("1e-400:1e-999999999999999999999999:5"), Some(5 * S));
    assert_eq!(parse_timestamp("1e999999999999999999999999999:0:0"), Some(i64::MAX));
    assert_eq!(parse_timestamp("0e999999999999999999999999999:000.5:0"), Some(30 * S));
}

#[test]
fn time_stamps_agree_with_floats() {
    for h in ["0", "1.5", "-2", "0.000001", "03"] {
        for m in ["0", "59", "0.25", "-7.125"] {
            for s in ["0", "7.86", "59.999", "-0.001", "1e2"] {
                let want = h.parse::<f64>().unwrap() * 3600.0
                    + m.parse::<f64>().unwrap() * 60.0
                    + s.parse::<f64>().unwrap();
                let got = parse_timestamp(&format!("{h}:{m}:{s}")).unwrap();
                assert!((got as f64 / 1e9 - want).abs() < 1e-9, "{h}:{m}:{s} {got} {want}");
            }
        }
    }
}
