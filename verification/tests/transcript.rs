use meeting_scribe::merge::{closing_text, gather, merge, notice, MergeError, Source};
use meeting_scribe::track::{Seg, SegmentError, MetaError, Speaker, Track};
use meeting_scribe::transcript::{arrange, hhmmss, render, talk_line, talk_time};

const S: i128 = 1_000_000_000;

fn seg(start: i128, end: i128, speaker: Speaker, text: &str) -> Seg {
    Seg { start, end, speaker, text: text.to_string(), wav_start: 0 }
}

#[test]
fn clock_times() {
    assert_eq!(hhmmss(0), "00:00.0");
    assert_eq!(hhmmss(-5 * S), "00:00.0");
    assert_eq!(hhmmss(153 * S), "02:33.0");
    assert_eq!(hhmmss(3912 * S + 400_000_000), "1:05:12.4");
    assert_eq!(hhmmss(3600 * S), "1:00:00.0");
    assert_eq!(hhmmss(360_000 * S), "100:00:00.0");
    // Seconds are rounded by themselves.
    assert_eq!(hhmmss(59 * S + 960_000_000), "00:60.0");
    assert_eq!(hhmmss(9 * S + 940_000_000), "00:09.9");
    assert_eq!(hhmmss(50_000_000), "00:00.0");
}

#[test]
fn what_starts_together_has_the_other_side_first() {
    let r = arrange(vec![
        seg(5 * S, 6 * S, Speaker::Me, "a"),
        seg(5 * S, 6 * S, Speaker::Other, "b"),
        seg(1 * S, 2 * S, Speaker::Me, "c"),
        seg(5 * S, 7 * S, Speaker::Other, "d"),
        seg(5 * S, 7 * S, Speaker::Me, "e"),
    ]);
    let order: Vec<&str> = r.iter().map(|s| s.text.as_str()).collect();
    assert_eq!(order, vec!["c", "b", "d", "a", "e"]);
}

fn lines_of(segs: &[Seg]) -> Vec<String> {
    let text = render("x", &[], segs, false);
    text.lines().skip(4).map(|l| l.to_string()).collect()
}

#[test]
fn short_pauses_of_one_speaker_are_joined() {
    let segs = vec![
        seg(0, S, Speaker::Me, "一"),
        seg(3 * S, 4 * S, Speaker::Me, "二"),
        seg(6 * S + 1, 7 * S, Speaker::Me, "三"),
        seg(7 * S, 8 * S, Speaker::Other, "四"),
        seg(8 * S, 9 * S, Speaker::Me, "五"),
    ];
    assert_eq!(
        lines_of(&segs),
        vec!["[00:00.0] 自分: 一 二", "[00:06.0] 自分: 三", "[00:07.0] 相手: 四", "[00:08.0] 自分: 五"]
    );
}

#[test]
fn the_pause_is_counted_from_the_last_segment() {
    let segs = vec![
        seg(0, 10 * S, Speaker::Me, "一"),
        seg(S, 2 * S, Speaker::Me, "二"),
        seg(4 * S, 5 * S, Speaker::Me, "三"),
        seg(8 * S, 9 * S, Speaker::Me, "四"),
    ];
    assert_eq!(lines_of(&segs), vec!["[00:00.0] 自分: 一 二 三", "[00:08.0] 自分: 四"]);
}

#[test]
fn every_segment_stands_in_one_line() {
    let segs: Vec<Seg> = (0..50)
        .map(|i| {
            let speaker = if i % 5 == 0 { Speaker::Other } else { Speaker::Me };
            seg(i * i * S / 9, i * i * S / 9 + S, speaker, &format!("w{i}"))
        })
        .collect();
    let words: Vec<String> = lines_of(&segs)
        .iter()
        .flat_map(|l| l.split(": ").nth(1).unwrap().split(' ').map(|w| w.to_string()).collect::<Vec<_>>())
        .collect();
    let want: Vec<String> = (0..50).map(|i| format!("w{i}")).collect();
    assert_eq!(words, want);
}

#[test]
fn talk_is_added_up() {
    let segs = vec![
        seg(0, 60 * S, Speaker::Me, "a"),
        seg(60 * S, 90 * S, Speaker::Other, "b"),
        seg(90 * S, 120 * S, Speaker::Me, "c"),
    ];
    assert_eq!(talk_time(&segs, Speaker::Me), Some(90 * S));
    assert_eq!(talk_line(&segs, Speaker::Me), Some("  自分: 発話 1.5 分\n".to_string()));
    assert_eq!(talk_line(&segs, Speaker::Other), Some("  相手: 発話 0.5 分\n".to_string()));
    assert_eq!(talk_line(&segs[1..2], Speaker::Me), Some(String::new()));
    assert_eq!(
        closing_text("m-transcript.txt", &segs),
        Some("m-transcript.txt を書いた（3 セグメント）\n  相手: 発話 0.5 分\n  自分: 発話 1.5 分\n".to_string())
    );
    let long = vec![seg(i128::MIN, i128::MAX, Speaker::Me, "x")];
    assert_eq!(talk_time(&long, Speaker::Me), None);
    assert_eq!(closing_text("x", &long), None);
}

const META_SELF: &str = "{\"sample_rate\": 48000, \"device\": \"マイク\", \"drops_sec_len\": [[0.25, 0.25]]}";
const META_OTHER: &str =
    "{\"sample_rate\": 96000, \"device\": \"スピーカー\", \"drops_sec_len\": [[0.2, 0.2], [10.5, 9.6]]}";
const SPEECH_SELF: &str = "{\"transcription\": [
    {\"offsets\": {\"from\": 10000, \"to\": 10200}, \"text\": \"お願いします\"},
    {\"offsets\": {\"from\": 10250, \"to\": 11000}, \"text\": \"はい\"}]}";
const SPEECH_OTHER: &str = "{\"transcription\": [
    {\"offsets\": {\"from\": 700, \"to\": 1000}, \"text\": \"始めます\"}]}";

fn source(speaker: Speaker, meta: Option<&str>, speech: Option<&str>) -> Source {
    Source { speaker, meta: meta.map(|s| s.to_string()), speech: speech.map(|s| s.to_string()) }
}

#[test]
fn two_tracks_make_one_transcript() {
    let sources = [
        source(Speaker::Me, Some(META_SELF), Some(SPEECH_SELF)),
        source(Speaker::Other, Some(META_OTHER), Some(SPEECH_OTHER)),
    ];
    let head = "会議トランスクリプト\n録音: dual-1\n\
                自分: マイク / 48000 Hz / 時刻補正 +0.25秒（空白 1 箇所）\n\
                相手: スピーカー / 96000 Hz / 時刻補正 +9.80秒（空白 2 箇所）\n\
                時刻は録音開始からの実時刻。WAV 内の時刻ではない（ADR-004）。\n\n";
    match merge("dual-1", &sources, false) {
        Ok(m) => {
            assert_eq!(
                m.text,
                format!("{head}[00:10.2] 自分: お願いします\n[00:10.5] 相手: 始めます\n[00:10.5] 自分: はい\n")
            );
            assert_eq!(m.segs.len(), 3);
            assert_eq!(m.tracks.len(), 2);
        }
        Err(_) => panic!("both tracks are complete"),
    }
    match merge("dual-1", &sources, true) {
        Ok(m) => assert_eq!(
            m.text,
            format!(
                "{head}[00:10.2] 自分: お願いします\n        （WAV内 00:10.0 / 補正 +0.25秒）\n\
                 [00:10.5] 相手: 始めます\n        （WAV内 00:00.7 / 補正 +9.80秒）\n\
                 [00:10.5] 自分: はい\n        （WAV内 00:10.2 / 補正 +0.25秒）\n"
            )
        ),
        Err(_) => panic!("both tracks are complete"),
    }
}

#[test]
fn incomplete_tracks_are_left_out() {
    let sources = [
        source(Speaker::Me, None, Some("not even JSON")),
        source(Speaker::Other, Some(META_OTHER), Some(SPEECH_OTHER)),
    ];
    match gather(&sources) {
        Ok((tracks, segs)) => {
            assert_eq!(tracks.len(), 1);
            assert_eq!(tracks[0].speaker, Speaker::Other);
            assert_eq!(segs.len(), 1);
        }
        Err(_) => panic!("one track is complete"),
    }
    assert_eq!(
        notice(&sources[0], "m", "s"),
        Some("  !! m が無い。この系統は飛ばす。\n".to_string())
    );
    assert_eq!(notice(&sources[1], "m", "s"), None);
    let sources = [source(Speaker::Me, Some(META_SELF), None)];
    assert!(matches!(gather(&sources), Err(MergeError::NoTrack)));
    assert_eq!(
        notice(&sources[0], "m", "s"),
        Some("  !! s が無い。whisper-cli -oj を通してから実行する。\n".to_string())
    );
    assert!(matches!(merge("x", &[], false), Err(MergeError::NoTrack)));
}

#[test]
fn the_first_broken_file_is_told() {
    let good = || source(Speaker::Me, Some(META_SELF), Some(SPEECH_SELF));
    let r = merge("x", &[good(), source(Speaker::Other, Some("{}"), None)], false);
    assert!(matches!(r, Err(MergeError::Meta(1, MetaError::NoSampleRate))));
    let r = merge("x", &[source(Speaker::Me, Some("{"), None), good()], false);
    assert!(matches!(r, Err(MergeError::Meta(0, MetaError::NotJson(_)))));
    let r = merge("x", &[good(), source(Speaker::Other, Some(META_OTHER), Some("{}"))], false);
    assert!(matches!(r, Err(MergeError::Speech(1, SegmentError::NoTranscription))));
}

#[test]
fn a_header_line_per_track() {
    let t = Track {
        speaker: Speaker::Me,
        device: "d".to_string(),
        rate: 8000,
        steps: vec![],
        total_lag: -1_250_000_000,
    };
    assert_eq!(
        render("s", &[t], &[], false),
        "会議トランスクリプト\n録音: s\n自分: d / 8000 Hz / 時刻補正 +-1.25秒（空白 0 箇所）\n\
         時刻は録音開始からの実時刻。WAV 内の時刻ではない（ADR-004）。\n\n"
    );
}

#[test]
fn printed_times_are_read_back() {
    for t in (0..400_000 * S).step_by(7_777_777_777_777).chain([0, 50_000_000, 59_960_000_000, 3_599_990_000_000]) {
        let text = if t >= 3_600 * S { hhmmss(t) } else { format!("0:{}", hhmmss(t)) };
        let back = meeting_scribe::track::parse_timestamp(&text).unwrap() as i128;
        assert!((back - t).abs() <= 50_000_000, "{t} {text} {back}");
    }
}
