use meeting_scribe::devices::{
    list, missed_text, nothing_text, pick, Choice, Device, Settings,
};
use meeting_scribe::meta::{meta_json, meta_path, Session};
use meeting_scribe::names::{
    meta_name, recording_name, speech_name, summary_name, transcript_name, wav_name,
};
use meeting_scribe::recorder::{Gap, Recorder};
use meeting_scribe::report::{gap_total, report};
use meeting_scribe::stream::{
    keeps_going, loss_text, opening_text, tick_line, Arrivals, Opening,
};
use meeting_scribe::track::{Speaker, Track};

const MS: u64 = 1_000_000;

fn finished() -> Recorder {
    let mut r = Recorder::new(48_000, 4, true);
    r.frames_written = 48_000 * 60;
    r.downmixed = true;
    r.channels_out = 1;
    r.created = true;
    r.peak = 0.5f32.to_bits();
    r.drops = vec![
        Gap { at: 200 * MS, len: 200 * MS as i128 * 48_000 },
        Gap { at: 10_500 * MS, len: 9_600 * MS as i128 * 48_000 },
    ];
    r
}

fn session() -> Session {
    Session {
        speaker: Speaker::Me,
        device: "マイク \"内蔵\"\\配列".to_string(),
        path: "dual-7-self.wav".to_string(),
        loopback: false,
        buffer_frames: 48_000,
        wall: 70_000 * MS,
        underruns: vec![1_500 * MS, 2_250 * MS],
        first_data: Some(200 * MS),
        timeline: vec![(1_000 * MS, 38_400), (2_000 * MS, 86_400)],
        peak_dbfs: "-6.0".to_string(),
        rms_dbfs: "-21.3".to_string(),
    }
}

#[test]
fn metadata_is_written_as_json() {
    assert_eq!(
        meta_json(&finished(), &session()),
        "{\n  \"label\": \"自分\",\n  \"device\": \"マイク \\\"内蔵\\\"\\\\配列\",\n  \"wav\": \"dual-7-self.wav\",\n  \
         \"sample_rate\": 48000,\n  \"channels_device\": 4,\n  \"channels_written\": 1,\n  \
         \"buffer_frames_requested\": 48000,\n  \"downmixed\": true,\n  \"downmix_violations\": 0,\n  \
         \"frames_written\": 2880000,\n  \"captured_sec\": 60.000,\n  \"wall_elapsed_sec\": 70.000,\n  \
         \"gap_sec\": 10.000,\n  \"first_data_sec\": 0.200,\n  \"peak_dbfs\": -6.0,\n  \"rms_dbfs\": -21.3,\n  \
         \"underrun_sec\": [1.500, 2.250],\n  \"drops_sec_len\": [[0.200, 0.200], [10.500, 9.600]],\n  \
         \"timeline_sec_frames\": [[1.000, 38400], [2.000, 86400]]\n}\n"
    );
}

#[test]
fn metadata_without_data_has_empty_lists() {
    let mut r = Recorder::new(96_000, 2, false);
    r.close();
    let s = Session {
        speaker: Speaker::Other,
        device: String::new(),
        path: String::new(),
        loopback: true,
        buffer_frames: 0,
        wall: 0,
        underruns: vec![],
        first_data: None,
        timeline: vec![],
        peak_dbfs: "-120.0".to_string(),
        rms_dbfs: "-120.0".to_string(),
    };
    let m = meta_json(&r, &s);
    assert!(m.contains("\"first_data_sec\": null,"));
    assert!(m.contains("\"underrun_sec\": [],\n  \"drops_sec_len\": [],\n  \"timeline_sec_frames\": []\n}\n"));
    assert!(m.contains("\"downmixed\": false"));
    assert!(m.contains("\"gap_sec\": 0.000"));
}

#[test]
fn metadata_is_read_back() {
    let m = meta_json(&finished(), &session());
    match Track::from_meta(&m, Speaker::Me) {
        Ok(t) => {
            assert_eq!(t.rate, 48_000);
            assert_eq!(t.device, session().device);
            assert_eq!(t.steps, vec![(0, 200_000_000), (700_000_000, 9_800_000_000)]);
            assert_eq!(t.total_lag, 9_800_000_000);
        }
        Err(_) => panic!("the metadata should be readable"),
    }
}

#[test]
fn gaps_are_read_back_to_the_millisecond() {
    let mut r = finished();
    // 1.2345 s and 1.2355 s: halves go to the even neighbour.
    r.drops = vec![
        Gap { at: 1_234_500_000, len: 1_234_500_000 * 48_000 },
        Gap { at: 4_235_500_000, len: 1_235_500_000 * 48_000 },
    ];
    match Track::from_meta(&meta_json(&r, &session()), Speaker::Me) {
        Ok(t) => {
            assert_eq!(t.steps, vec![(0, 1_234_000_000), (1_766_000_000, 2_470_000_000)]);
        }
        Err(_) => panic!("the metadata should be readable"),
    }
}

#[test]
fn metadata_goes_beside_the_sound() {
    assert_eq!(meta_path("dual-7-self.wav"), "dual-7-self-meta.json");
    assert_eq!(meta_path("x.WAV"), "x.WAV-meta.json");
    assert_eq!(meta_path(".wav"), "-meta.json");
    assert_eq!(meta_path("wav"), "wav-meta.json");
    for speaker in [Speaker::Me, Speaker::Other] {
        assert_eq!(meta_path(&wav_name("dual-7", speaker)), meta_name("dual-7", speaker));
    }
}

#[test]
fn names_of_files() {
    assert_eq!(recording_name(1788502024), "dual-1788502024");
    assert_eq!(wav_name("dual-1", Speaker::Me), "dual-1-self.wav");
    assert_eq!(wav_name("dual-1", Speaker::Other), "dual-1-other.wav");
    assert_eq!(meta_name("dual-1", Speaker::Other), "dual-1-other-meta.json");
    assert_eq!(speech_name("dual-1", Speaker::Me), "dual-1-self.wav.json");
    assert_eq!(transcript_name("dual-1"), "dual-1-transcript.txt");
    assert_eq!(summary_name("dual-1"), "dual-1-summary.txt");
}

#[test]
fn a_microphone_is_reported() {
    let r = finished();
    let total = gap_total(&r.drops).unwrap();
    assert_eq!(total, 9_800 * MS as i128 * 48_000);
    assert_eq!(
        report(&r, &session(), total),
        "\n  [自分] マイク \"内蔵\"\\配列\n    実経過      : 70.00 秒\n    録れた長さ  : 60.00 秒 (2880000 フレーム)\n    \
         ズレ        : +10.00 秒   ← 起動遅延 0.20秒 + underrun 2 回ぶんの欠損か（1回あたり 4900.0 ms）\n    \
         最初のデータ: 開始から 0.20 秒後\n    音量        : ピーク -6.0 dBFS / RMS -21.3 dBFS\n    \
         ダウンミックス: 4ch → 1ch（判定した区間で全chが同一だったため）\n    \
         無通信区間  : 2 回 / 合計 9.80 秒   ← ここを時刻で埋める（ADR-004）\n                     \
         0.20秒 で 0.20 秒ぶん\n                    10.50秒 で 9.60 秒ぶん\n    \
         underrun    : 2 回（1.5秒〜2.2秒）\n    出力        : dual-7-self.wav\n"
    );
}

#[test]
fn what_the_computer_played_is_reported() {
    let mut r = finished();
    r.downmixed = false;
    r.peak = 0;
    r.drops = (0..10).map(|i| Gap { at: i * 1_000 * MS, len: 500 * MS as i128 * 48_000 }).collect();
    let mut s = session();
    s.speaker = Speaker::Other;
    s.loopback = true;
    s.first_data = None;
    s.underruns = vec![3_000 * MS];
    let text = report(&r, &s, gap_total(&r.drops).unwrap());
    assert!(text.starts_with("\n  [相手] "));
    assert!(text.contains("+10.00 秒   ← 再生されていた時間ぶんしか来ていない。統合は時刻ベースで（ADR-004）\n"));
    assert!(text.contains("    最初のデータ: 一度も来なかった   ← このデバイスでは録れていない\n"));
    assert!(text.contains("dBFS   ← ほぼ無音。デバイス選択と Windows の録音音量を疑う\n"));
    assert!(!text.contains("ダウンミックス"));
    assert!(text.contains("10 回 / 合計 5.00 秒"));
    assert_eq!(text.matches("秒ぶん\n").count(), 8);
    assert!(text.contains("                  …他 2 件（meta.json に全件）\n"));
    assert!(text.contains("    underrun    : 1 回（3.0秒）\n"));
}

#[test]
fn small_differences_are_not_explained() {
    let mut r = finished();
    r.downmix_violations = 3;
    r.drops = vec![];
    let mut s = session();
    s.underruns = vec![];
    s.wall = 60_500 * MS;
    let text = report(&r, &s, 0);
    assert!(text.contains("    ズレ        : +0.50 秒\n"));
    assert!(!text.contains("無通信区間"));
    assert!(text.contains("    underrun    : 0 回\n"));
    assert!(text.contains(
        "    ダウンミックス: 4ch → 1ch   !! 3 フレームが同一でなかった（全 2880000 中）\n                    \
         判定した区間だけで決めており、前提が崩れている\n"
    ));
    s.wall = 59_499 * MS;
    assert!(report(&r, &s, 0).contains("    ズレ        : -0.50 秒   ← 起動遅延 0.20秒 + underrun 0 回ぶんの欠損か（1回あたり 0.0 ms）\n"));
}

#[test]
fn a_total_beyond_128_bits_is_none() {
    let g = |len| Gap { at: 0, len };
    assert_eq!(gap_total(&[g(i128::MAX), g(1)]), None);
    assert_eq!(gap_total(&[g(i128::MAX), g(-1), g(1)]), Some(i128::MAX));
    assert_eq!(gap_total(&[]), Some(0));
}

#[test]
fn a_stream_falls_back_to_the_default_buffer() {
    let start = Opening::start(48_000);
    assert_eq!(start, Opening::Long(48_000));
    assert_eq!(start.after(true), Opening::Open(48_000));
    assert_eq!(start.after(false), Opening::Default);
    assert_eq!(start.after(false).after(true), Opening::Open(0));
    assert_eq!(start.after(false).after(false), Opening::Failed);
    assert_eq!(start.after(true).after(false), Opening::Open(48_000));
}

#[test]
fn arrivals_are_counted() {
    let mut a = Arrivals::new(4);
    assert!(!a.delivered(1, 0));
    assert_eq!(a.first_data, None);
    assert!(a.delivered(5, 9));
    assert!(a.delivered(6, 4));
    assert_eq!(a.frames, 3);
    assert_eq!(a.first_data, Some(5));
    assert!(a.lost(7));
    assert!(!a.lost(8));
    assert_eq!(a.underruns, vec![7, 8]);
    assert_eq!(a.tick(10), 3);
    assert_eq!(a.timeline, vec![(10, 3)]);
    let mut b = Arrivals::new(0);
    assert!(b.delivered(1, 5));
    assert_eq!(b.frames, 5);
}

#[test]
fn lines_of_a_running_recording() {
    assert_eq!(tick_line(1_040 * MS, Some(48_000), 96_000), "      1.0秒  自分      48000  相手      96000\n");
    assert_eq!(tick_line(70_060 * MS, None, 0), "     70.1秒  自分          -  相手          0\n");
    assert_eq!(loss_text(Speaker::Me, 1_500 * MS, "xrun"), "  !! [自分] 録音エラー (1.50秒): xrun\n");
    assert_eq!(
        opening_text(Speaker::Other, "Realtek", 96_000, 2, "F32", "a.wav"),
        "  [相手] Realtek\n          96000 Hz / 2 ch / F32 → a.wav\n"
    );
}

#[test]
fn a_recording_goes_on_until_stopped_or_over() {
    assert!(keeps_going(true, None, u64::MAX));
    assert!(!keeps_going(false, None, 0));
    assert!(keeps_going(true, Some(30), 29));
    assert!(!keeps_going(true, Some(30), 30));
    assert!(!keeps_going(true, Some(0), 0));
}

fn names() -> Vec<String> {
    vec!["スピーカー (Realtek)".to_string(), "Logi A".to_string(), "Logi B".to_string()]
}

#[test]
fn devices_are_picked_by_a_part_of_their_name() {
    assert_eq!(pick(&names(), Some("Logi"), true), Choice::Candidate(1));
    assert_eq!(pick(&names(), Some("Logi"), false), Choice::Candidate(1));
    assert_eq!(pick(&names(), Some(""), true), Choice::Candidate(0));
    assert_eq!(pick(&names(), Some("logi"), true), Choice::Default { missed: true });
    assert_eq!(pick(&names(), Some("logi"), false), Choice::Nothing { missed: true });
    assert_eq!(pick(&names(), None, true), Choice::Default { missed: false });
    assert_eq!(pick(&[], None, false), Choice::Nothing { missed: false });
    assert_eq!(missed_text("logi", "入力デバイス"), "  !! 'logi' に一致する入力デバイスが無い。既定を使う。\n");
    assert_eq!(nothing_text("出力デバイス"), "出力デバイスが見つからない");
}

#[test]
fn devices_are_listed_with_the_default_marked() {
    let devices = [
        Device {
            name: "A".to_string(),
            settings: Settings::Known { rate: 48_000, channels: 2, format: "F32".to_string() },
        },
        Device { name: "B".to_string(), settings: Settings::Unknown("busy".to_string()) },
    ];
    assert_eq!(
        list(&devices, Some(&"B".to_string())),
        "  A\n      48000 Hz / 2 ch / F32\n  B  ← 既定\n      設定を取得できない: busy\n"
    );
    assert_eq!(list(&devices[..1], None), "  A\n      48000 Hz / 2 ch / F32\n");
}
