use meeting_scribe::args::{parse_count, Command, MergeRequest, SummaryRequest};
use meeting_scribe::summary::{
    plan, summary_file, summary_in, summary_of, written_text, Plan, INSTRUCTIONS,
};

fn args(words: &[&str]) -> Vec<String> {
    words.iter().map(|w| w.to_string()).collect()
}

#[test]
fn counts_are_those_that_std_reads() {
    for s in ["30", "+30", "0", "007", "18446744073709551615", "18446744073709551616", "", "+", "-1", "3s", "3.0", "99999999999999999999999", "٣", "+ 1"] {
        assert_eq!(parse_count(s), s.parse::<u64>().ok(), "{s:?}");
    }
}

#[test]
fn recording_is_asked_for() {
    match Command::read(&args(&["--loopback=Realtek", "30", "--mic=Logi", "--mic=x"])) {
        Command::Record { secs, mic, loopback } => {
            assert_eq!(secs, Some(30));
            assert_eq!(mic, Some("Logi".to_string()));
            assert_eq!(loopback, Some("Realtek".to_string()));
        }
        _ => panic!("a recording is asked for"),
    }
    match Command::read(&args(&["soon", "30"])) {
        Command::Record { secs, mic, loopback } => {
            assert_eq!(secs, None);
            assert_eq!(mic, None);
            assert_eq!(loopback, None);
        }
        _ => panic!("a recording is asked for"),
    }
    assert!(matches!(Command::read(&[]), Command::Record { secs: None, .. }));
}

#[test]
fn listing_and_repairing_are_asked_for() {
    assert!(matches!(Command::read(&args(&["--repair", "a.wav", "--list"])), Command::List));
    match Command::read(&args(&["30", "--repair", "a.wav"])) {
        Command::Repair(path) => assert_eq!(path, "a.wav"),
        _ => panic!("a repair is asked for"),
    }
    assert!(matches!(Command::read(&args(&["--repair"])), Command::RepairNothing));
}

#[test]
fn merging_is_asked_for() {
    match MergeRequest::read(&args(&["--debug", "dual-1", "dual-2"])) {
        Some(m) => {
            assert_eq!(m.stem, "dual-1");
            assert!(m.debug);
        }
        None => panic!("a recording is named"),
    }
    assert!(MergeRequest::read(&args(&["dual-1"])).map(|m| m.debug) == Some(false));
    assert!(MergeRequest::read(&args(&["--debug"])).is_none());
}

fn summary_args(words: &[&str]) -> Option<(String, bool, Option<String>)> {
    SummaryRequest::read(&args(words)).map(|r| (r.stem, r.dry_run, r.model))
}

#[test]
fn summarising_is_asked_for() {
    let s = |t: &str| t.to_string();
    assert_eq!(summary_args(&["dual-1"]), Some((s("dual-1"), false, None)));
    assert_eq!(summary_args(&["dual-1", "--dry-run"]), Some((s("dual-1"), true, None)));
    assert_eq!(summary_args(&["dual-1", "--model=large"]), Some((s("dual-1"), false, Some(s("large")))));
    assert_eq!(summary_args(&["dual-1", "--model", "large"]), Some((s("dual-1"), false, Some(s("large")))));
    assert_eq!(summary_args(&["--model", "large", "dual-1"]), Some((s("dual-1"), false, Some(s("large")))));
    assert_eq!(summary_args(&["dual-1", "--model", "--dry-run"]), Some((s("dual-1"), true, None)));
    assert_eq!(summary_args(&["dual-1", "--model"]), Some((s("dual-1"), false, None)));
    assert_eq!(summary_args(&["--model", "large"]), None);
    assert_eq!(summary_args(&[]), None);
}

#[test]
fn an_empty_transcript_is_not_sent() {
    assert!(matches!(plan("t", " \n\u{3000}\t", "r", false, &None), Plan::Empty));
    assert!(matches!(plan("t", "", "r", true, &None), Plan::Empty));
}

#[test]
fn sending_is_announced() {
    let head = "入力  : t.txt（2 行 / 6 文字）\n送信先: somebody\n        \
                **会議の中身がここで外に出る。**録音と文字起こしはローカルで完結している。\n";
    match plan("t.txt", "一二\n三四\n", "somebody", false, &None) {
        Plan::Send { told, arguments } => {
            assert_eq!(told, head);
            assert_eq!(arguments, vec!["-p", INSTRUCTIONS]);
        }
        _ => panic!("it should be sent"),
    }
    match plan("t.txt", "一二\n三四\n", "somebody", false, &Some("large".to_string())) {
        Plan::Send { told, arguments } => {
            assert_eq!(told, format!("{head}モデル: large\n"));
            assert_eq!(arguments, vec!["-p", INSTRUCTIONS, "--model", "large"]);
        }
        _ => panic!("it should be sent"),
    }
}

#[test]
fn a_dry_run_shows_and_sends_nothing() {
    let transcript: String = (1..=17).map(|i| format!("line {i}\r\n")).collect();
    match plan("t", &transcript, "r", true, &None) {
        Plan::Show(told) => {
            let tail: String = (1..=15).map(|i| format!("line {i}\n")).collect();
            assert!(told.ends_with(&format!(
                "\n--- 指示 ---\n{INSTRUCTIONS}\n--- 入力の冒頭 ---\n{tail}…（残り 2 行）\n\n--dry-run のため送信しなかった。\n"
            )));
        }
        _ => panic!("nothing should be sent"),
    }
    let transcript: String = (1..=15).map(|i| format!("line {i}\n")).collect();
    match plan("t", &transcript, "r", true, &None) {
        Plan::Show(told) => {
            assert!(told.ends_with(&format!("{transcript}\n--dry-run のため送信しなかった。\n")));
            assert!(!told.contains("残り"));
        }
        _ => panic!("nothing should be sent"),
    }
}

#[test]
fn the_instructions_keep_their_layout() {
    assert!(INSTRUCTIONS.starts_with("あなたは打ち合わせの書記です。標準入力に会議のトランスクリプトが渡されます。\n\nトランスクリプトの性質:\n- "));
    assert!(INSTRUCTIONS.contains("誤変換されていることがあります。\n  文脈から明らかな"));
    assert!(INSTRUCTIONS.contains("\n\n【決まったこと】\n・（決定事項。時刻を添える）\n\n"));
    assert!(INSTRUCTIONS.ends_with("無ければ「なし」）\n"));
    assert_eq!(INSTRUCTIONS.lines().count(), 41);
}

#[test]
fn a_reply_is_trimmed_and_must_not_be_empty() {
    assert_eq!(summary_in("\n【一言サマリ】\n…\n\n"), Some("【一言サマリ】\n…".to_string()));
    assert_eq!(summary_in(" \n"), None);
    assert_eq!(summary_of("  決定。\n".as_bytes()), Some("決定。".to_string()));
    assert_eq!(summary_of(b" a\xff\xfeb "), Some("a\u{fffd}\u{fffd}b".to_string()));
    assert_eq!(summary_of(b""), None);
    assert_eq!(summary_file("決定。"), "決定。\n");
    assert_eq!(written_text("d.txt", "決定。"), "\nd.txt を書いた（3 文字）\n\n決定。\n");
}
