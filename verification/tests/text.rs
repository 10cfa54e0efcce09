use meeting_scribe::text::{
    after, chars_of, contains, copy_range, decimal_text, find, lines, pad_left, replace, split,
    string_of, trim,
};

#[test]
fn decimal_notation_of_whole_numbers() {
    for n in [0u128, 7, 10, 99, 100, 12345678901234567890, u128::MAX] {
        assert_eq!(decimal_text(n), n.to_string());
    }
}

#[test]
fn padding_counts_characters() {
    assert_eq!(pad_left("7", 3, '0'), "007");
    assert_eq!(pad_left("秒", 3, ' '), "  秒");
    assert_eq!(pad_left("1234", 3, '0'), "1234");
}

#[test]
fn white_space_is_trimmed_as_std_does() {
    for x in 0..=0x3100u32 {
        if let Some(c) = char::from_u32(x) {
            let s = format!("{c}a{c}b{c}");
            assert_eq!(trim(&s), s.trim(), "U+{x:04X}");
        }
    }
    assert_eq!(trim("  \u{3000} "), "");
    assert_eq!(trim(" そうですね。\n"), "そうですね。");
}

#[test]
fn lines_are_those_of_std() {
    for s in [
        "", "\n", "a", "a\n", "a\nb", "a\r\nb\r\n", "a\r", "\r\n", "a\r\r\nb", "\n\n", "あ\nい\r",
        "x\n\ny\n",
    ] {
        let want: Vec<String> = s.lines().map(|l| l.to_string()).collect();
        assert_eq!(lines(s), want, "{s:?}");
    }
}

#[test]
fn parts_are_found_as_std_finds_them() {
    for (s, p) in [
        ("Realtek(R) Audio", "Realtek"),
        ("Realtek(R) Audio", "Audio"),
        ("Realtek(R) Audio", "audio"),
        ("", ""),
        ("a", ""),
        ("", "a"),
        ("aab", "ab"),
        ("ab", "abc"),
        ("ヘッドホン", "ドホ"),
    ] {
        assert_eq!(contains(s, p), s.contains(p), "{s:?} {p:?}");
    }
}

#[test]
fn what_follows_a_start() {
    assert_eq!(after("--mic=Logi", "--mic="), Some("Logi".to_string()));
    assert_eq!(after("--mic=", "--mic="), Some(String::new()));
    assert_eq!(after("--mi", "--mic="), None);
    assert_eq!(after("--Mic=x", "--mic="), None);
}

#[test]
fn splitting_and_replacing() {
    assert_eq!(split("00:01:07", ':'), vec!["00", "01", "07"]);
    assert_eq!(split("", ':'), vec![""]);
    assert_eq!(split(":", ':'), vec!["", ""]);
    assert_eq!(replace("1,5,", ',', '.'), "1.5.");
}

#[test]
fn characters_back_and_forth() {
    let chars = chars_of("会議ab");
    assert_eq!(chars, vec!['会', '議', 'a', 'b']);
    assert_eq!(string_of(&chars), "会議ab");
    assert_eq!(copy_range(&chars, 1, 3), vec!['議', 'a']);
    assert_eq!(find(&chars, 0, 4, 'a', 'b'), 2);
    assert_eq!(find(&chars, 0, 2, 'a', 'b'), 2);
}
