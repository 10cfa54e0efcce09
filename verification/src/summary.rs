//! Having the transcript of a meeting summarised.
//!
//! This is the one place where what was said leaves the computer, so what is sent is told
//! first, and can be looked at without sending it.

use crate::args::text_of;
use crate::text::{decimal, decimal_text, hold, lines, text_lines, trim, trimmed};
use vstd::prelude::*;
use vstd::utf8::{decode_utf8, valid_utf8};

verus! {

/// What the summariser is told to do.
pub const INSTRUCTIONS: &'static str = "あなたは打ち合わせの書記です。標準入力に会議のトランスクリプトが渡されます。\n\
\n\
トランスクリプトの性質:\n\
- マイク（自分）と PC の再生音（相手）を別々に録り、時刻で統合したものです。\n\
- `自分:` は録音者本人、`相手:` はそれ以外の参加者です。相手が複数人でも区別されていません。\n\
- 行頭の [分:秒.秒] または [時:分:秒.秒] は録音開始からの経過時刻です（例: [02:33.0]、[1:05:12.4]）。\n\
- **音声認識の誤りが含まれます。** 固有名詞や専門用語が誤変換されていることがあります。\n\
\x20 文脈から明らかな誤変換は自然な表記に直して構いませんが、**判断がつかないものは原文のまま残し、\n\
\x20 推測で別の語に置き換えないでください。**\n\
\n\
書き方の決まり:\n\
- **トランスクリプトに書かれていないことは書かないでください。** 推測・補完・一般論は不要です。\n\
\x20 該当がない項目には「言及なし」とだけ書いてください。\n\
- 重要な項目には、根拠となる発言の時刻を添えてください。**時刻はトランスクリプトの行頭に\n\
\x20 書かれている表記をそのまま写してください。形式を変換しないでください**（[02:33.0] とあれば\n\
\x20 [02:33.0] と書く）。トランスクリプトを検索して原文に戻るための目印なので、\n\
\x20 表記が変わると探せなくなります。\n\
- ToDo は「誰が・何を・いつまでに」を書いてください。期限が話されていなければ「期限の言及なし」と\n\
\x20 書いてください。勝手に期限を作らないでください。\n\
- **Markdown 記法を使わないでください。** アスタリスクによる強調、# 見出し、- 箇条書き、表は\n\
\x20 使いません。そのまま他所へ貼れる素のテキストにしてください。見出しは【】、箇条書きは・を使います。\n\
\n\
次の形式で出力してください。前置きや後書きは不要です。\n\
\n\
【一言サマリ】\n\
この打ち合わせが何だったかを1〜2文で。\n\
\n\
【決まったこと】\n\
・（決定事項。時刻を添える）\n\
\n\
【自分のToDo】\n\
・（自分がやること。期限があれば添える）\n\
\n\
【相手のToDo】\n\
・（相手がやること。期限があれば添える）\n\
\n\
【未解決の論点・次回への持ち越し】\n\
・（結論が出なかったこと、保留になったこと）\n\
\n\
【気になった点】\n\
・（音声認識が怪しく、原文を確認したほうがよい箇所があれば時刻とともに。無ければ「なし」）\n\
";

/// What is told before anything is sent: what goes out, and where to.
pub open spec fn announcement(
    src: Seq<char>,
    transcript: Seq<char>,
    recipient: Seq<char>,
    model: Option<Seq<char>>,
) -> Seq<char> {
    "入力  : "@ + src + "（"@ + decimal(text_lines(transcript).len()) + " 行 / "@ + decimal(
        transcript.len(),
    ) + " 文字）\n"@ + "送信先: "@ + recipient + "\n"@
        + "        **会議の中身がここで外に出る。**録音と文字起こしはローカルで完結している。\n"@
        + match model {
        Some(m) => "モデル: "@ + m + "\n"@,
        None => Seq::empty(),
    }
}

/// Each of the first `n` texts on a line of its own.
pub open spec fn on_lines(texts: Seq<Seq<char>>, n: int) -> Seq<char>
    decreases n,
{
    if n <= 0 {
        Seq::empty()
    } else {
        on_lines(texts, n - 1) + texts[n - 1] + "\n"@
    }
}

/// What would be sent: the instructions and the first fifteen lines of the transcript.
pub open spec fn preview(transcript: Seq<char>) -> Seq<char> {
    let all = text_lines(transcript);
    let head = "\n--- 指示 ---\n"@ + INSTRUCTIONS@ + "\n--- 入力の冒頭 ---\n"@;
    let end = "\n--dry-run のため送信しなかった。\n"@;
    if all.len() > 15 {
        head + on_lines(all, 15) + "…（残り "@ + decimal((all.len() - 15) as nat) + " 行）\n"@ + end
    } else {
        head + on_lines(all, all.len() as int) + end
    }
}

/// The arguments with which the summariser is called.
pub open spec fn call_arguments(model: Option<Seq<char>>) -> Seq<Seq<char>> {
    match model {
        Some(m) => seq!["-p"@, INSTRUCTIONS@, "--model"@, m],
        None => seq!["-p"@, INSTRUCTIONS@],
    }
}

/// What is to be done with a transcript.
pub enum Plan {
    /// Nothing: there is no transcript in the file.
    Empty,
    /// Tell this, and send nothing.
    Show(String),
    /// Tell this, and call the summariser with these arguments and the transcript as input.
    Send { told: String, arguments: Vec<String> },
}

fn announce(
    src: &str,
    transcript: &str,
    recipient: &str,
    model: Option<&String>,
    count: usize,
) -> (r: String)
    requires
        count == text_lines(transcript@).len(),
    ensures
        r@ == announcement(
            src@,
            transcript@,
            recipient@,
            match model {
                Some(m) => Some(m@),
                None => None,
            },
        ),
{
    let mut r = "入力  : ".to_string();
    r.append(src);
    r.append("（");
    r.append(decimal_text(count as u128).as_str());
    r.append(" 行 / ");
    r.append(decimal_text(transcript.unicode_len() as u128).as_str());
    r.append(" 文字）\n");
    r.append("送信先: ");
    r.append(recipient);
    r.append("\n");
    r.append("        **会議の中身がここで外に出る。**録音と文字起こしはローカルで完結している。\n");
    let named: String = match model {
        Some(m) => {
            let mut t = "モデル: ".to_string();
            t.append(m.as_str());
            t.append("\n");
            t
        },
        None => String::new(),
    };
    r.append(named.as_str());
    r
}

fn show(transcript: &str, all: &[String]) -> (r: String)
    requires
        hold(all@, text_lines(transcript@)),
    ensures
        r@ == preview(transcript@),
{
    let ghost texts = text_lines(transcript@);
    let shown: usize = if all.len() > 15 {
        15
    } else {
        all.len()
    };
    let mut first = String::new();
    for i in 0..shown
        invariant
            texts == text_lines(transcript@),
            hold(all@, texts),
            shown <= all@.len(),
            first@ == on_lines(texts, i as int),
    {
        assert(all@[i as int]@ == texts[i as int]);
        first.append(all[i].as_str());
        first.append("\n");
    }
    let mut r = "\n--- 指示 ---\n".to_string();
    r.append(INSTRUCTIONS);
    r.append("\n--- 入力の冒頭 ---\n");
    r.append(first.as_str());
    if all.len() > 15 {
        r.append("…（残り ");
        r.append(decimal_text((all.len() - 15) as u128).as_str());
        r.append(" 行）\n");
    }
    r.append("\n--dry-run のため送信しなかった。\n");
    r
}

/// Decides what is to be done with a transcript. Nothing is sent in a dry run, and nothing
/// without saying so first.
pub fn plan(
    src: &str,
    transcript: &str,
    recipient: &str,
    dry_run: bool,
    model: &Option<String>,
) -> (r: Plan)
    ensures
        ({
            let told = announcement(src@, transcript@, recipient@, text_of(*model));
            match r {
                Plan::Empty => trimmed(transcript@).len() == 0,
                Plan::Show(t) => {
                    &&& trimmed(transcript@).len() > 0
                    &&& dry_run
                    &&& t@ == told + preview(transcript@)
                },
                Plan::Send { told: t, arguments } => {
                    &&& trimmed(transcript@).len() > 0
                    &&& !dry_run
                    &&& t@ == told
                    &&& hold(arguments@, call_arguments(text_of(*model)))
                },
            }
        }),
{
    if trim(transcript).as_str().unicode_len() == 0 {
        return Plan::Empty;
    }
    let all = lines(transcript);
    let mut told = announce(src, transcript, recipient, model.as_ref(), all.len());
    if dry_run {
        told.append(show(transcript, all.as_slice()).as_str());
        return Plan::Show(told);
    }
    let mut arguments: Vec<String> = Vec::new();
    arguments.push("-p".to_string());
    arguments.push(INSTRUCTIONS.to_string());
    if let Some(m) = model {
        arguments.push("--model".to_string());
        arguments.push(m.clone());
    }
    Plan::Send { told, arguments }
}

/// The text that bytes stand for, with a mark in place of what is not UTF-8.
pub uninterp spec fn lossy(bytes: Seq<u8>) -> Seq<char>;

/// Trusted: `String::from_utf8_lossy` reads bytes as UTF-8. Bytes that are UTF-8 throughout
/// are decoded as they are; what it makes of others is named `lossy`.
#[verifier::external_body]
fn decode(bytes: &[u8]) -> (r: String)
    ensures
        r@ == lossy(bytes@),
        valid_utf8(bytes@) ==> r@ == decode_utf8(bytes@),
{
    String::from_utf8_lossy(bytes).into_owned()
}

/// The summary in a reply: what it says without white space at its ends; nothing where that
/// is empty.
pub fn summary_in(reply: &str) -> (r: Option<String>)
    ensures
        match r {
            Some(s) => s@ == trimmed(reply@) && s@.len() > 0,
            None => trimmed(reply@).len() == 0,
        },
{
    let s = trim(reply);
    if s.as_str().unicode_len() == 0 {
        None
    } else {
        Some(s)
    }
}

/// The summary in the bytes of a reply.
pub fn summary_of(reply: &[u8]) -> (r: Option<String>)
    ensures
        match r {
            Some(s) => s@ == trimmed(lossy(reply@)) && s@.len() > 0,
            None => trimmed(lossy(reply@)).len() == 0,
        },
        valid_utf8(reply@) ==> text_of(r) == (if trimmed(decode_utf8(reply@)).len() > 0 {
            Some(trimmed(decode_utf8(reply@)))
        } else {
            None
        }),
{
    let text = decode(reply);
    summary_in(text.as_str())
}

/// The file of a summary.
pub fn summary_file(summary: &str) -> (r: String)
    ensures
        r@ == summary@ + "\n"@,
{
    let mut r = summary.to_string();
    r.append("\n");
    r
}

/// What is told once the summary is written.
pub fn written_text(dest: &str, summary: &str) -> (r: String)
    ensures
        r@ == "\n"@ + dest@ + " を書いた（"@ + decimal(summary@.len()) + " 文字）\n\n"@ + summary@
            + "\n"@,
{
    let mut r = "\n".to_string();
    r.append(dest);
    r.append(" を書いた（");
    r.append(decimal_text(summary.unicode_len() as u128).as_str());
    r.append(" 文字）\n\n");
    r.append(summary);
    r.append("\n");
    r
}

/// Each text adds a line: itself and a line feed.
pub proof fn law_every_line_is_shown(texts: Seq<Seq<char>>, n: int)
    requires
        0 <= n < texts.len(),
    ensures
        on_lines(texts, n + 1) == on_lines(texts, n) + texts[n] + "\n"@,
        on_lines(texts, 0).len() == 0,
{
}

/// A preview shows the instructions in full, the lines of the transcript up to the fifteenth,
/// and how many more there are.
pub proof fn law_preview_shows_what_goes_out(transcript: Seq<char>)
    ensures
        ({
            let all = text_lines(transcript);
            let n = all.len() as int;
            let shown = if n < 15 {
                n
            } else {
                15
            };
            let told = "\n--- 指示 ---\n"@ + INSTRUCTIONS@ + "\n--- 入力の冒頭 ---\n"@ + on_lines(
                all,
                shown,
            );
            let end = "\n--dry-run のため送信しなかった。\n"@;
            &&& n <= 15 ==> preview(transcript) == told + end
            &&& n > 15 ==> preview(transcript) == told + "…（残り "@ + decimal((n - 15) as nat)
                + " 行）\n"@ + end
        }),
{
}

/// The announcement names the file, how many lines and characters it has, where it goes, and
/// the model if one is asked for.
pub proof fn law_announcement_names_what_goes_where(
    src: Seq<char>,
    transcript: Seq<char>,
    recipient: Seq<char>,
    model: Seq<char>,
)
    ensures
        announcement(src, transcript, recipient, Some(model)) == announcement(
            src,
            transcript,
            recipient,
            None,
        ) + ("モデル: "@ + model + "\n"@),
        announcement(src, transcript, recipient, None) == "入力  : "@ + src + "（"@ + decimal(
            text_lines(transcript).len(),
        ) + " 行 / "@ + decimal(transcript.len()) + " 文字）\n"@ + "送信先: "@ + recipient + "\n"@
            + "        **会議の中身がここで外に出る。**録音と文字起こしはローカルで完結している。\n"@,
{
    assert(announcement(src, transcript, recipient, None) =~= "入力  : "@ + src + "（"@ + decimal(
        text_lines(transcript).len(),
    ) + " 行 / "@ + decimal(transcript.len()) + " 文字）\n"@ + "送信先: "@ + recipient + "\n"@
        + "        **会議の中身がここで外に出る。**録音と文字起こしはローカルで完結している。\n"@);
}

/// The summariser gets the instructions, and the model exactly if one is asked for; never the
/// transcript, which goes in as its input.
pub proof fn law_arguments_hold_the_instructions(model: Seq<char>)
    ensures
        call_arguments(None).len() == 2,
        call_arguments(None)[0] == "-p"@ && call_arguments(None)[1] == INSTRUCTIONS@,
        call_arguments(Some(model)).len() == 4,
        call_arguments(Some(model)).take(2) == call_arguments(None),
        call_arguments(Some(model))[2] == "--model"@ && call_arguments(Some(model))[3] == model,
{
    assert(call_arguments(Some(model)).take(2) =~= call_arguments(None));
}

} // verus!
