//! The files of a recording and how they are called.

use crate::meta::meta_place;
use crate::text::{decimal, decimal_text};
use crate::track::Speaker;
use vstd::prelude::*;

verus! {

/// What the files of a track have after the name of the recording.
pub open spec fn suffix(speaker: Speaker) -> Seq<char> {
    match speaker {
        Speaker::Me => "-self"@,
        Speaker::Other => "-other"@,
    }
}

/// The name of a recording, after the second at which it starts.
pub fn recording_name(stamp: u64) -> (r: String)
    ensures
        r@ == "dual-"@ + decimal(stamp as nat),
{
    let mut r = "dual-".to_string();
    r.append(decimal_text(stamp as u128).as_str());
    r
}

fn track_name(stem: &str, speaker: Speaker, ending: &str) -> (r: String)
    ensures
        r@ == stem@ + suffix(speaker) + ending@,
{
    let mut r = stem.to_string();
    match speaker {
        Speaker::Me => r.append("-self"),
        Speaker::Other => r.append("-other"),
    }
    r.append(ending);
    r
}

/// The sound of a track.
pub fn wav_name(stem: &str, speaker: Speaker) -> (r: String)
    ensures
        r@ == stem@ + suffix(speaker) + ".wav"@,
{
    track_name(stem, speaker, ".wav")
}

/// The metadata of a track.
pub fn meta_name(stem: &str, speaker: Speaker) -> (r: String)
    ensures
        r@ == stem@ + suffix(speaker) + "-meta.json"@,
{
    track_name(stem, speaker, "-meta.json")
}

/// What speech recognition found in a track.
pub fn speech_name(stem: &str, speaker: Speaker) -> (r: String)
    ensures
        r@ == stem@ + suffix(speaker) + ".wav.json"@,
{
    track_name(stem, speaker, ".wav.json")
}

/// The transcript of a recording.
pub fn transcript_name(stem: &str) -> (r: String)
    ensures
        r@ == stem@ + "-transcript.txt"@,
{
    let mut r = stem.to_string();
    r.append("-transcript.txt");
    r
}

/// The summary of a recording.
pub fn summary_name(stem: &str) -> (r: String)
    ensures
        r@ == stem@ + "-summary.txt"@,
{
    let mut r = stem.to_string();
    r.append("-summary.txt");
    r
}

/// The metadata that is written for a track is found by the name of the recording.
pub proof fn law_metadata_is_found(stem: Seq<char>, speaker: Speaker)
    ensures
        meta_place(stem + suffix(speaker) + ".wav"@) == stem + suffix(speaker) + "-meta.json"@,
{
    reveal_strlit(".wav");
    let path = stem + suffix(speaker) + ".wav"@;
    let n = path.len() - 4;
    assert(path.skip(n) =~= ".wav"@);
    assert(path.take(n) =~= stem + suffix(speaker));
}

/// What tells the files of the two sides apart.
pub proof fn law_files_of_the_sides()
    ensures
        suffix(Speaker::Me) == "-self"@,
        suffix(Speaker::Other) == "-other"@,
{
}

} // verus!
