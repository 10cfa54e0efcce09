//! Choosing and listing audio devices by name.

use crate::text::{contains, decimal, decimal_text, holds_part, stands_at};
use vstd::prelude::*;

verus! {

/// Which device is taken.
#[derive(Clone, Copy, Debug, PartialEq, Eq, Structural)]
pub enum Choice {
    /// The candidate at this place.
    Candidate(usize),
    /// The default device. `missed` tells that a name was asked for and not found.
    Default { missed: bool },
    /// None: there is no default device either.
    Nothing { missed: bool },
}

/// Whether candidate `i` is the first whose name contains the one asked for.
pub open spec fn first_match(names: Seq<String>, needle: Seq<char>, i: int) -> bool {
    &&& 0 <= i < names.len()
    &&& holds_part(names[i]@, needle)
    &&& forall|j: int| 0 <= j < i ==> !holds_part((#[trigger] names[j])@, needle)
}

/// Whether no candidate's name contains the one asked for.
pub open spec fn no_match(names: Seq<String>, needle: Seq<char>) -> bool {
    forall|j: int| 0 <= j < names.len() ==> !holds_part((#[trigger] names[j])@, needle)
}

/// Takes the first candidate whose name contains `needle`, or else the default device.
pub fn pick(names: &[String], needle: Option<&str>, has_default: bool) -> (r: Choice)
    ensures
        match r {
            Choice::Candidate(i) => needle matches Some(n) && first_match(names@, n@, i as int),
            Choice::Default { missed } => {
                &&& has_default
                &&& missed == (needle is Some)
                &&& needle matches Some(n) ==> no_match(names@, n@)
            },
            Choice::Nothing { missed } => {
                &&& !has_default
                &&& missed == (needle is Some)
                &&& needle matches Some(n) ==> no_match(names@, n@)
            },
        },
{
    let mut missed = false;
    if let Some(n) = needle {
        for i in 0..names.len()
            invariant
                needle == Some(n),
                forall|j: int| 0 <= j < i ==> !holds_part((#[trigger] names@[j])@, n@),
        {
            if contains(names[i].as_str(), n) {
                return Choice::Candidate(i);
            }
        }
        missed = true;
    }
    if has_default {
        Choice::Default { missed }
    } else {
        Choice::Nothing { missed }
    }
}

/// Tells that no device has the name asked for.
pub fn missed_text(needle: &str, what: &str) -> (r: String)
    ensures
        r@ == "  !! '"@ + needle@ + "' に一致する"@ + what@ + "が無い。既定を使う。\n"@,
{
    let mut r = "  !! '".to_string();
    r.append(needle);
    r.append("' に一致する");
    r.append(what);
    r.append("が無い。既定を使う。\n");
    r
}

/// Tells that there is no device.
pub fn nothing_text(what: &str) -> (r: String)
    ensures
        r@ == what@ + "が見つからない"@,
{
    let mut r = what.to_string();
    r.append("が見つからない");
    r
}

/// What is known of a device.
pub enum Settings {
    Known { rate: u32, channels: u16, format: String },
    /// Nothing, for this reason.
    Unknown(String),
}

/// A device that can be chosen.
pub struct Device {
    pub name: String,
    pub settings: Settings,
}

pub open spec fn settings_text(s: Settings) -> Seq<char> {
    match s {
        Settings::Known { rate, channels, format } => decimal(rate as nat) + " Hz / "@ + decimal(
            channels as nat,
        ) + " ch / "@ + format@,
        Settings::Unknown(reason) => "設定を取得できない: "@ + reason@,
    }
}

/// The entry of a device in a list. Every device with the name of the default is marked.
pub open spec fn device_text(d: Device, default: Option<Seq<char>>) -> Seq<char> {
    "  "@ + d.name@ + (if default == Some(d.name@) {
        "  ← 既定"@
    } else {
        Seq::empty()
    }) + "\n      "@ + settings_text(d.settings) + "\n"@
}

/// The entries of the first `n` devices.
pub open spec fn list_text(devices: Seq<Device>, default: Option<Seq<char>>, n: int) -> Seq<char>
    decreases n,
{
    if n <= 0 {
        Seq::empty()
    } else {
        list_text(devices, default, n - 1) + device_text(devices[n - 1], default)
    }
}

fn settings_line(s: &Settings) -> (r: String)
    ensures
        r@ == settings_text(*s),
{
    match s {
        Settings::Known { rate, channels, format } => {
            let mut r = decimal_text(*rate as u128);
            r.append(" Hz / ");
            r.append(decimal_text(*channels as u128).as_str());
            r.append(" ch / ");
            r.append(format.as_str());
            r
        },
        Settings::Unknown(reason) => {
            let mut r = "設定を取得できない: ".to_string();
            r.append(reason.as_str());
            r
        },
    }
}

/// Lists devices.
pub fn list(devices: &[Device], default: Option<&String>) -> (r: String)
    ensures
        r@ == list_text(
            devices@,
            match default {
                Some(d) => Some(d@),
                None => None,
            },
            devices@.len() as int,
        ),
{
    let ghost chosen: Option<Seq<char>> = match default {
        Some(d) => Some(d@),
        None => None,
    };
    let mut r = String::new();
    for i in 0..devices.len()
        invariant
            chosen == (match default {
                Some(d) => Some(d@),
                None => None,
            }),
            r@ == list_text(devices@, chosen, i as int),
    {
        let mut entry = "  ".to_string();
        entry.append(devices[i].name.as_str());
        let marked = match default {
            Some(d) => *d == devices[i].name,
            None => false,
        };
        let mark: String = if marked {
            "  ← 既定".to_string()
        } else {
            String::new()
        };
        entry.append(mark.as_str());
        entry.append("\n      ");
        entry.append(settings_line(&devices[i].settings).as_str());
        entry.append("\n");
        r.append(entry.as_str());
    }
    r
}

/// Each device adds its entry, with its settings or the reason why there are none, and with the
/// mark exactly if it has the name of the default.
pub proof fn law_every_device_is_listed(
    devices: Seq<Device>,
    default: Option<Seq<char>>,
    n: int,
)
    requires
        0 <= n < devices.len(),
    ensures
        ({
            let d = devices[n];
            let mark = if default is Some && default->0 == d.name@ {
                "  ← 既定"@
            } else {
                Seq::empty()
            };
            let settings = match d.settings {
                Settings::Known { rate, channels, format } => decimal(rate as nat) + " Hz / "@
                    + decimal(channels as nat) + " ch / "@ + format@,
                Settings::Unknown(reason) => "設定を取得できない: "@ + reason@,
            };
            list_text(devices, default, n + 1) == list_text(devices, default, n) + ("  "@ + d.name@
                + mark + "\n      "@ + settings + "\n"@)
        }),
        list_text(devices, default, 0).len() == 0,
{
}

/// The device that is taken is the only one of which it can be said: the first whose name
/// holds the one asked for.
pub proof fn law_first_match_is_one(names: Seq<String>, needle: Seq<char>, i: int, j: int)
    requires
        first_match(names, needle, i),
        first_match(names, needle, j),
    ensures
        i == j,
        !no_match(names, needle),
        exists|k: int|
            0 <= k && k + needle.len() <= names[i]@.len() && #[trigger] names[i]@.subrange(
                k,
                k + needle.len(),
            ) == needle,
{
    if i < j {
        assert(!holds_part(names[i]@, needle));
    } else if j < i {
        assert(!holds_part(names[j]@, needle));
    }
    let k = choose|k: int| stands_at(names[i]@, needle, k);
    assert(names[i]@.subrange(k, k + needle.len()) == needle);
}

/// A name holds another exactly if that stands somewhere in it, with anything before and
/// behind.
pub proof fn law_names_hold_their_parts(before: Seq<char>, part: Seq<char>, behind: Seq<char>)
    ensures
        holds_part(before + part + behind, part),
{
    let s = before + part + behind;
    let k = before.len() as int;
    assert(s.subrange(k, k + part.len()) =~= part);
    assert(stands_at(s, part, k));
}

} // verus!
