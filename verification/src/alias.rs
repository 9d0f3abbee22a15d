//! Default account aliases: `<platform display name> · <capture date>`.
use vstd::prelude::*;

use crate::platform::PlatformKind;
use crate::text::{decimal, push_padded_decimal, push_str, zero_pad};

verus! {

/// The name a platform is shown under.
pub open spec fn display_name(p: PlatformKind) -> Seq<char> {
    match p {
        PlatformKind::Youtube => "YouTube"@,
        PlatformKind::YoutubeMusic => "YouTube Music"@,
        PlatformKind::SoundCloud => "SoundCloud"@,
        PlatformKind::Spotify => "Spotify"@,
        PlatformKind::Twitch => "Twitch"@,
        PlatformKind::Instagram => "Instagram"@,
        PlatformKind::XTwitter => "X"@,
        PlatformKind::Vimeo => "Vimeo"@,
        PlatformKind::Tiktok => "TikTok"@,
        PlatformKind::Bilibili => "Bilibili"@,
        PlatformKind::Reddit => "Reddit"@,
        PlatformKind::Pinterest => "Pinterest"@,
        PlatformKind::Bluesky => "Bluesky"@,
        PlatformKind::Generic => "Site"@,
    }
}

/// Whole seconds of a millisecond timestamp as `(ms / 1000) as u64` gives
/// them: the quotient rounds toward zero, and a negative quotient wraps
/// around modulo 2^64.
pub open spec fn seconds_of(ms: int) -> nat {
    let q = if ms >= 0 {
        ms / 1000
    } else {
        -((-ms) / 1000)
    };
    if q >= 0 {
        q as nat
    } else {
        (q + 0x1_0000_0000_0000_0000) as nat
    }
}

/// Year of the approximate calendar used for aliases: 365-day years from 1970.
pub open spec fn date_year(ms: int) -> nat {
    1970 + seconds_of(ms) / 86400 / 365
}

/// Month (1 to 12) of the approximate calendar: 30-day months, the twelfth
/// taking the remaining days of the year.
pub open spec fn date_month(ms: int) -> nat {
    let day_of_year = seconds_of(ms) / 86400 % 365;
    if day_of_year / 30 < 11 {
        day_of_year / 30 + 1
    } else {
        12
    }
}

/// Day (1 to 30) of the approximate calendar.
pub open spec fn date_day(ms: int) -> nat {
    seconds_of(ms) / 86400 % 365 % 30 + 1
}

/// `YYYY-MM-DD` of the approximate calendar, each part zero-padded.
pub open spec fn date_text(ms: int) -> Seq<char> {
    zero_pad(decimal(date_year(ms)), 4) + "-"@ + zero_pad(decimal(date_month(ms)), 2) + "-"@
        + zero_pad(decimal(date_day(ms)), 2)
}

/// The alias an account gets when the capture names none.
pub open spec fn default_alias(p: PlatformKind, now_ms: int) -> Seq<char> {
    display_name(p) + " · "@ + date_text(now_ms)
}

/// The name a platform is shown under.
pub fn platform_display(p: PlatformKind) -> (r: &'static str)
    ensures
        r@ == display_name(p),
{
    match p {
        PlatformKind::Youtube => "YouTube",
        PlatformKind::YoutubeMusic => "YouTube Music",
        PlatformKind::SoundCloud => "SoundCloud",
        PlatformKind::Spotify => "Spotify",
        PlatformKind::Twitch => "Twitch",
        PlatformKind::Instagram => "Instagram",
        PlatformKind::XTwitter => "X",
        PlatformKind::Vimeo => "Vimeo",
        PlatformKind::Tiktok => "TikTok",
        PlatformKind::Bilibili => "Bilibili",
        PlatformKind::Reddit => "Reddit",
        PlatformKind::Pinterest => "Pinterest",
        PlatformKind::Bluesky => "Bluesky",
        PlatformKind::Generic => "Site",
    }
}

/// The capture date of a millisecond timestamp, as `YYYY-MM-DD` of an
/// approximate calendar (365-day years, 30-day months from 1970).
pub fn human_date(ms: i64) -> (r: String)
    ensures
        r@ == date_text(ms as int),
{
    let secs: u64 = if ms >= 0 {
        (ms as u64) / 1000
    } else {
        let m: u64 = (0i128 - ms as i128) as u64;
        let q = m / 1000;
        if q == 0 {
            0
        } else {
            u64::MAX - q + 1
        }
    };
    assert(secs as nat == seconds_of(ms as int));
    let days = secs / 86400;
    let years = 1970 + days / 365;
    let day_of_year = days % 365;
    let month = if day_of_year / 30 < 11 {
        day_of_year / 30
    } else {
        11
    };
    let day = day_of_year % 30 + 1;
    let mut r = String::new();
    push_padded_decimal(&mut r, years, 4);
    push_str(&mut r, "-");
    push_padded_decimal(&mut r, month + 1, 2);
    push_str(&mut r, "-");
    push_padded_decimal(&mut r, day, 2);
    assert(r@ =~= date_text(ms as int));
    r
}

/// `<platform display name> · <capture date>`.
pub fn default_alias_for(p: PlatformKind, now_ms: i64) -> (r: String)
    ensures
        r@ == default_alias(p, now_ms as int),
{
    let mut r = String::new();
    push_str(&mut r, platform_display(p));
    push_str(&mut r, " · ");
    let d = human_date(now_ms);
    push_str(&mut r, d.as_str());
    assert(r@ =~= default_alias(p, now_ms as int));
    r
}

/// The approximate date always names a year from 1970 on, a month from 1 to
/// 12 and a day from 1 to 30.
pub proof fn lemma_date_parts_in_range(ms: int)
    ensures
        date_year(ms) >= 1970,
        1 <= date_month(ms) <= 12,
        1 <= date_day(ms) <= 30,
{
}

} // verus!
