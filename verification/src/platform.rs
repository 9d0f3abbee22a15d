//! Map an HTTP domain to a `PlatformKind` used by the UI and by plugin
//! consumers. The mapping is deterministic and intentionally narrow: only
//! platforms with first-class support get a dedicated kind; everything else
//! falls back to `Generic` and is identified by domain alone.
use vstd::prelude::*;

use crate::text::{
    all_ascii, ascii_lower, ascii_normalize, chars_eq, chars_of, lemma_ascii_lower,
    lemma_trim_ascii_lower, lemma_trim_extra_dot, lemma_trim_leading_dots, normalize_host,
    normalized_host, string_of, trim_leading_dots,
};

verus! {

#[derive(Debug, Clone, Copy, PartialEq, Eq, Hash, Structural)]
pub enum PlatformKind {
    Youtube,
    YoutubeMusic,
    SoundCloud,
    Spotify,
    Twitch,
    Instagram,
    XTwitter,
    Vimeo,
    Tiktok,
    Bilibili,
    Reddit,
    Pinterest,
    Bluesky,
    Generic,
}

/// The stable snake_case name of a kind (the one stored on disk).
pub open spec fn kind_name(k: PlatformKind) -> Seq<char> {
    match k {
        PlatformKind::Youtube => "youtube"@,
        PlatformKind::YoutubeMusic => "youtube_music"@,
        PlatformKind::SoundCloud => "soundcloud"@,
        PlatformKind::Spotify => "spotify"@,
        PlatformKind::Twitch => "twitch"@,
        PlatformKind::Instagram => "instagram"@,
        PlatformKind::XTwitter => "x_twitter"@,
        PlatformKind::Vimeo => "vimeo"@,
        PlatformKind::Tiktok => "tiktok"@,
        PlatformKind::Bilibili => "bilibili"@,
        PlatformKind::Reddit => "reddit"@,
        PlatformKind::Pinterest => "pinterest"@,
        PlatformKind::Bluesky => "bluesky"@,
        PlatformKind::Generic => "generic"@,
    }
}

/// The kind that a registrable root domain (such as `youtube.com`) maps to.
pub open spec fn kind_of_root(root: Seq<char>) -> PlatformKind {
    if root == "youtube.com"@ || root == "youtu.be"@ {
        PlatformKind::Youtube
    } else if root == "soundcloud.com"@ {
        PlatformKind::SoundCloud
    } else if root == "spotify.com"@ {
        PlatformKind::Spotify
    } else if root == "twitch.tv"@ {
        PlatformKind::Twitch
    } else if root == "instagram.com"@ {
        PlatformKind::Instagram
    } else if root == "x.com"@ || root == "twitter.com"@ {
        PlatformKind::XTwitter
    } else if root == "vimeo.com"@ {
        PlatformKind::Vimeo
    } else if root == "tiktok.com"@ {
        PlatformKind::Tiktok
    } else if root == "bilibili.com"@ {
        PlatformKind::Bilibili
    } else if root == "reddit.com"@ {
        PlatformKind::Reddit
    } else if root == "pinterest.com"@ {
        PlatformKind::Pinterest
    } else if root == "bsky.app"@ || root == "bsky.social"@ {
        PlatformKind::Bluesky
    } else {
        PlatformKind::Generic
    }
}

/// Index of the last `c` in `s`, or `-1` when there is none.
pub open spec fn last_index_of(s: Seq<char>, c: char) -> int
    decreases s.len(),
{
    if s.len() == 0 {
        -1
    } else if s.last() == c {
        s.len() - 1
    } else {
        last_index_of(s.drop_last(), c)
    }
}

/// The last two dot-separated labels of `h`, or `h` itself when it has no
/// dot: `parts[len - 2..].join(".")` over `h.split('.')`.
pub open spec fn registrable_suffix(h: Seq<char>) -> Seq<char> {
    let i = last_index_of(h, '.');
    if i < 0 {
        h
    } else {
        h.skip(last_index_of(h.take(i), '.') + 1)
    }
}

/// The root domain of a host: leading dots trimmed, lowercased, then its last
/// two labels.
pub open spec fn root_domain(host: Seq<char>) -> Seq<char> {
    registrable_suffix(normalize_host(host))
}

/// The kind that a cookie domain maps to.
pub open spec fn kind_of_domain(domain: Seq<char>) -> PlatformKind {
    let host = normalize_host(domain);
    if host == "music.youtube.com"@ {
        PlatformKind::YoutubeMusic
    } else {
        kind_of_root(root_domain(host))
    }
}

/// The root domain of an all-ASCII host.
pub open spec fn ascii_root_domain(host: Seq<char>) -> Seq<char> {
    registrable_suffix(ascii_normalize(host))
}

/// The kind that an all-ASCII cookie domain maps to.
pub open spec fn ascii_kind_of_domain(domain: Seq<char>) -> PlatformKind {
    let host = ascii_normalize(domain);
    if host == "music.youtube.com"@ {
        PlatformKind::YoutubeMusic
    } else {
        kind_of_root(ascii_root_domain(host))
    }
}

pub proof fn lemma_last_index_of(s: Seq<char>, c: char)
    ensures
        -1 <= last_index_of(s, c) < s.len(),
        last_index_of(s, c) >= 0 ==> s[last_index_of(s, c)] == c,
        forall|k: int| last_index_of(s, c) < k < s.len() ==> s[k] != c,
    decreases s.len(),
{
    if s.len() > 0 && s.last() != c {
        lemma_last_index_of(s.drop_last(), c);
        assert forall|k: int| last_index_of(s, c) < k < s.len() implies s[k] != c by {
            if k < s.len() - 1 {
                assert(s.drop_last()[k] == s[k]);
            }
        }
    }
}

/// Different kinds have different names, so a stored name identifies its kind.
pub proof fn lemma_kind_names_distinct(a: PlatformKind, b: PlatformKind)
    ensures
        kind_name(a) == kind_name(b) ==> a == b,
{
    reveal_strlit("youtube");
    reveal_strlit("youtube_music");
    reveal_strlit("soundcloud");
    reveal_strlit("spotify");
    reveal_strlit("twitch");
    reveal_strlit("instagram");
    reveal_strlit("x_twitter");
    reveal_strlit("vimeo");
    reveal_strlit("tiktok");
    reveal_strlit("bilibili");
    reveal_strlit("reddit");
    reveal_strlit("pinterest");
    reveal_strlit("bluesky");
    reveal_strlit("generic");
    if kind_name(a) == kind_name(b) {
        assert(kind_name(a).len() == kind_name(b).len());
        assert(kind_name(a)[0] == kind_name(b)[0]);
        assert(kind_name(a)[1] == kind_name(b)[1]);
    }
}

/// The root of a normalized host is a suffix of it.
pub proof fn lemma_root_is_suffix(h: Seq<char>)
    ensures
        registrable_suffix(h).len() <= h.len(),
        registrable_suffix(h) == h.skip(h.len() - registrable_suffix(h).len()),
{
    let i = last_index_of(h, '.');
    lemma_last_index_of(h, '.');
    if i < 0 {
        assert(h.skip(0) =~= h);
    } else {
        lemma_last_index_of(h.take(i), '.');
    }
}

/// The root of a normalized host holds at most one dot, so it has at most
/// two labels.
pub proof fn lemma_root_has_at_most_one_dot(h: Seq<char>)
    ensures
        forall|p: int, q: int|
            0 <= p < registrable_suffix(h).len() && 0 <= q < registrable_suffix(h).len()
                && registrable_suffix(h)[p] == '.' && registrable_suffix(h)[q] == '.' ==> p == q,
{
    let i = last_index_of(h, '.');
    lemma_last_index_of(h, '.');
    if i >= 0 {
        let j = last_index_of(h.take(i), '.');
        lemma_last_index_of(h.take(i), '.');
        let r = registrable_suffix(h);
        assert forall|p: int| 0 <= p < r.len() && r[p] == '.' implies p == i - j - 1 by {
            assert(r[p] == h[j + 1 + p]);
            if j + 1 + p < i {
                assert(h.take(i)[j + 1 + p] == h[j + 1 + p]);
            }
        }
    }
}

/// Taking the root of a root changes nothing.
pub proof fn lemma_root_idempotent(h: Seq<char>)
    ensures
        registrable_suffix(registrable_suffix(h)) == registrable_suffix(h),
{
    let r = registrable_suffix(h);
    lemma_root_has_at_most_one_dot(h);
    lemma_last_index_of(r, '.');
    let i = last_index_of(r, '.');
    if i >= 0 {
        let t = r.take(i);
        lemma_last_index_of(t, '.');
        if last_index_of(t, '.') >= 0 {
            let k = last_index_of(t, '.');
            assert(t[k] == r[k]);
        }
        assert(r.skip(0) =~= r);
    }
}

/// A leading dot changes neither the root domain nor the kind of a domain.
pub proof fn lemma_leading_dot_ignored(d: Seq<char>)
    ensures
        root_domain(seq!['.'] + d) == root_domain(d),
        kind_of_domain(seq!['.'] + d) == kind_of_domain(d),
        ascii_root_domain(seq!['.'] + d) == ascii_root_domain(d),
        ascii_kind_of_domain(seq!['.'] + d) == ascii_kind_of_domain(d),
{
    lemma_trim_extra_dot(d);
}

/// All-ASCII domains that differ only in the case of ASCII letters have the
/// same root domain and the same kind.
pub proof fn lemma_ascii_case_ignored(d1: Seq<char>, d2: Seq<char>)
    requires
        ascii_lower(d1) == ascii_lower(d2),
    ensures
        ascii_root_domain(d1) == ascii_root_domain(d2),
        ascii_kind_of_domain(d1) == ascii_kind_of_domain(d2),
{
    lemma_trim_ascii_lower(d1);
    lemma_trim_ascii_lower(d2);
}

/// The root domain of an all-ASCII host is all-ASCII, so it can be given to
/// `root_domain_of` again.
pub proof fn lemma_ascii_root_domain_ascii(h: Seq<char>)
    requires
        all_ascii(h),
    ensures
        all_ascii(ascii_root_domain(h)),
{
    let t = trim_leading_dots(h);
    lemma_trim_leading_dots(h);
    let n = ascii_lower(t);
    lemma_ascii_lower(t);
    let r = registrable_suffix(n);
    lemma_root_is_suffix(n);
    let off = n.len() - r.len();
    assert forall|i: int| 0 <= i < r.len() implies crate::text::is_ascii_char(#[trigger] r[i]) by {
        assert(r[i] == n[off + i]);
    }
}

/// Whether `s` holds two dots in a row.
pub open spec fn has_double_dot(s: Seq<char>) -> bool {
    exists|i: int| 0 <= i < s.len() - 1 && #[trigger] s[i] == '.' && s[i + 1] == '.'
}

/// On an all-ASCII host without two dots in a row, taking the root domain of
/// the root domain changes nothing.
pub proof fn lemma_ascii_root_domain_idempotent(h: Seq<char>)
    requires
        !has_double_dot(h),
    ensures
        ascii_root_domain(ascii_root_domain(h)) == ascii_root_domain(h),
{
    let t = trim_leading_dots(h);
    lemma_trim_leading_dots(h);
    let n = ascii_lower(t);
    lemma_ascii_lower(t);
    let r = registrable_suffix(n);
    lemma_root_is_suffix(n);
    let off = n.len() - r.len();
    let toff = h.len() - t.len();
    // `n` holds no two dots in a row, nor a leading dot.
    assert(forall|i: int| 0 <= i < n.len() ==> (#[trigger] n[i] == '.') == (t[i] == '.')) by {
        assert forall|i: int| 0 <= i < n.len() implies (#[trigger] n[i] == '.') == (t[i] == '.') by {
            crate::text::lemma_ascii_lower_char(t[i]);
        }
    }
    assert forall|i: int| 0 <= i < n.len() - 1 && #[trigger] n[i] == '.' implies n[i + 1] != '.' by {
        assert(t[i] == h[toff + i] && t[i + 1] == h[toff + i + 1]);
    }
    // The root does not start with a dot.
    if r.len() > 0 {
        assert(r[0] == n[off]);
        if n[off] == '.' {
            if off == 0 {
                assert(t[0] == '.');
            } else {
                let i = last_index_of(n, '.');
                lemma_last_index_of(n, '.');
                lemma_last_index_of(n.take(i), '.');
                let j = last_index_of(n.take(i), '.');
                assert(off == j + 1);
                assert(n.take(i)[j] == n[j]);
                if off < i {
                    assert(n.take(i)[off] == n[off]);
                } else {
                    assert(off == i);
                }
            }
        }
    }
    assert(trim_leading_dots(r) == r);
    // The root is already lowered.
    assert(ascii_lower(r) =~= r) by {
        assert forall|i: int| 0 <= i < r.len() implies ascii_lower(r)[i] == r[i] by {
            assert(r[i] == n[off + i]);
            assert(n[off + i] == crate::text::ascii_lower_char(t[off + i]));
            crate::text::lemma_ascii_lower_char(t[off + i]);
        }
    }
    lemma_root_idempotent(n);
}

/// Only the host `music.youtube.com` is YouTube Music: no root domain maps
/// to it, and every other host whose root domain is `youtube.com` or
/// `youtu.be` is YouTube.
pub proof fn lemma_youtube_music_only_for_its_host(d: Seq<char>)
    ensures
        (kind_of_domain(d) == PlatformKind::YoutubeMusic) == (normalize_host(d) == "music.youtube.com"@),
        (ascii_kind_of_domain(d) == PlatformKind::YoutubeMusic) == (ascii_normalize(d) == "music.youtube.com"@),
        normalize_host(d) != "music.youtube.com"@ && (root_domain(normalize_host(d)) == "youtube.com"@
            || root_domain(normalize_host(d)) == "youtu.be"@) ==> kind_of_domain(d) == PlatformKind::Youtube,
        ascii_normalize(d) != "music.youtube.com"@ && (ascii_root_domain(ascii_normalize(d)) == "youtube.com"@
            || ascii_root_domain(ascii_normalize(d)) == "youtu.be"@) ==> ascii_kind_of_domain(d)
            == PlatformKind::Youtube,
        forall|r: Seq<char>| #[trigger] kind_of_root(r) != PlatformKind::YoutubeMusic,
{
}

/// Scans `v[0..end]` from the back for `c`.
fn last_index_before(v: &Vec<char>, c: char, end: usize) -> (r: Option<usize>)
    requires
        end <= v@.len(),
    ensures
        match r {
            Some(i) => i as int == last_index_of(v@.take(end as int), c),
            None => last_index_of(v@.take(end as int), c) == -1,
        },
{
    let mut k = end;
    while k > 0
        invariant
            k <= end <= v@.len(),
            last_index_of(v@.take(end as int), c) == last_index_of(v@.take(k as int), c),
        decreases k,
    {
        assert(v@.take(k as int).drop_last() =~= v@.take(k - 1));
        if v[k - 1] == c {
            return Some(k - 1);
        }
        k = k - 1;
    }
    None
}

/// The last two labels of an already normalized host (or the host itself
/// when it has no dot).
pub fn root_of_normalized(h: &str) -> (r: String)
    ensures
        r@ == registrable_suffix(h@),
{
    let v = chars_of(h);
    let n = v.len();
    assert(v@.take(n as int) =~= v@);
    proof {
        lemma_last_index_of(v@, '.');
    }
    match last_index_before(&v, '.', n) {
        None => string_of(&v, 0, n),
        Some(i) => {
            proof {
                lemma_last_index_of(v@.take(i as int), '.');
            }
            let start = match last_index_before(&v, '.', i) {
                None => 0,
                Some(j) => j + 1,
            };
            proof {
                lemma_last_index_of(v@.take(i as int), '.');
            }
            let r = string_of(&v, start, n);
            assert(v@.subrange(start as int, n as int) =~= v@.skip(start as int));
            r
        },
    }
}

/// `host` with leading dots trimmed, lowercased, reduced to its last two
/// dot-separated labels; a host without a dot is returned whole.
pub fn root_domain_of(host: &str) -> (r: String)
    ensures
        r@ == root_domain(host@),
        all_ascii(host@) ==> r@ == ascii_root_domain(host@),
{
    let h = normalized_host(host);
    root_of_normalized(h.as_str())
}

fn is_literal(v: &Vec<char>, lit: &str) -> (r: bool)
    ensures
        r == (v@ == lit@),
{
    let l = chars_of(lit);
    chars_eq(v, &l)
}

/// The platform that a root domain belongs to.
pub fn platform_of_root(root: &str) -> (k: PlatformKind)
    ensures
        k == kind_of_root(root@),
{
    let v = chars_of(root);
    if is_literal(&v, "youtube.com") || is_literal(&v, "youtu.be") {
        PlatformKind::Youtube
    } else if is_literal(&v, "soundcloud.com") {
        PlatformKind::SoundCloud
    } else if is_literal(&v, "spotify.com") {
        PlatformKind::Spotify
    } else if is_literal(&v, "twitch.tv") {
        PlatformKind::Twitch
    } else if is_literal(&v, "instagram.com") {
        PlatformKind::Instagram
    } else if is_literal(&v, "x.com") || is_literal(&v, "twitter.com") {
        PlatformKind::XTwitter
    } else if is_literal(&v, "vimeo.com") {
        PlatformKind::Vimeo
    } else if is_literal(&v, "tiktok.com") {
        PlatformKind::Tiktok
    } else if is_literal(&v, "bilibili.com") {
        PlatformKind::Bilibili
    } else if is_literal(&v, "reddit.com") {
        PlatformKind::Reddit
    } else if is_literal(&v, "pinterest.com") {
        PlatformKind::Pinterest
    } else if is_literal(&v, "bsky.app") || is_literal(&v, "bsky.social") {
        PlatformKind::Bluesky
    } else {
        PlatformKind::Generic
    }
}

impl PlatformKind {
    /// The stable snake_case name of this kind.
    pub fn as_str(&self) -> (r: &'static str)
        ensures
            r@ == kind_name(*self),
    {
        match self {
            PlatformKind::Youtube => "youtube",
            PlatformKind::YoutubeMusic => "youtube_music",
            PlatformKind::SoundCloud => "soundcloud",
            PlatformKind::Spotify => "spotify",
            PlatformKind::Twitch => "twitch",
            PlatformKind::Instagram => "instagram",
            PlatformKind::XTwitter => "x_twitter",
            PlatformKind::Vimeo => "vimeo",
            PlatformKind::Tiktok => "tiktok",
            PlatformKind::Bilibili => "bilibili",
            PlatformKind::Reddit => "reddit",
            PlatformKind::Pinterest => "pinterest",
            PlatformKind::Bluesky => "bluesky",
            PlatformKind::Generic => "generic",
        }
    }

    /// The kind of a cookie domain: `music.youtube.com` is YouTube Music, any
    /// other host is classified by its root domain.
    pub fn from_domain(domain: &str) -> (k: PlatformKind)
        ensures
            k == kind_of_domain(domain@),
            all_ascii(domain@) ==> k == ascii_kind_of_domain(domain@),
    {
        let host = normalized_host(domain);
        proof {
            lemma_trim_leading_dots(domain@);
            lemma_ascii_lower(trim_leading_dots(domain@));
        }
        let hv = chars_of(host.as_str());
        if is_literal(&hv, "music.youtube.com") {
            return PlatformKind::YoutubeMusic;
        }
        let root = root_domain_of(host.as_str());
        platform_of_root(root.as_str())
    }
}

} // verus!
